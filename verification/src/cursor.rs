//! The cursor state machine: a position in physical-row coordinates over a
//! wrapped document, with a sticky intended column for vertical movement, a
//! viewport offset, and a token cache that accelerates repeated word jumps.

use vstd::prelude::*;
use crate::direction::Direction;
use crate::tokenizer::copy_chars;
use crate::tokenizer::span_fits;
use crate::tokenizer::tokenize_text;
use crate::tokenizer::tokenized_spans_ok;
use crate::tokenizer::TokenWithPos;
use crate::wrap::effective_width;
use crate::wrap::join_rows_spec;
use crate::wrap::lemma_wrap_nav_consistent;
use crate::wrap::wrap_ids_from;
use crate::wrap::wrap_content;
use crate::wrap::wrap_rows_spec;
use crate::wrap::WrapResult;
use crate::wrap::split_lines;
use crate::wrap::split_lines_spec;
use crate::wrap::views_of;

verus! {

/// The wrap-id table is consistent with an `nrows`-row document: the rows of
/// one logical line are contiguous, and a row that continues its
/// predecessor's logical line lies inside the row table.
pub open spec fn ids_consistent(ids: Seq<usize>, nrows: int) -> bool {
    &&& (forall|i: int|
        #![trigger ids[i]]
        0 <= i && i + 1 < ids.len() && ids[i] == ids[i + 1] ==> i + 1 < nrows)
    &&& (forall|i: int, j: int, k: int|
        #![trigger ids[i], ids[j], ids[k]]
        0 <= i <= j <= k < ids.len() && ids[i] == ids[k] ==> ids[j] == ids[i])
}

/// Two spans carry the same token and the same coordinates.
pub open spec fn span_matches(a: TokenWithPos, b: TokenWithPos) -> bool {
    &&& a.token.id == b.token.id
    &&& a.token.value@ == b.token.value@
    &&& a.token.token_type == b.token.token_type
    &&& a.col_start == b.col_start
    &&& a.col_end == b.col_end
    &&& a.row_start == b.row_start
    &&& a.row_end == b.row_end
}

/// The intended column `last_x`, clamped to a row of length `l`.
pub open spec fn clamped(last_x: int, l: int) -> int {
    if last_x > l {
        l
    } else {
        last_x
    }
}

/// The viewport offset after scrolling the least amount that brings row `y`
/// into a window of `h` rows starting at `vo`; a zero height is treated as
/// height one.
pub open spec fn scrolled_offset(y: int, vo: int, h: int) -> int {
    let hh: int = if h == 0 {
        1
    } else {
        h
    };
    if y < vo {
        y
    } else if y >= vo + hh {
        y - hh + 1
    } else {
        vo
    }
}

/// The cursor of the viewer: a position over the wrapped document in
/// physical-row coordinates, together with the row-length and wrap-id tables
/// the movement operations consult, the token spans for word jumps, and the
/// word-jump cache.
pub struct CursorPos {
    /// Column, 0-based; at most the current row's length.
    pub x: usize,
    /// Physical row, 0-based; at most `max_y`.
    pub y: usize,
    /// The most recent intended column: vertical moves re-derive `x` from it,
    /// so it may exceed the current row's length.
    pub last_x: usize,
    /// Index of the last physical row (0 when the document has no rows).
    pub max_y: usize,
    /// Length of each physical row, in characters.
    pub line_lengths: Vec<usize>,
    /// First visible physical row of the viewport.
    pub vertical_offset: usize,
    /// The logical line index each physical row was produced from.
    pub wrap_ids: Vec<usize>,
    /// The token spans of the wrapped text, in document order.
    pub tokenized_words: Vec<TokenWithPos>,
    /// The cached span of the most recent word jump, if any.
    pub last_token: Option<TokenWithPos>,
    /// Whether the most recent word jump went right.
    pub last_fast_right: bool,
}

impl CursorPos {
    /// Number of physical rows of the document.
    pub open spec fn num_rows(self) -> int {
        self.line_lengths@.len() as int
    }

    /// Length of physical row `y`; rows outside the table count as empty.
    pub open spec fn row_len(self, y: int) -> int {
        if 0 <= y < self.line_lengths@.len() {
            self.line_lengths@[y] as int
        } else {
            0
        }
    }

    /// The wrap id of row `y`, if the row exists in the wrap-id table.
    pub open spec fn opt_id(self, y: int) -> Option<usize> {
        if 0 <= y < self.wrap_ids@.len() {
            Some(self.wrap_ids@[y])
        } else {
            None
        }
    }

    /// Rows `a` and `b` belong to the same logical line: their wrap-id table
    /// entries are equal.
    pub open spec fn same_logical(self, a: int, b: int) -> bool {
        self.opt_id(a) == self.opt_id(b)
    }

    /// The spec view of the wrap-id table.
    pub open spec fn ids(self) -> Seq<usize> {
        self.wrap_ids@
    }

    /// The spec view of the token spans.
    pub open spec fn spans(self) -> Seq<TokenWithPos> {
        self.tokenized_words@
    }

    /// The spec view of the word-jump cache.
    pub open spec fn cache(self) -> Option<TokenWithPos> {
        self.last_token
    }

    /// The spec view of the word-jump cache direction flag.
    pub open spec fn cache_was_right(self) -> bool {
        self.last_fast_right
    }

    /// Well-formedness: the position invariant of the cursor.  `y` never
    /// exceeds the last row, `x` never exceeds the current row's length, the
    /// wrap-id table is consistent with the row table, and every token span
    /// (including a cached one) lies inside the rows.
    pub open spec fn wf(self) -> bool {
        &&& self.max_y as int == if self.num_rows() == 0 {
            0int
        } else {
            self.num_rows() - 1
        }
        &&& self.y <= self.max_y
        &&& self.x as int <= self.row_len(self.y as int)
        &&& ids_consistent(self.wrap_ids@, self.num_rows())
        &&& (forall|i: int|
            0 <= i < self.tokenized_words@.len() ==> self.span_ok(
                #[trigger] self.tokenized_words@[i],
            ))
        &&& match self.last_token {
            Some(t) => self.span_ok(t),
            None => true,
        }
    }

    /// A span lies inside the row table, with a single-row span's columns
    /// ordered.
    pub open spec fn span_ok(self, t: TokenWithPos) -> bool {
        &&& t.row_start <= t.row_end
        &&& (t.row_end as int) < self.num_rows()
        &&& (t.col_start as int) < self.row_len(t.row_start as int)
        &&& (t.col_end as int) < self.row_len(t.row_end as int)
        &&& (t.row_start == t.row_end ==> t.col_start <= t.col_end)
    }

    /// The navigation tables (rows, wrap ids, spans) of `self` and `other`
    /// are the same.
    pub open spec fn same_tables(self, other: CursorPos) -> bool {
        &&& self.line_lengths@ == other.line_lengths@
        &&& self.wrap_ids@ == other.wrap_ids@
        &&& self.tokenized_words@ == other.tokenized_words@
        &&& self.max_y == other.max_y
    }

    /// The word-jump cache of `self` and `other` is the same.
    pub open spec fn same_cache(self, other: CursorPos) -> bool {
        &&& self.last_token == other.last_token
        &&& self.last_fast_right == other.last_fast_right
    }

    /// Builds a cursor at the origin over a wrapped document.  `contents` is
    /// the wrapped text, `wrap_ids` names each row's logical line, and
    /// `tokenized_words` are the token spans used for word jumps.
    pub fn new(
        contents: &Vec<char>,
        wrap_ids: Vec<usize>,
        tokenized_words: Vec<TokenWithPos>,
    ) -> (c: CursorPos)
        requires
            ids_consistent(wrap_ids@, split_lines_spec(contents@).len() as int),
            forall|i: int|
                0 <= i < tokenized_words@.len() ==> span_fits(
                    #[trigger] tokenized_words@[i],
                    split_lines_spec(contents@),
                ),
        ensures
            c.wf(),
            c.x == 0 && c.y == 0 && c.last_x == 0 && c.vertical_offset == 0,
            c.num_rows() == split_lines_spec(contents@).len(),
            forall|i: int|
                0 <= i < split_lines_spec(contents@).len() ==> c.row_len(i) == #[trigger] (
                split_lines_spec(contents@)[i].len()),
            c.ids() == wrap_ids@,
            c.spans() == tokenized_words@,
            c.cache() is None,
            !c.cache_was_right(),
    {
        let lines = split_lines(contents);
        let mut line_lengths: Vec<usize> = Vec::new();
        let mut i: usize = 0;
        while i < lines.len()
            invariant
                i <= lines@.len(),
                line_lengths@.len() == i as int,
                forall|j: int|
                    0 <= j < i as int ==> line_lengths@[j] == #[trigger] lines@[j]@.len(),
            decreases lines@.len() - i,
        {
            line_lengths.push(lines[i].len());
            i += 1;
        }
        let max_y = if lines.len() == 0 {
            0
        } else {
            lines.len() - 1
        };
        let c = CursorPos {
            x: 0,
            y: 0,
            last_x: 0,
            max_y,
            line_lengths,
            vertical_offset: 0,
            wrap_ids,
            tokenized_words,
            last_token: None,
            last_fast_right: false,
        };
        proof {
            let lv = split_lines_spec(contents@);
            assert(views_of(lines@) == lv);
            assert forall|j: int| 0 <= j < lv.len() implies c.row_len(j) == #[trigger] (
            lv[j].len()) by {
                assert(lines@[j]@ == views_of(lines@)[j]);
            }
            assert forall|k: int|
                0 <= k < c.tokenized_words@.len() implies c.span_ok(
                #[trigger] c.tokenized_words@[k],
            ) by {
                let t = c.tokenized_words@[k];
                assert(span_fits(t, lv));
                assert(c.row_len(t.row_start as int) == lv[t.row_start as int].len());
                assert(c.row_len(t.row_end as int) == lv[t.row_end as int].len());
            }
        }
        c
    }

    /// Length of row `line`; rows outside the table count as empty.
    fn get_line_length(&self, line: usize) -> (l: usize)
        ensures
            l as int == self.row_len(line as int),
    {
        if line < self.line_lengths.len() {
            self.line_lengths[line]
        } else {
            0
        }
    }

    /// Length of the row the cursor is on.
    fn get_current_line_length(&self) -> (l: usize)
        ensures
            l as int == self.row_len(self.y as int),
    {
        self.get_line_length(self.y)
    }

    /// The wrap id of `line`, if that row exists.
    fn wrap_id_for_line(&self, line: usize) -> (r: Option<usize>)
        ensures
            r == self.opt_id(line as int),
    {
        if line < self.wrap_ids.len() {
            Some(self.wrap_ids[line])
        } else {
            None
        }
    }

    /// Whether row `other_y` belongs to the same logical line as the row the
    /// cursor is on.
    fn is_same_logical_line(&self, other_y: usize) -> (r: bool)
        ensures
            r == self.same_logical(self.y as int, other_y as int),
    {
        let a = self.wrap_id_for_line(other_y);
        let b = self.wrap_id_for_line(self.y);
        match (a, b) {
            (Some(u), Some(v)) => u == v,
            (None, None) => true,
            _ => false,
        }
    }

    /// Re-derives `x` from the sticky intended column, clamped to the
    /// current row's length.
    fn clamp_x_to_current_line(&mut self)
        ensures
            final(self).x as int == clamped(
                old(self).last_x as int,
                old(self).row_len(old(self).y as int),
            ),
            *final(self) == (CursorPos { x: final(self).x, ..*old(self) }),
    {
        let max_x = self.get_current_line_length();
        if self.last_x > max_x {
            self.x = max_x;
        } else {
            self.x = self.last_x;
        }
    }

    /// Scrolls the viewport by the minimal amount that keeps the cursor row
    /// visible in a window of `visible_rows` rows; reports whether the
    /// offset changed.  A zero height is treated as height one.
    fn ensure_visible(&mut self, visible_rows: usize) -> (scrolled: bool)
        ensures
            final(self).vertical_offset as int == scrolled_offset(
                old(self).y as int,
                old(self).vertical_offset as int,
                visible_rows as int,
            ),
            scrolled == (final(self).vertical_offset != old(self).vertical_offset),
            *final(self) == (CursorPos {
                vertical_offset: final(self).vertical_offset,
                ..*old(self)
            }),
            final(self).vertical_offset <= final(self).y,
            (final(self).y as int) < final(self).vertical_offset as int + (if visible_rows == 0 {
                1int
            } else {
                visible_rows as int
            }),
    {
        let h: usize = if visible_rows == 0 {
            1
        } else {
            visible_rows
        };
        if self.y < self.vertical_offset {
            self.vertical_offset = self.y;
            true
        } else if self.y - self.vertical_offset >= h {
            self.vertical_offset = self.y - (h - 1);
            true
        } else {
            false
        }
    }

    /// Moves one row up: `y` is clamped at the document start, `x` is
    /// re-derived from the intended column, and the viewport follows the
    /// cursor; returns whether the viewport scrolled.
    pub fn move_up(&mut self, visible_rows: usize) -> (scrolled: bool)
        requires
            old(self).wf(),
        ensures
            final(self).wf(),
            old(self).y == 0 ==> *final(self) == *old(self) && !scrolled,
            old(self).y > 0 ==> {
                &&& final(self).y as int == old(self).y - 1
                &&& final(self).last_x == old(self).last_x
                &&& final(self).x as int == clamped(
                    old(self).last_x as int,
                    old(self).row_len(old(self).y - 1),
                )
                &&& final(self).vertical_offset as int == scrolled_offset(
                    old(self).y - 1,
                    old(self).vertical_offset as int,
                    visible_rows as int,
                )
                &&& scrolled == (final(self).vertical_offset != old(self).vertical_offset)
                &&& final(self).vertical_offset <= final(self).y
            },
            final(self).same_tables(*old(self)),
            final(self).same_cache(*old(self)),
    {
        if self.y > 0 {
            self.y -= 1;
            self.clamp_x_to_current_line();
            return self.ensure_visible(visible_rows);
        }
        false
    }

    /// Moves one row down: `y` is clamped at the last row, `x` is re-derived
    /// from the intended column, and the viewport follows the cursor;
    /// returns whether the viewport scrolled.
    pub fn move_down(&mut self, visible_rows: usize) -> (scrolled: bool)
        requires
            old(self).wf(),
        ensures
            final(self).wf(),
            old(self).y == old(self).max_y ==> *final(self) == *old(self) && !scrolled,
            old(self).y < old(self).max_y ==> {
                &&& final(self).y as int == old(self).y + 1
                &&& final(self).last_x == old(self).last_x
                &&& final(self).x as int == clamped(
                    old(self).last_x as int,
                    old(self).row_len(old(self).y + 1),
                )
                &&& final(self).vertical_offset as int == scrolled_offset(
                    old(self).y + 1,
                    old(self).vertical_offset as int,
                    visible_rows as int,
                )
                &&& scrolled == (final(self).vertical_offset != old(self).vertical_offset)
                &&& final(self).vertical_offset <= final(self).y
            },
            final(self).same_tables(*old(self)),
            final(self).same_cache(*old(self)),
    {
        if self.y < self.max_y {
            self.y += 1;
            self.clamp_x_to_current_line();
            return self.ensure_visible(visible_rows);
        }
        false
    }
    /// Moves one column right within the current physical row.  Moving right
    /// when `x` already equals the row's length (so one more step would
    /// exceed it) wraps to column 0 of the next physical row when that row
    /// continues the same logical line; past a hard line end it is a no-op.
    pub fn move_right(&mut self)
        requires
            old(self).wf(),
        ensures
            final(self).wf(),
            ({
                let l = old(self).row_len(old(self).y as int);
                let jump = old(self).y + 1 < old(self).ids().len() && old(self).same_logical(
                    old(self).y as int,
                    old(self).y + 1,
                );
                if (old(self).x as int) < l {
                    final(self).y == old(self).y && final(self).x as int == old(self).x + 1
                        && final(self).last_x as int == old(self).x + 1
                } else {
                    if jump {
                        final(self).y as int == old(self).y + 1 && final(self).x == 0
                            && final(self).last_x == 0
                    } else {
                        *final(self) == *old(self)
                    }
                }
            }),
            final(self).vertical_offset == old(self).vertical_offset,
            final(self).same_tables(*old(self)),
            final(self).same_cache(*old(self)),
    {
        let max_x = self.get_current_line_length();
        if self.x < max_x {
            self.x += 1;
            self.last_x = self.x;
        } else {
            let jump = self.wrap_ids.len() > 0 && self.y < self.wrap_ids.len() - 1
                && self.is_same_logical_line(self.y + 1);
            if jump {
                proof {
                    assert(self.opt_id(self.y as int) == self.opt_id(self.y + 1));
                    assert(self.wrap_ids@[self.y as int] == self.wrap_ids@[self.y + 1]);
                    assert(self.y + 1 < self.num_rows());
                }
                self.y += 1;
                self.x = 0;
                self.last_x = 0;
            }
        }
    }

    /// Moves one column left within the current physical row.  Moving left
    /// at column 0 of a row whose previous physical row belongs to the same
    /// logical line wraps the cursor to that row's end column, symmetric to
    /// the rightward seam; at the document's absolute start, or at a hard
    /// line start, it is a no-op.
    pub fn move_left(&mut self)
        requires
            old(self).wf(),
        ensures
            final(self).wf(),
            ({
                let jump = old(self).y > 0 && old(self).same_logical(
                    old(self).y as int,
                    old(self).y - 1,
                );
                if old(self).x > 0 {
                    final(self).y == old(self).y && final(self).x as int == old(self).x - 1
                        && final(self).last_x as int == old(self).x - 1
                } else if jump {
                    final(self).y as int == old(self).y - 1 && final(self).x as int == old(
                        self,
                    ).row_len(old(self).y - 1) && final(self).last_x == final(self).x
                } else {
                    *final(self) == *old(self)
                }
            }),
            final(self).vertical_offset == old(self).vertical_offset,
            final(self).same_tables(*old(self)),
            final(self).same_cache(*old(self)),
    {
        if self.x > 0 {
            self.x -= 1;
            self.last_x = self.x;
        } else if self.y > 0 && self.is_same_logical_line(self.y - 1) {
            self.y -= 1;
            self.x = self.get_current_line_length();
            self.last_x = self.x;
        }
    }
    /// Jumps to column 0 of the first physical row of the current logical
    /// line.  A cursor row outside the wrap-id table falls back to column 0
    /// of the visual row.
    #[verifier::loop_isolation(false)]
    pub fn move_home(&mut self)
        requires
            old(self).wf(),
        ensures
            final(self).wf(),
            final(self).x == 0 && final(self).last_x == 0,
            ({
                if (old(self).y as int) < old(self).ids().len() {
                    final(self).y as int == first_index_of(
                        old(self).ids(),
                        old(self).ids()[old(self).y as int],
                    )
                } else {
                    final(self).y == old(self).y
                }
            }),
            final(self).vertical_offset == old(self).vertical_offset,
            final(self).same_tables(*old(self)),
            final(self).same_cache(*old(self)),
    {
        match self.wrap_id_for_line(self.y) {
            Some(current_wrap_id) => {
                let ghost idsv = self.wrap_ids@;
                proof {
                    lemma_first_index_of(idsv, current_wrap_id);
                    assert(idsv[self.y as int] == current_wrap_id);
                }
                let mut i: usize = 0;
                while self.wrap_ids[i] != current_wrap_id
                    invariant
                        i <= self.y,
                        forall|j: int| 0 <= j < i as int ==> #[trigger] idsv[j] != current_wrap_id,
                    decreases self.y - i,
                {
                    i += 1;
                }
                proof {
                    assert(idsv[i as int] == current_wrap_id);
                    assert(first_index_of(idsv, current_wrap_id) == i as int);
                }
                self.y = i;
                self.x = 0;
                self.last_x = 0;
            },
            None => {
                self.x = 0;
                self.last_x = 0;
            },
        }
    }

    /// Jumps to the end column of the last physical row of the current
    /// logical line.  A cursor row outside the wrap-id table falls back to
    /// the end of the visual row.
    #[verifier::loop_isolation(false)]
    pub fn move_end(&mut self)
        requires
            old(self).wf(),
        ensures
            final(self).wf(),
            ({
                if (old(self).y as int) < old(self).ids().len() {
                    let e = last_index_of(old(self).ids(), old(self).ids()[old(self).y as int]);
                    final(self).y as int == e && final(self).x as int == old(self).row_len(e)
                } else {
                    final(self).y == old(self).y && final(self).x as int == old(self).row_len(
                        old(self).y as int,
                    )
                }
            }),
            final(self).last_x == final(self).x,
            final(self).vertical_offset == old(self).vertical_offset,
            final(self).same_tables(*old(self)),
            final(self).same_cache(*old(self)),
    {
        match self.wrap_id_for_line(self.y) {
            Some(current_wrap_id) => {
                let ghost idsv = self.wrap_ids@;
                proof {
                    lemma_last_index_of(idsv, current_wrap_id);
                    assert(idsv[self.y as int] == current_wrap_id);
                }
                let mut i: usize = self.wrap_ids.len() - 1;
                while self.wrap_ids[i] != current_wrap_id
                    invariant
                        self.y <= i < idsv.len(),
                        forall|j: int|
                            (i as int) < j < idsv.len() ==> #[trigger] idsv[j] != current_wrap_id,
                    decreases i,
                {
                    i -= 1;
                }
                proof {
                    assert(idsv[i as int] == current_wrap_id);
                    assert(last_index_of(idsv, current_wrap_id) == i as int);
                }
                let last_line = i;
                proof {
                    let y0 = self.y as int;
                    let e = last_index_of(idsv, current_wrap_id);
                    assert(e >= y0);
                    if e > y0 {
                        assert(idsv[e - 1] == idsv[y0]);
                        assert(idsv[e] == idsv[y0]);
                        assert(idsv[e - 1] == idsv[e]);
                        assert(e < self.num_rows());
                    }
                }
                self.y = last_line;
                self.x = self.get_line_length(last_line);
                self.last_x = self.x;
            },
            None => {
                self.x = self.get_current_line_length();
                self.last_x = self.x;
            },
        }
    }

    /// The result of the uncached word-jump scan from the cursor.
    pub open spec fn scan_from_cursor(self, dir: Direction) -> Option<int> {
        match dir {
            Direction::Right => scan_right_spec(
                self.tokenized_words@,
                self.wrap_ids@,
                self.line_lengths@,
                self.opt_id(self.y as int),
                self.y as int,
                self.x as int,
            ),
            Direction::Left => scan_left_spec(
                self.tokenized_words@,
                self.wrap_ids@,
                self.line_lengths@,
                self.opt_id(self.y as int),
                self.y as int,
                self.x as int,
            ),
        }
    }

    /// Whether a word jump in `dir` may reuse the cached span: the cache
    /// holds a span, the previous jump went the other way, and the cursor is
    /// still within (or immediately adjacent to) the cached span.
    pub open spec fn use_cache_spec(self, dir: Direction) -> bool {
        match self.last_token {
            Some(t) => (match dir {
                Direction::Right => !self.last_fast_right,
                Direction::Left => self.last_fast_right,
            }) && in_token_extended(t, self.y as int, self.x as int),
            None => false,
        }
    }

    /// Whether the cursor is within, or immediately adjacent to, the cached
    /// span of the most recent word jump.
    fn cursor_in_last_token(&self) -> (r: bool)
        ensures
            r == match self.last_token {
                Some(t) => in_token_extended(t, self.y as int, self.x as int),
                None => false,
            },
    {
        match &self.last_token {
            None => false,
            Some(token) => {
                let cs: usize = if token.col_start > 0 {
                    token.col_start - 1
                } else {
                    0
                };
                let ce: usize = if token.col_end < usize::MAX {
                    token.col_end + 1
                } else {
                    usize::MAX
                };
                (token.row_start <= self.y && token.row_end >= self.y) && ((token.row_start
                    == token.row_end && self.x >= cs && self.x <= ce) || ((token.row_start < self.y
                    && token.row_end > self.y) || (token.row_start == self.y && self.x >= cs) || (
                token.row_end == self.y && self.x <= ce)))
            },
        }
    }

    /// Whether a word jump in `direction` reuses the cached span rather than
    /// scanning: only on a direction reversal, and only while the cursor is
    /// still adjacent to the cached span.
    fn use_last_token(&self, direction: Direction) -> (r: bool)
        ensures
            r == self.use_cache_spec(direction),
    {
        match direction {
            Direction::Right => !self.last_fast_right && self.cursor_in_last_token(),
            Direction::Left => self.last_fast_right && self.cursor_in_last_token(),
        }
    }

    /// The first token span that contains the cursor, if any.
    pub fn get_token_on_cursor(&self) -> (res: Option<TokenWithPos>)
        ensures
            match first_hit_on(self.spans(), self.y as int, self.x as int) {
                Some(i) => res is Some && span_matches(self.spans()[i], res->Some_0),
                None => res is None,
            },
    {
        proof {
            lemma_first_hit_on(self.tokenized_words@, self.y as int, self.x as int);
        }
        let mut i: usize = 0;
        while i < self.tokenized_words.len()
            invariant
                i <= self.tokenized_words@.len(),
                forall|j: int|
                    0 <= j < i as int ==> !hit_on(
                        #[trigger] self.tokenized_words@[j],
                        self.y as int,
                        self.x as int,
                    ),
            decreases self.tokenized_words@.len() - i,
        {
            let t = &self.tokenized_words[i];
            let h = (t.row_start == self.y && t.row_end == self.y && t.col_start <= self.x
                && self.x <= t.col_end) || (t.row_start < self.y && self.y < t.row_end) || (
            t.row_start == self.y && self.y < t.row_end && t.col_start <= self.x) || (t.row_start
                < self.y && t.row_end == self.y && self.x <= t.col_end);
            if h {
                proof {
                    lemma_first_hit_on(self.tokenized_words@, self.y as int, self.x as int);
                }
                return Some(copy_span(t));
            }
            i += 1;
        }
        proof {
            lemma_first_hit_on(self.tokenized_words@, self.y as int, self.x as int);
        }
        None
    }

    /// The uncached word-jump scan.  On success the found span is cached and
    /// a copy returned; on failure the cursor and the cache are untouched.
    #[verifier::loop_isolation(false)]
    fn get_token(&mut self, direction: Direction) -> (res: Option<TokenWithPos>)
        requires
            old(self).wf(),
        ensures
            final(self).wf(),
            final(self).x == old(self).x,
            final(self).y == old(self).y,
            final(self).last_x == old(self).last_x,
            final(self).vertical_offset == old(self).vertical_offset,
            final(self).last_fast_right == old(self).last_fast_right,
            final(self).same_tables(*old(self)),
            match old(self).scan_from_cursor(direction) {
                Some(i) => res is Some && span_matches(old(self).spans()[i], res->Some_0) && (
                match final(self).last_token {
                    Some(ct) => span_matches(old(self).spans()[i], ct),
                    None => false,
                }),
                None => res is None && *final(self) == *old(self),
            },
    {
        let ghost spansv = self.tokenized_words@;
        let ghost idsv = self.wrap_ids@;
        let ghost lensv = self.line_lengths@;
        let wid0 = self.wrap_id_for_line(self.y);
        let mut py: usize = self.y;
        let mut pc: usize = self.x;
        match direction {
            Direction::Right => {
                loop
                    invariant
                        pc as int <= row_len_at(lensv, py as int),
                        scan_right_spec(spansv, idsv, lensv, wid0, py as int, pc as int) == old(
                            self,
                        ).scan_from_cursor(direction),
                        *self == *old(self),
                    decreases idsv.len() - py, row_len_at(lensv, py as int) + 1 - pc,
                {
                    match find_hit(&self.tokenized_words, py, pc) {
                        Some(idx) => {
                            proof {
                                lemma_first_hit(spansv, py as int, pc as int);
                            }
                            let found = copy_span(&self.tokenized_words[idx]);
                            self.last_token = Some(copy_span(&self.tokenized_words[idx]));
                            return Some(found);
                        },
                        None => {
                            let l = self.get_line_length(py);
                            if l > 0 && pc < l - 1 {
                                pc += 1;
                            } else if self.wrap_ids.len() > 0 && py < self.wrap_ids.len() - 1
                                && opt_eq(wid0, self.wrap_id_for_line(py + 1)) {
                                py += 1;
                                pc = 0;
                            } else {
                                return None;
                            }
                        },
                    }
                }
            },
            Direction::Left => {
                loop
                    invariant
                        scan_left_spec(spansv, idsv, lensv, wid0, py as int, pc as int) == old(
                            self,
                        ).scan_from_cursor(direction),
                        *self == *old(self),
                    decreases py, pc,
                {
                    match find_hit(&self.tokenized_words, py, pc) {
                        Some(idx) => {
                            proof {
                                lemma_first_hit(spansv, py as int, pc as int);
                            }
                            let found = copy_span(&self.tokenized_words[idx]);
                            self.last_token = Some(copy_span(&self.tokenized_words[idx]));
                            return Some(found);
                        },
                        None => {
                            if pc > 0 {
                                pc -= 1;
                            } else if py > 0 && opt_eq(wid0, self.wrap_id_for_line(py - 1)) {
                                py -= 1;
                                pc = self.get_line_length(py);
                            } else {
                                return None;
                            }
                        },
                    }
                }
            },
        }
    }

    /// Jumps the cursor just past (right) or just before (left) the nearest
    /// token span in the given direction.  A reversal of direction while the
    /// cursor is still adjacent to the cached span reuses the cache instead
    /// of scanning; if no span is found, the cursor does not move.
    ///
    /// The cached reversal is not always where an uncached scan would land:
    /// standing just past a span whose neighbour starts at the next column,
    /// the scan would stop at the neighbour, while the cache jumps back over
    /// the span it remembers.  The cached behaviour is kept deliberately -
    /// it is what makes a word-jump round trip land at the crossed token's
    /// start (`lemma_token_round_trip`) - and the contract states both paths
    /// exactly.
    pub fn move_token(&mut self, direction: Direction)
        requires
            old(self).wf(),
        ensures
            final(self).wf(),
            move_token_rel(*old(self), *final(self), direction),
    {
        let use_cache = self.use_last_token(direction);
        let actual: Option<TokenWithPos> = if use_cache {
            match &self.last_token {
                Some(t) => Some(copy_span(t)),
                None => None,
            }
        } else {
            self.get_token(direction)
        };
        match actual {
            Some(token) => {
                match direction {
                    Direction::Right => {
                        self.x = token.col_end + 1;
                        self.y = token.row_end;
                        self.last_fast_right = true;
                    },
                    Direction::Left => {
                        self.x = if token.col_start > 0 {
                            token.col_start - 1
                        } else {
                            0
                        };
                        self.y = token.row_start;
                        self.last_fast_right = false;
                    },
                }
                self.last_x = self.x;
            },
            None => {},
        }
    }

    /// Rebuilds the positional fields after a resize: the row is clamped to
    /// the new document, the intended column is kept and `x` re-derived from
    /// it, and the viewport offset is recomputed (not copied blindly) so the
    /// cursor stays visible.
    pub fn restore_position(
        &mut self,
        y: usize,
        last_x: usize,
        vertical_offset: usize,
        visible_rows: usize,
    )
        requires
            old(self).wf(),
        ensures
            final(self).wf(),
            final(self).y == (if y > old(self).max_y {
                old(self).max_y
            } else {
                y
            }),
            final(self).last_x == last_x,
            final(self).x as int == clamped(
                last_x as int,
                final(self).row_len(final(self).y as int),
            ),
            final(self).vertical_offset as int == scrolled_offset(
                final(self).y as int,
                vertical_offset as int,
                visible_rows as int,
            ),
            final(self).vertical_offset <= final(self).y,
            (final(self).y as int) < final(self).vertical_offset as int + (if visible_rows == 0 {
                1int
            } else {
                visible_rows as int
            }),
            final(self).same_tables(*old(self)),
            final(self).same_cache(*old(self)),
    {
        self.y = if y > self.max_y {
            self.max_y
        } else {
            y
        };
        self.last_x = last_x;
        self.clamp_x_to_current_line();
        self.vertical_offset = vertical_offset;
        self.ensure_visible(visible_rows);
    }

}

/// Index of the first row whose wrap id is `id`, or the table's length when
/// no row has it.
pub open spec fn first_index_of(ids: Seq<usize>, id: usize) -> int
    decreases ids.len(),
{
    if ids.len() == 0 {
        0
    } else if ids[0] == id {
        0
    } else {
        1 + first_index_of(ids.drop_first(), id)
    }
}

/// Index of the last row whose wrap id is `id`, or -1 when no row has it.
pub open spec fn last_index_of(ids: Seq<usize>, id: usize) -> int
    decreases ids.len(),
{
    if ids.len() == 0 {
        -1
    } else if ids.last() == id {
        ids.len() - 1
    } else {
        last_index_of(ids.drop_last(), id)
    }
}

pub proof fn lemma_first_index_of(ids: Seq<usize>, id: usize)
    ensures
        0 <= first_index_of(ids, id) <= ids.len(),
        first_index_of(ids, id) < ids.len() ==> ids[first_index_of(ids, id)] == id,
        forall|j: int| 0 <= j < first_index_of(ids, id) ==> #[trigger] ids[j] != id,
        (exists|j: int| 0 <= j < ids.len() && #[trigger] ids[j] == id) ==> first_index_of(ids, id)
            < ids.len(),
    decreases ids.len(),
{
    if ids.len() > 0 && ids[0] != id {
        lemma_first_index_of(ids.drop_first(), id);
        let f = first_index_of(ids, id);
        assert forall|j: int| 0 <= j < f implies #[trigger] ids[j] != id by {
            if j > 0 {
                assert(ids.drop_first()[j - 1] != id);
            }
        }
        if exists|j: int| 0 <= j < ids.len() && #[trigger] ids[j] == id {
            let j = choose|j: int| 0 <= j < ids.len() && #[trigger] ids[j] == id;
            assert(ids.drop_first()[j - 1] == id);
        }
    }
}

pub proof fn lemma_last_index_of(ids: Seq<usize>, id: usize)
    ensures
        -1 <= last_index_of(ids, id) < ids.len(),
        last_index_of(ids, id) >= 0 ==> ids[last_index_of(ids, id)] == id,
        forall|j: int| last_index_of(ids, id) < j < ids.len() ==> #[trigger] ids[j] != id,
        (exists|j: int| 0 <= j < ids.len() && #[trigger] ids[j] == id) ==> last_index_of(ids, id)
            >= 0,
    decreases ids.len(),
{
    if ids.len() > 0 && ids.last() != id {
        lemma_last_index_of(ids.drop_last(), id);
        let f = last_index_of(ids, id);
        assert forall|j: int| f < j < ids.len() implies #[trigger] ids[j] != id by {
            if j < ids.len() - 1 {
                assert(ids.drop_last()[j] != id);
            }
        }
        if exists|j: int| 0 <= j < ids.len() && #[trigger] ids[j] == id {
            let j = choose|j: int| 0 <= j < ids.len() && #[trigger] ids[j] == id;
            assert(ids.drop_last()[j] == id);
        }
    }
}

/// The probe predicate of the word-jump scan: the span contains the probe
/// position (y, c), counting a multi-row span as containing its whole start
/// row from `col_start` on and its whole end row up to `col_end`.
pub open spec fn hit(t: TokenWithPos, y: int, c: int) -> bool {
    ||| ((t.row_start as int) <= y && y <= (t.row_end as int) && (t.col_start as int) <= c && c <= (
    t.col_end as int))
    ||| ((t.row_start as int) < y && y < (t.row_end as int))
    ||| ((t.row_start as int) == y && (t.col_start as int) <= c && y < (t.row_end as int))
    ||| ((t.row_end as int) == y && c <= (t.col_end as int) && (t.row_start as int) < y)
}

/// Index of the first span that contains the probe position, if any.
pub open spec fn first_hit(spans: Seq<TokenWithPos>, y: int, c: int) -> Option<int>
    decreases spans.len(),
{
    if spans.len() == 0 {
        None
    } else if hit(spans[0], y, c) {
        Some(0int)
    } else {
        match first_hit(spans.drop_first(), y, c) {
            Some(i) => Some(i + 1),
            None => None,
        }
    }
}

pub proof fn lemma_first_hit(spans: Seq<TokenWithPos>, y: int, c: int)
    ensures
        match first_hit(spans, y, c) {
            Some(i) => 0 <= i < spans.len() && hit(spans[i], y, c) && forall|j: int|
                0 <= j < i ==> !hit(#[trigger] spans[j], y, c),
            None => forall|j: int| 0 <= j < spans.len() ==> !hit(#[trigger] spans[j], y, c),
        },
    decreases spans.len(),
{
    if spans.len() > 0 && !hit(spans[0], y, c) {
        lemma_first_hit(spans.drop_first(), y, c);
        match first_hit(spans.drop_first(), y, c) {
            Some(i) => {
                assert(spans.drop_first()[i] == spans[i + 1]);
                assert forall|j: int| 0 <= j < i + 1 implies !hit(#[trigger] spans[j], y, c) by {
                    if j > 0 {
                        assert(spans.drop_first()[j - 1] == spans[j]);
                    }
                }
            },
            None => {
                assert forall|j: int| 0 <= j < spans.len() implies !hit(
                    #[trigger] spans[j],
                    y,
                    c,
                ) by {
                    if j > 0 {
                        assert(spans.drop_first()[j - 1] == spans[j]);
                    }
                }
            },
        }
    }
}

/// The cursor-containment predicate of `get_token_on_cursor`: single-row
/// spans contain their column range, multi-row spans contain the rows
/// between their ends, the start row from `col_start` on, and the end row up
/// to `col_end`.
pub open spec fn hit_on(t: TokenWithPos, y: int, x: int) -> bool {
    ||| ((t.row_start as int) == y && (t.row_end as int) == y && (t.col_start as int) <= x && x <= (
    t.col_end as int))
    ||| ((t.row_start as int) < y && y < (t.row_end as int))
    ||| ((t.row_start as int) == y && y < (t.row_end as int) && (t.col_start as int) <= x)
    ||| ((t.row_start as int) < y && (t.row_end as int) == y && x <= (t.col_end as int))
}

/// Index of the first span that contains the cursor, if any.
pub open spec fn first_hit_on(spans: Seq<TokenWithPos>, y: int, x: int) -> Option<int>
    decreases spans.len(),
{
    if spans.len() == 0 {
        None
    } else if hit_on(spans[0], y, x) {
        Some(0int)
    } else {
        match first_hit_on(spans.drop_first(), y, x) {
            Some(i) => Some(i + 1),
            None => None,
        }
    }
}

pub proof fn lemma_first_hit_on(spans: Seq<TokenWithPos>, y: int, x: int)
    ensures
        match first_hit_on(spans, y, x) {
            Some(i) => 0 <= i < spans.len() && hit_on(spans[i], y, x) && forall|j: int|
                0 <= j < i ==> !hit_on(#[trigger] spans[j], y, x),
            None => forall|j: int| 0 <= j < spans.len() ==> !hit_on(#[trigger] spans[j], y, x),
        },
    decreases spans.len(),
{
    if spans.len() > 0 && !hit_on(spans[0], y, x) {
        lemma_first_hit_on(spans.drop_first(), y, x);
        match first_hit_on(spans.drop_first(), y, x) {
            Some(i) => {
                assert(spans.drop_first()[i] == spans[i + 1]);
                assert forall|j: int| 0 <= j < i + 1 implies !hit_on(#[trigger] spans[j], y, x) by {
                    if j > 0 {
                        assert(spans.drop_first()[j - 1] == spans[j]);
                    }
                }
            },
            None => {
                assert forall|j: int| 0 <= j < spans.len() implies !hit_on(
                    #[trigger] spans[j],
                    y,
                    x,
                ) by {
                    if j > 0 {
                        assert(spans.drop_first()[j - 1] == spans[j]);
                    }
                }
            },
        }
    }
}

/// Length of row `y` in the row-length table; rows outside count as empty.
pub open spec fn row_len_at(lens: Seq<usize>, y: int) -> int {
    if 0 <= y < lens.len() {
        lens[y] as int
    } else {
        0
    }
}

/// Wrap id of row `y`, if the row exists in the table.
pub open spec fn id_at(ids: Seq<usize>, y: int) -> Option<usize> {
    if 0 <= y < ids.len() {
        Some(ids[y])
    } else {
        None
    }
}

/// The rightward word-jump probe: starting at (py, pc), the probe checks
/// each column for a containing span, walks right within the row, and at
/// the row's end continues at column 0 of the next row when that row still
/// belongs to the logical line the probe started on (`wid0`); it stops with
/// no result at a hard line end.
pub open spec fn scan_right_spec(
    spans: Seq<TokenWithPos>,
    ids: Seq<usize>,
    lens: Seq<usize>,
    wid0: Option<usize>,
    py: int,
    pc: int,
) -> Option<int>
    decreases
            ids.len() - py,
            if pc <= row_len_at(lens, py) {
                row_len_at(lens, py) + 1 - pc
            } else {
                0
            },
{
    if py < 0 || pc < 0 {
        None
    } else if first_hit(spans, py, pc) is Some {
        first_hit(spans, py, pc)
    } else if pc + 1 < row_len_at(lens, py) {
        scan_right_spec(spans, ids, lens, wid0, py, pc + 1)
    } else if py + 1 < ids.len() && wid0 == id_at(ids, py + 1) {
        scan_right_spec(spans, ids, lens, wid0, py + 1, 0)
    } else {
        None
    }
}

/// The leftward word-jump probe, symmetric to `scan_right_spec`: it walks
/// left within the row and continues at the end column of the previous row
/// when that row still belongs to the starting logical line.
pub open spec fn scan_left_spec(
    spans: Seq<TokenWithPos>,
    ids: Seq<usize>,
    lens: Seq<usize>,
    wid0: Option<usize>,
    py: int,
    pc: int,
) -> Option<int>
    decreases py, pc,
{
    if py < 0 || pc < 0 {
        None
    } else if first_hit(spans, py, pc) is Some {
        first_hit(spans, py, pc)
    } else if pc > 0 {
        scan_left_spec(spans, ids, lens, wid0, py, pc - 1)
    } else if py > 0 && wid0 == id_at(ids, py - 1) {
        scan_left_spec(spans, ids, lens, wid0, py - 1, row_len_at(lens, py - 1))
    } else {
        None
    }
}

/// The cached span extended by one column on each side: the region in which
/// a cached word jump is considered still adjacent to the cursor.
pub open spec fn in_token_extended(t: TokenWithPos, y: int, x: int) -> bool {
    let cs: int = if t.col_start > 0 {
        t.col_start - 1
    } else {
        0
    };
    let ce: int = if t.col_end == usize::MAX {
        usize::MAX as int
    } else {
        t.col_end + 1
    };
    ((t.row_start as int) <= y && y <= (t.row_end as int)) && (((t.row_start == t.row_end) && cs
        <= x && x <= ce) || (((t.row_start as int) < y && y < (t.row_end as int)) || ((
    t.row_start as int) == y && cs <= x) || ((t.row_end as int) == y && x <= ce)))
}

/// Where a word jump that landed on span `t` leaves the cursor: just past
/// the span's end going right, just before its start going left, with the
/// sticky column following and the cache direction flag recording the
/// direction.
pub open spec fn token_jump_post(
    post: CursorPos,
    t: TokenWithPos,
    dir: Direction,
) -> bool {
    &&& match dir {
        Direction::Right => {
            &&& post.x as int == t.col_end as int + 1
            &&& post.y == t.row_end
            &&& post.last_fast_right == true
        },
        Direction::Left => {
            &&& post.x as int == (if t.col_start > 0 {
                t.col_start as int - 1
            } else {
                0int
            })
            &&& post.y == t.row_start
            &&& post.last_fast_right == false
        },
    }
    &&& post.last_x == post.x
}

/// Clamp invariant: a well-formed cursor always sits within bounds -
/// `0 <= x <= row_len(y)` and `0 <= y <= max_y`.  Every movement operation
/// requires `wf` and re-establishes it, so this holds after each call of any
/// sequence of movements.
pub proof fn lemma_clamp_invariant(c: CursorPos)
    requires
        c.wf(),
    ensures
        0 <= c.x as int <= c.row_len(c.y as int),
        0 <= c.y <= c.max_y,
{
}

/// How one `move_token` call relates the state before it to the state after
/// it: either the cache was applicable and supplied the span, or the
/// uncached scan ran; in both cases the cursor jumps by `token_jump_post`,
/// and a cursor with no span in reach does not move.
pub open spec fn move_token_rel(pre: CursorPos, post: CursorPos, dir: Direction) -> bool {
    &&& post.vertical_offset == pre.vertical_offset
    &&& post.same_tables(pre)
    &&& if pre.use_cache_spec(dir) {
        token_jump_post(post, pre.cache()->Some_0, dir) && post.last_token == pre.last_token
    } else {
        match pre.scan_from_cursor(dir) {
            Some(i) => token_jump_post(post, pre.spans()[i], dir) && (match post.last_token {
                Some(ct) => span_matches(pre.spans()[i], ct),
                None => false,
            }),
            None => post == pre,
        }
    }
}

/// Home/End symmetry: from any row of a logical line, `move_home`, then
/// `move_end`, then `move_home` again puts the cursor back on the first
/// physical row of that line, at column 0.  Stated over the index functions
/// that the contracts of `move_home` and `move_end` use.
pub proof fn lemma_home_end_home(ids: Seq<usize>, y: int)
    requires
        0 <= y < ids.len(),
    ensures
        ({
            let h1 = first_index_of(ids, ids[y]);
            let e = last_index_of(ids, ids[h1]);
            first_index_of(ids, ids[e]) == h1 && 0 <= h1 <= y && 0 <= e
        }),
{
    let h1 = first_index_of(ids, ids[y]);
    lemma_first_index_of(ids, ids[y]);
    assert(h1 < ids.len());
    let e = last_index_of(ids, ids[h1]);
    lemma_last_index_of(ids, ids[h1]);
    assert(ids[h1] == ids[y]);
    assert(e >= 0);
    assert(ids[e] == ids[h1]);
    assert(first_index_of(ids, ids[e]) == h1);
}

/// Word-jump round trip: when a rightward word jump crossed span `t`, the
/// next leftward word jump reuses the cached span and lands on `t`'s start
/// row, at or before `t`'s start column - never past it.
pub proof fn lemma_token_round_trip(c0: CursorPos, c1: CursorPos, c2: CursorPos, t: TokenWithPos)
    requires
        c0.wf(),
        c1.wf(),
        move_token_rel(c0, c1, Direction::Right),
        move_token_rel(c1, c2, Direction::Left),
        ({
            if c0.use_cache_spec(Direction::Right) {
                t == c0.cache()->Some_0
            } else {
                c0.scan_from_cursor(Direction::Right) is Some && t == c0.spans()[c0.scan_from_cursor(
                    Direction::Right,
                )->Some_0]
            }
        }),
    ensures
        c2.y == t.row_start,
        c2.x <= t.col_start,
{
    assert(token_jump_post(c1, t, Direction::Right));
    assert(c1.x as int == t.col_end as int + 1);
    assert(c1.y == t.row_end);
    assert(c1.last_fast_right);
    let ct = c1.last_token->Some_0;
    assert(c1.last_token is Some);
    assert(span_matches(t, ct) || ct == t);
    assert(c1.span_ok(ct));
    assert(in_token_extended(ct, c1.y as int, c1.x as int)) by {
        if ct.row_start == ct.row_end {
            assert(ct.col_start <= ct.col_end);
        }
    }
    assert(c1.use_cache_spec(Direction::Left));
    assert(token_jump_post(c2, ct, Direction::Left));
}

/// The wrap-id table that `wrap_content` produces is consistent with the
/// rows recovered by splitting the wrapped text, so it satisfies what the
/// cursor constructor expects of its wrap-id table.
pub proof fn lemma_wrap_feeds_cursor(content: Seq<char>, width: usize, ids: Seq<usize>)
    requires
        ids.map_values(|u: usize| u as int) == wrap_ids_from(
            split_lines_spec(content),
            effective_width(width),
            0,
        ),
    ensures
        ids_consistent(
            ids,
            split_lines_spec(
                join_rows_spec(wrap_rows_spec(split_lines_spec(content), effective_width(width))),
            ).len() as int,
        ),
{
    let w = effective_width(width);
    let lines = split_lines_spec(content);
    let idsi = wrap_ids_from(lines, w, 0);
    let lines2 = split_lines_spec(join_rows_spec(wrap_rows_spec(lines, w)));
    lemma_wrap_nav_consistent(content, width);
    assert(ids.len() == idsi.len());
    assert(forall|i: int| 0 <= i < ids.len() ==> idsi[i] == #[trigger] ids[i] as int);
    assert forall|i: int|
        #![trigger ids[i]]
        0 <= i && i + 1 < ids.len() && ids[i] == ids[i + 1] implies i + 1 < lines2.len() by {
        assert(idsi[i] == idsi[i + 1]);
    }
    assert forall|i: int, j: int, k: int|
        #![trigger ids[i], ids[j], ids[k]]
        0 <= i <= j <= k < ids.len() && ids[i] == ids[k] implies ids[j] == ids[i] by {
        assert(idsi[i] == idsi[k]);
        assert(idsi[i] <= idsi[j] <= idsi[k]);
    }
}

/// Wraps a document, tokenizes the wrapped text, and builds a cursor at the
/// origin over the result: the whole derivation that a resize or a reload
/// runs.  The wrap and tokenizer contracts discharge everything the cursor
/// constructor expects of its tables.
pub fn build_navigator(content: &Vec<char>, width: usize) -> (r: (WrapResult, CursorPos))
    ensures
        ({
            let w = effective_width(width);
            let lines = split_lines_spec(content@);
            let rows = wrap_rows_spec(lines, w);
            &&& r.0.wrapped_text@ == join_rows_spec(rows)
            &&& r.0.wrap_ids@.len() == rows.len()
            &&& r.0.wrap_ids@.map_values(|u: usize| u as int) == wrap_ids_from(lines, w, 0)
        }),
        r.1.wf(),
        r.1.x == 0 && r.1.y == 0 && r.1.last_x == 0 && r.1.vertical_offset == 0,
        r.1.ids() == r.0.wrap_ids@,
        r.1.num_rows() == split_lines_spec(r.0.wrapped_text@).len(),
        forall|i: int|
            0 <= i < split_lines_spec(r.0.wrapped_text@).len() ==> r.1.row_len(i) == #[trigger] (
            split_lines_spec(r.0.wrapped_text@)[i].len()),
        tokenized_spans_ok(r.0.wrapped_text@, r.0.wrap_ids@, r.1.spans()),
        r.1.cache() is None,
{
    let wrap_result = wrap_content(content, width);
    let spans = tokenize_text(&wrap_result.wrapped_text, &wrap_result.wrap_ids);
    proof {
        lemma_wrap_feeds_cursor(content@, width, wrap_result.wrap_ids@);
    }
    let cursor = CursorPos::new(&wrap_result.wrapped_text, wrap_result.wrap_ids.clone(), spans);
    (wrap_result, cursor)
}

fn opt_eq(a: Option<usize>, b: Option<usize>) -> (r: bool)
    ensures
        r == (a == b),
{
    match (a, b) {
        (Some(u), Some(v)) => u == v,
        (None, None) => true,
        _ => false,
    }
}

fn hit_check(t: &TokenWithPos, py: usize, pc: usize) -> (r: bool)
    ensures
        r == hit(*t, py as int, pc as int),
{
    (t.row_start <= py && py <= t.row_end && t.col_start <= pc && pc <= t.col_end) || (t.row_start
        < py && py < t.row_end) || (t.row_start == py && t.col_start <= pc && py < t.row_end) || (
    t.row_end == py && pc <= t.col_end && t.row_start < py)
}

fn find_hit(spans: &Vec<TokenWithPos>, py: usize, pc: usize) -> (res: Option<usize>)
    ensures
        match res {
            Some(i) => i < spans@.len() && first_hit(spans@, py as int, pc as int) == Some(i as int),
            None => first_hit(spans@, py as int, pc as int) is None,
        },
{
    proof {
        lemma_first_hit(spans@, py as int, pc as int);
    }
    let mut i: usize = 0;
    while i < spans.len()
        invariant
            i <= spans@.len(),
            forall|j: int| 0 <= j < i as int ==> !hit(#[trigger] spans@[j], py as int, pc as int),
        decreases spans@.len() - i,
    {
        if hit_check(&spans[i], py, pc) {
            proof {
                lemma_first_hit(spans@, py as int, pc as int);
            }
            return Some(i);
        }
        i += 1;
    }
    proof {
        lemma_first_hit(spans@, py as int, pc as int);
    }
    None
}

fn copy_span(t: &TokenWithPos) -> (r: TokenWithPos)
    ensures
        span_matches(*t, r),
{
    TokenWithPos {
        token: crate::tokenizer::Token {
            id: t.token.id,
            value: copy_chars(&t.token.value),
            token_type: t.token.token_type,
        },
        col_start: t.col_start,
        col_end: t.col_end,
        row_start: t.row_start,
        row_end: t.row_end,
    }
}

} // verus!
