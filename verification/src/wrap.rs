//! Width-based line wrapping: logical (newline-delimited) lines are chopped
//! greedily into physical rows of at most `width` characters, and every
//! physical row remembers the index of the logical line it came from.

use vstd::prelude::*;

verus! {

/// Views of a sequence of character vectors, as a sequence of sequences.
pub open spec fn views_of(v: Seq<Vec<char>>) -> Seq<Seq<char>> {
    v.map_values(|x: Vec<char>| x@)
}

/// Index of the first newline in `s`, or `s.len()` if there is none.
pub open spec fn first_nl(s: Seq<char>) -> int
    decreases s.len(),
{
    if s.len() == 0 {
        0
    } else if s[0] == '\n' {
        0
    } else {
        1 + first_nl(s.drop_first())
    }
}

/// The logical lines of `s`: the segments between newlines.  A segment after
/// the last newline counts as a line only when it is non-empty, so a trailing
/// newline does not create an extra empty line.
pub open spec fn split_lines_spec(s: Seq<char>) -> Seq<Seq<char>>
    decreases s.len(),
    via split_lines_spec_decreases
{
    if s.len() == 0 {
        Seq::empty()
    } else {
        let i = first_nl(s);
        if i == s.len() {
            seq![s]
        } else {
            seq![s.take(i)] + split_lines_spec(s.skip(i + 1))
        }
    }
}

pub proof fn lemma_first_nl_bounds(s: Seq<char>)
    ensures
        0 <= first_nl(s) <= s.len(),
        first_nl(s) < s.len() ==> s[first_nl(s)] == '\n',
        forall|j: int| 0 <= j < first_nl(s) ==> s[j] != '\n',
    decreases s.len(),
{
    if s.len() > 0 && s[0] != '\n' {
        lemma_first_nl_bounds(s.drop_first());
        assert forall|j: int| 0 <= j < first_nl(s) implies s[j] != '\n' by {
            if j > 0 {
                assert(s.drop_first()[j - 1] != '\n');
            }
        }
    }
}

#[via_fn]
proof fn split_lines_spec_decreases(s: Seq<char>) {
    lemma_first_nl_bounds(s);
}

/// Greedy chunks of at most `w` characters; the empty line has no chunks.
pub open spec fn chunks_spec(line: Seq<char>, w: nat) -> Seq<Seq<char>>
    decreases line.len(),
{
    if w == 0 || line.len() == 0 {
        Seq::empty()
    } else if line.len() <= w {
        seq![line]
    } else {
        seq![line.take(w as int)] + chunks_spec(line.skip(w as int), w)
    }
}

/// Physical rows produced from one logical line: its greedy chunks, except
/// that an empty line still yields exactly one empty row.
pub open spec fn rows_of_line(line: Seq<char>, w: nat) -> Seq<Seq<char>> {
    if line.len() == 0 {
        seq![Seq::<char>::empty()]
    } else {
        chunks_spec(line, w)
    }
}

/// All physical rows of a document, logical line by logical line.
pub open spec fn wrap_rows_spec(lines: Seq<Seq<char>>, w: nat) -> Seq<Seq<char>>
    decreases lines.len(),
{
    if lines.len() == 0 {
        Seq::empty()
    } else {
        rows_of_line(lines[0], w) + wrap_rows_spec(lines.drop_first(), w)
    }
}

/// The wrap id of each physical row, starting the line numbering at `base`:
/// every row of one logical line carries that line's index.
pub open spec fn wrap_ids_from(lines: Seq<Seq<char>>, w: nat, base: int) -> Seq<int>
    decreases lines.len(),
{
    if lines.len() == 0 {
        Seq::empty()
    } else {
        Seq::new(rows_of_line(lines[0], w).len(), |i: int| base) + wrap_ids_from(
            lines.drop_first(),
            w,
            base + 1,
        )
    }
}

/// Rows joined back into one text with a newline between consecutive rows.
pub open spec fn join_rows_spec(rows: Seq<Seq<char>>) -> Seq<char>
    decreases rows.len(),
{
    if rows.len() == 0 {
        Seq::empty()
    } else if rows.len() == 1 {
        rows[0]
    } else {
        rows[0] + seq!['\n'] + join_rows_spec(rows.drop_first())
    }
}

/// The width actually used for chopping: a zero width is treated as one, so
/// that wrapping always makes progress.
pub open spec fn effective_width(width: usize) -> nat {
    if width == 0 {
        1
    } else {
        width as nat
    }
}

proof fn lemma_first_nl_no_nl(s: Seq<char>)
    requires
        forall|j: int| 0 <= j < s.len() ==> s[j] != '\n',
    ensures
        first_nl(s) == s.len(),
    decreases s.len(),
{
    if s.len() > 0 {
        lemma_first_nl_no_nl(s.drop_first());
    }
}

proof fn lemma_first_nl_concat(a: Seq<char>, rest: Seq<char>)
    requires
        forall|j: int| 0 <= j < a.len() ==> a[j] != '\n',
    ensures
        first_nl(a + seq!['\n'] + rest) == a.len(),
    decreases a.len(),
{
    let s = a + seq!['\n'] + rest;
    if a.len() == 0 {
        assert(s[0] == '\n');
    } else {
        assert(s[0] == a[0]);
        lemma_first_nl_concat(a.drop_first(), rest);
        assert(s.drop_first() =~= a.drop_first() + seq!['\n'] + rest);
    }
}

/// Splitting text that starts with a newline-free line `a` followed by a
/// newline yields `a` and then the lines of the remainder.
proof fn lemma_split_head(a: Seq<char>, rest: Seq<char>)
    requires
        forall|j: int| 0 <= j < a.len() ==> a[j] != '\n',
    ensures
        split_lines_spec(a + seq!['\n'] + rest) == seq![a] + split_lines_spec(rest),
{
    let s = a + seq!['\n'] + rest;
    lemma_first_nl_concat(a, rest);
    assert(s.len() == a.len() + 1 + rest.len());
    assert(first_nl(s) == a.len() && first_nl(s) < s.len());
    assert(s.take(a.len() as int) =~= a);
    assert(s.skip(a.len() as int + 1) =~= rest);
}

/// A newline-free text is a single line, or no line at all when empty.
proof fn lemma_split_no_nl(a: Seq<char>)
    requires
        forall|j: int| 0 <= j < a.len() ==> a[j] != '\n',
    ensures
        split_lines_spec(a) == if a.len() == 0 {
            Seq::<Seq<char>>::empty()
        } else {
            seq![a]
        },
{
    lemma_first_nl_no_nl(a);
}

/// Splits a text into its logical lines.
#[verifier::loop_isolation(false)]
pub fn split_lines(content: &Vec<char>) -> (lines: Vec<Vec<char>>)
    ensures
        views_of(lines@) == split_lines_spec(content@),
{
    let mut lines: Vec<Vec<char>> = Vec::new();
    let mut cur: Vec<char> = Vec::new();
    let mut i: usize = 0;
    proof {
        assert(cur@ + content@.skip(0) =~= content@);
        assert(views_of(lines@) =~= Seq::<Seq<char>>::empty());
    }
    while i < content.len()
        invariant
            i <= content@.len(),
            forall|j: int| 0 <= j < cur@.len() ==> cur@[j] != '\n',
            split_lines_spec(content@) == views_of(lines@) + split_lines_spec(
                cur@ + content@.skip(i as int),
            ),
        decreases content@.len() - i,
    {
        let c = content[i];
        if c == '\n' {
            proof {
                assert(cur@ + content@.skip(i as int) =~= cur@ + seq!['\n'] + content@.skip(
                    i + 1,
                ));
                lemma_split_head(cur@, content@.skip(i + 1));
            }
            let ghost old_lines = lines@;
            let ghost old_cur = cur@;
            lines.push(cur);
            cur = Vec::new();
            proof {
                assert(views_of(lines@) =~= views_of(old_lines) + seq![old_cur]);
                assert(cur@ + content@.skip(i + 1) =~= content@.skip(i + 1));
            }
        } else {
            let ghost old_cur = cur@;
            cur.push(c);
            proof {
                assert(cur@ + content@.skip(i + 1) =~= old_cur + content@.skip(i as int));
            }
        }
        i += 1;
    }
    proof {
        assert(cur@ + content@.skip(i as int) =~= cur@);
        lemma_split_no_nl(cur@);
    }
    if cur.len() > 0 {
        let ghost old_lines = lines@;
        let ghost old_cur = cur@;
        lines.push(cur);
        proof {
            assert(views_of(lines@) =~= views_of(old_lines) + seq![old_cur]);
        }
    } else {
        proof {
            assert(views_of(lines@) + split_lines_spec(cur@) =~= views_of(lines@));
        }
    }
    lines
}

/// Chops one logical line into physical rows of at most `width` characters.
#[verifier::loop_isolation(false)]
pub fn wrap_line(line: &Vec<char>, width: usize) -> (rows: Vec<Vec<char>>)
    requires
        width >= 1,
    ensures
        views_of(rows@) == rows_of_line(line@, width as nat),
{
    let mut rows: Vec<Vec<char>> = Vec::new();
    if line.len() == 0 {
        rows.push(Vec::new());
        proof {
            assert(views_of(rows@) =~= rows_of_line(line@, width as nat));
        }
        return rows;
    }
    let mut i: usize = 0;
    proof {
        assert(line@.skip(0) =~= line@);
        assert(views_of(rows@) =~= Seq::<Seq<char>>::empty());
    }
    while i < line.len()
        invariant
            i <= line@.len(),
            chunks_spec(line@, width as nat) == views_of(rows@) + chunks_spec(
                line@.skip(i as int),
                width as nat,
            ),
        decreases line@.len() - i,
    {
        let end: usize = if line.len() - i > width {
            i + width
        } else {
            line.len()
        };
        let mut chunk: Vec<char> = Vec::new();
        let mut j: usize = i;
        proof {
            assert(chunk@ =~= line@.subrange(i as int, j as int));
        }
        while j < end
            invariant
                i <= j <= end <= line@.len(),
                chunk@ == line@.subrange(i as int, j as int),
            decreases end - j,
        {
            chunk.push(line[j]);
            proof {
                assert(chunk@ =~= line@.subrange(i as int, j + 1));
            }
            j += 1;
        }
        let ghost old_rows = rows@;
        let ghost chunk_view = chunk@;
        rows.push(chunk);
        proof {
            let rest = line@.skip(i as int);
            let w = width as nat;
            assert(rest.len() == line@.len() - i > 0);
            assert(views_of(rows@) =~= views_of(old_rows) + seq![chunk_view]);
            if rest.len() <= w {
                assert(chunk_view =~= rest);
                assert(line@.skip(end as int).len() == 0);
                assert(chunks_spec(line@.skip(end as int), w) =~= Seq::<Seq<char>>::empty());
                assert(chunks_spec(rest, w) =~= seq![chunk_view] + chunks_spec(
                    line@.skip(end as int),
                    w,
                ));
            } else {
                assert(chunk_view =~= rest.take(w as int));
                assert(rest.skip(w as int) =~= line@.skip(end as int));
                assert(chunks_spec(rest, w) =~= seq![chunk_view] + chunks_spec(
                    line@.skip(end as int),
                    w,
                ));
            }
            assert(views_of(rows@) + chunks_spec(line@.skip(end as int), w) =~= views_of(old_rows)
                + chunks_spec(rest, w));
        }
        i = end;
    }
    proof {
        assert(chunks_spec(line@.skip(i as int), width as nat) =~= Seq::<Seq<char>>::empty());
        assert(views_of(rows@) + chunks_spec(line@.skip(i as int), width as nat) =~= views_of(
            rows@,
        ));
    }
    rows
}

/// Joining a sequence extended by one row appends a separating newline
/// exactly when the sequence was non-empty.
proof fn lemma_join_push(rows: Seq<Seq<char>>, x: Seq<char>)
    ensures
        join_rows_spec(rows.push(x)) == if rows.len() == 0 {
            x
        } else {
            join_rows_spec(rows) + seq!['\n'] + x
        },
    decreases rows.len(),
{
    let p = rows.push(x);
    if rows.len() == 0 {
        assert(p.len() == 1);
        assert(p[0] == x);
    } else {
        lemma_join_push(rows.drop_first(), x);
        assert(p.drop_first() =~= rows.drop_first().push(x));
        assert(p[0] == rows[0]);
        if rows.len() == 1 {
            assert(rows.drop_first().len() == 0);
            assert(join_rows_spec(p) == p[0] + seq!['\n'] + join_rows_spec(p.drop_first()));
            assert(join_rows_spec(rows) == rows[0]);
        } else {
            assert(join_rows_spec(rows) + seq!['\n'] + x =~= rows[0] + seq!['\n'] + (
            join_rows_spec(rows.drop_first()) + seq!['\n'] + x));
        }
    }
}

/// Joins physical rows into one text with a newline between consecutive rows.
#[verifier::loop_isolation(false)]
pub fn join_rows(rows: &Vec<Vec<char>>) -> (text: Vec<char>)
    ensures
        text@ == join_rows_spec(views_of(rows@)),
{
    let mut text: Vec<char> = Vec::new();
    let mut i: usize = 0;
    proof {
        assert(views_of(rows@).take(0) =~= Seq::<Seq<char>>::empty());
        assert(text@ =~= join_rows_spec(views_of(rows@).take(0)));
    }
    while i < rows.len()
        invariant
            i <= rows@.len(),
            text@ == join_rows_spec(views_of(rows@).take(i as int)),
        decreases rows@.len() - i,
    {
        if i > 0 {
            text.push('\n');
        }
        let row = &rows[i];
        let mut j: usize = 0;
        let ghost base = text@;
        while j < row.len()
            invariant
                j <= row@.len(),
                text@ == base + row@.take(j as int),
            decreases row@.len() - j,
        {
            text.push(row[j]);
            proof {
                assert(text@ =~= base + row@.take(j + 1));
            }
            j += 1;
        }
        proof {
            let rv = views_of(rows@);
            lemma_join_push(rv.take(i as int), rv[i as int]);
            assert(rv.take(i + 1) =~= rv.take(i as int).push(rv[i as int]));
            assert(row@.take(j as int) =~= row@);
            if i == 0 {
                assert(text@ =~= join_rows_spec(rv.take(i + 1)));
            } else {
                assert(text@ =~= join_rows_spec(rv.take(i as int)) + seq!['\n'] + rv[i as int]);
                assert(text@ =~= join_rows_spec(rv.take(i + 1)));
            }
        }
        i += 1;
    }
    proof {
        assert(views_of(rows@).take(rows@.len() as int) =~= views_of(rows@));
    }
    text
}

/// Result of wrapping: the wrapped text, rows separated by newlines, and the
/// logical line index each physical row was produced from.
pub struct WrapResult {
    pub wrapped_text: Vec<char>,
    pub wrap_ids: Vec<usize>,
}

/// Prefix decomposition of the rows of a document.
proof fn lemma_wrap_rows_take(lines: Seq<Seq<char>>, w: nat, k: int)
    requires
        0 <= k < lines.len(),
    ensures
        wrap_rows_spec(lines.take(k + 1), w) == wrap_rows_spec(lines.take(k), w) + rows_of_line(
            lines[k],
            w,
        ),
    decreases k,
{
    if k == 0 {
        assert(lines.take(1).drop_first() =~= Seq::<Seq<char>>::empty());
        assert(lines.take(0) =~= Seq::<Seq<char>>::empty());
        assert(lines.take(1)[0] == lines[0]);
        assert(wrap_rows_spec(lines.take(1), w) == rows_of_line(lines.take(1)[0], w)
            + wrap_rows_spec(lines.take(1).drop_first(), w));
        assert(wrap_rows_spec(lines.take(1), w) =~= rows_of_line(lines[0], w));
        assert(wrap_rows_spec(lines.take(0), w) + rows_of_line(lines[0], w) =~= rows_of_line(
            lines[0],
            w,
        ));
    } else {
        lemma_wrap_rows_take(lines.drop_first(), w, k - 1);
        assert(lines.take(k + 1).drop_first() =~= lines.drop_first().take(k));
        assert(lines.take(k).drop_first() =~= lines.drop_first().take(k - 1));
        assert(lines.take(k + 1)[0] == lines[0]);
        assert(lines.take(k)[0] == lines[0]);
        assert(lines.drop_first()[k - 1] == lines[k]);
        assert(wrap_rows_spec(lines.take(k + 1), w) == rows_of_line(lines[0], w) + wrap_rows_spec(
            lines.drop_first().take(k),
            w,
        ));
        assert(rows_of_line(lines[0], w) + (wrap_rows_spec(lines.drop_first().take(k - 1), w)
            + rows_of_line(lines[k], w)) =~= (rows_of_line(lines[0], w) + wrap_rows_spec(
            lines.drop_first().take(k - 1),
            w,
        )) + rows_of_line(lines[k], w));
    }
}

/// Prefix decomposition of the wrap ids of a document.
proof fn lemma_wrap_ids_take(lines: Seq<Seq<char>>, w: nat, base: int, k: int)
    requires
        0 <= k < lines.len(),
    ensures
        wrap_ids_from(lines.take(k + 1), w, base) == wrap_ids_from(lines.take(k), w, base)
            + Seq::new(rows_of_line(lines[k], w).len(), |i: int| base + k),
    decreases k,
{
    if k == 0 {
        assert(lines.take(1).drop_first() =~= Seq::<Seq<char>>::empty());
        assert(lines.take(0) =~= Seq::<Seq<char>>::empty());
        assert(lines.take(1)[0] == lines[0]);
        assert(wrap_ids_from(lines.take(1), w, base) == Seq::new(
            rows_of_line(lines.take(1)[0], w).len(),
            |i: int| base,
        ) + wrap_ids_from(lines.take(1).drop_first(), w, base + 1));
        assert(wrap_ids_from(lines.take(1), w, base) =~= Seq::new(
            rows_of_line(lines[0], w).len(),
            |i: int| base,
        ));
        assert(wrap_ids_from(lines.take(0), w, base) + Seq::new(
            rows_of_line(lines[0], w).len(),
            |i: int| base,
        ) =~= Seq::new(rows_of_line(lines[0], w).len(), |i: int| base));
    } else {
        lemma_wrap_ids_take(lines.drop_first(), w, base + 1, k - 1);
        assert(lines.take(k + 1).drop_first() =~= lines.drop_first().take(k));
        assert(lines.take(k).drop_first() =~= lines.drop_first().take(k - 1));
        assert(lines.take(k + 1)[0] == lines[0]);
        assert(lines.take(k)[0] == lines[0]);
        assert(lines.drop_first()[k - 1] == lines[k]);
        let head = Seq::new(rows_of_line(lines[0], w).len(), |i: int| base);
        let tail = Seq::new(rows_of_line(lines[k], w).len(), |i: int| base + k);
        assert(head + (wrap_ids_from(lines.drop_first().take(k - 1), w, base + 1) + tail) =~= (head
            + wrap_ids_from(lines.drop_first().take(k - 1), w, base + 1)) + tail);
    }
}

/// Wraps a document to the given width.  Each logical line becomes a run of
/// physical rows of at most `effective_width(width)` characters (an empty
/// line becomes one empty row), and `wrap_ids[i]` names the logical line that
/// produced physical row `i`.  A zero width is treated as width one.
#[verifier::loop_isolation(false)]
pub fn wrap_content(content: &Vec<char>, width: usize) -> (r: WrapResult)
    ensures
        ({
            let w = effective_width(width);
            let lines = split_lines_spec(content@);
            let rows = wrap_rows_spec(lines, w);
            &&& r.wrapped_text@ == join_rows_spec(rows)
            &&& r.wrap_ids@.len() == rows.len()
            &&& r.wrap_ids@.map_values(|u: usize| u as int) == wrap_ids_from(lines, w, 0)
        }),
{
    let w: usize = if width == 0 {
        1
    } else {
        width
    };
    let lines = split_lines(content);
    let ghost linesv = split_lines_spec(content@);
    let mut all_rows: Vec<Vec<char>> = Vec::new();
    let mut wrap_ids: Vec<usize> = Vec::new();
    let mut li: usize = 0;
    proof {
        assert(linesv.take(0) =~= Seq::<Seq<char>>::empty());
        assert(views_of(all_rows@) =~= wrap_rows_spec(linesv.take(0), w as nat));
        assert(wrap_ids@.map_values(|u: usize| u as int) =~= wrap_ids_from(
            linesv.take(0),
            w as nat,
            0,
        ));
    }
    while li < lines.len()
        invariant
            li <= lines@.len(),
            w >= 1,
            w as nat == effective_width(width),
            views_of(lines@) == linesv,
            linesv == split_lines_spec(content@),
            views_of(all_rows@) == wrap_rows_spec(linesv.take(li as int), w as nat),
            wrap_ids@.len() == all_rows@.len(),
            wrap_ids@.map_values(|u: usize| u as int) == wrap_ids_from(
                linesv.take(li as int),
                w as nat,
                0,
            ),
        decreases lines@.len() - li,
    {
        let line_rows = wrap_line(&lines[li], w);
        let mut k: usize = 0;
        let ghost rows_before = all_rows@;
        let ghost ids_before = wrap_ids@;
        while k < line_rows.len()
            invariant
                k <= line_rows@.len(),
                li < lines@.len(),
                views_of(all_rows@) == views_of(rows_before) + views_of(line_rows@).take(k as int),
                wrap_ids@.len() == all_rows@.len(),
                wrap_ids@ == ids_before + Seq::new(k as nat, |i: int| li),
            decreases line_rows@.len() - k,
        {
            let ghost ar = all_rows@;
            let ghost wi = wrap_ids@;
            all_rows.push(line_rows[k].clone());
            wrap_ids.push(li);
            proof {
                assert(views_of(all_rows@) =~= views_of(ar) + seq![views_of(line_rows@)[k as int]]);
                assert(views_of(rows_before) + views_of(line_rows@).take(k + 1) =~= (views_of(
                    rows_before,
                ) + views_of(line_rows@).take(k as int)) + seq![views_of(line_rows@)[k as int]]);
                assert(wrap_ids@ =~= ids_before + Seq::new((k + 1) as nat, |i: int| li));
            }
            k += 1;
        }
        proof {
            lemma_wrap_rows_take(linesv, w as nat, li as int);
            lemma_wrap_ids_take(linesv, w as nat, 0, li as int);
            assert(views_of(line_rows@).take(line_rows@.len() as int) =~= views_of(line_rows@));
            assert(views_of(line_rows@) == rows_of_line(linesv[li as int], w as nat));
            assert(views_of(all_rows@) =~= wrap_rows_spec(linesv.take(li + 1), w as nat));
            let idsl = Seq::new(rows_of_line(linesv[li as int], w as nat).len(), |i: int| li as int);
            assert(wrap_ids@.map_values(|u: usize| u as int) =~= ids_before.map_values(
                |u: usize| u as int,
            ) + idsl);
            assert(wrap_ids@.map_values(|u: usize| u as int) =~= wrap_ids_from(
                linesv.take(li + 1),
                w as nat,
                0,
            ));
        }
        li += 1;
    }
    proof {
        assert(linesv.take(lines@.len() as int) =~= linesv);
    }
    let wrapped_text = join_rows(&all_rows);
    WrapResult { wrapped_text, wrap_ids }
}

/// Every logical line is free of newlines.
pub proof fn lemma_split_lines_no_nl(s: Seq<char>)
    ensures
        forall|li: int, j: int|
            0 <= li < split_lines_spec(s).len() && 0 <= j < split_lines_spec(s)[li].len()
                ==> split_lines_spec(s)[li][j] != '\n',
    decreases s.len(),
{
    if s.len() > 0 {
        lemma_first_nl_bounds(s);
        let i = first_nl(s);
        if i < s.len() {
            lemma_split_lines_no_nl(s.skip(i + 1));
            assert forall|li: int, j: int|
                0 <= li < split_lines_spec(s).len() && 0 <= j < split_lines_spec(s)[li].len()
                implies split_lines_spec(s)[li][j] != '\n' by {
                if li == 0 {
                    assert(split_lines_spec(s)[0] == s.take(i));
                    assert(s.take(i)[j] == s[j]);
                } else {
                    assert(split_lines_spec(s)[li] == split_lines_spec(s.skip(i + 1))[li - 1]);
                }
            }
        }
    }
}

/// Every chunk of a line is non-empty and at most `w` long, and a chunk of a
/// newline-free line carries no newline.
proof fn lemma_chunks_bounds(line: Seq<char>, w: nat)
    requires
        w >= 1,
    ensures
        forall|i: int|
            0 <= i < chunks_spec(line, w).len() ==> 0 < #[trigger] chunks_spec(line, w)[i].len()
                <= w,
        (forall|k: int| 0 <= k < line.len() ==> line[k] != '\n') ==> forall|i: int, j: int|
            0 <= i < chunks_spec(line, w).len() && 0 <= j < chunks_spec(line, w)[i].len()
                ==> #[trigger] chunks_spec(line, w)[i][j] != '\n',
    decreases line.len(),
{
    if line.len() > w {
        lemma_chunks_bounds(line.skip(w as int), w);
        let cs = chunks_spec(line, w);
        assert forall|i: int| 0 <= i < cs.len() implies 0 < #[trigger] cs[i].len() <= w by {
            if i > 0 {
                assert(cs[i] == chunks_spec(line.skip(w as int), w)[i - 1]);
            }
        }
        if forall|k: int| 0 <= k < line.len() ==> line[k] != '\n' {
            assert(forall|k: int|
                0 <= k < line.skip(w as int).len() ==> line.skip(w as int)[k] != '\n');
            assert forall|i: int, j: int|
                0 <= i < cs.len() && 0 <= j < cs[i].len() implies #[trigger] cs[i][j] != '\n' by {
                if i == 0 {
                    assert(cs[0] == line.take(w as int));
                    assert(cs[0][j] == line[j]);
                } else {
                    assert(cs[i] == chunks_spec(line.skip(w as int), w)[i - 1]);
                }
            }
        }
    }
}

/// Concatenating the chunks of a line reproduces the line.
proof fn lemma_chunks_flatten(line: Seq<char>, w: nat)
    requires
        w >= 1,
    ensures
        chunks_spec(line, w).flatten() == line,
    decreases line.len(),
{
    if line.len() == 0 {
        assert(chunks_spec(line, w).flatten() =~= line);
    } else if line.len() <= w {
        let cs = chunks_spec(line, w);
        cs.lemma_flatten_one_element();
    } else {
        lemma_chunks_flatten(line.skip(w as int), w);
        let cs = chunks_spec(line, w);
        assert(cs.drop_first() =~= chunks_spec(line.skip(w as int), w));
        assert(cs.first() == line.take(w as int));
        assert(cs.flatten() == line.take(w as int) + cs.drop_first().flatten());
        assert(line.take(w as int) + line.skip(w as int) =~= line);
    }
}

/// Concatenating the physical rows of one logical line reproduces the line.
proof fn lemma_rows_of_line_flatten(line: Seq<char>, w: nat)
    requires
        w >= 1,
    ensures
        rows_of_line(line, w).flatten() == line,
{
    if line.len() == 0 {
        rows_of_line(line, w).lemma_flatten_one_element();
        assert(rows_of_line(line, w).flatten() =~= line);
    } else {
        lemma_chunks_flatten(line, w);
    }
}

/// Rows and wrap ids have the same length.
proof fn lemma_wrap_len(lines: Seq<Seq<char>>, w: nat, base: int)
    ensures
        wrap_ids_from(lines, w, base).len() == wrap_rows_spec(lines, w).len(),
    decreases lines.len(),
{
    if lines.len() > 0 {
        lemma_wrap_len(lines.drop_first(), w, base + 1);
    }
}

/// Every wrap id lies between `base` and `base` plus the number of lines.
proof fn lemma_ids_range(lines: Seq<Seq<char>>, w: nat, base: int)
    ensures
        forall|i: int|
            0 <= i < wrap_ids_from(lines, w, base).len() ==> base <= #[trigger] wrap_ids_from(
                lines,
                w,
                base,
            )[i] < base + lines.len(),
    decreases lines.len(),
{
    if lines.len() > 0 {
        lemma_ids_range(lines.drop_first(), w, base + 1);
        let ids = wrap_ids_from(lines, w, base);
        let head_len = rows_of_line(lines[0], w).len();
        assert forall|i: int| 0 <= i < ids.len() implies base <= #[trigger] ids[i] < base
            + lines.len() by {
            if i >= head_len {
                assert(ids[i] == wrap_ids_from(lines.drop_first(), w, base + 1)[i - head_len]);
            }
        }
    }
}

/// Decomposing the rows of a document at a line boundary.
proof fn lemma_wrap_rows_split(lines: Seq<Seq<char>>, w: nat, k: int)
    requires
        0 <= k <= lines.len(),
    ensures
        wrap_rows_spec(lines, w) == wrap_rows_spec(lines.take(k), w) + wrap_rows_spec(
            lines.skip(k),
            w,
        ),
    decreases k,
{
    if k == 0 {
        assert(lines.take(0) =~= Seq::<Seq<char>>::empty());
        assert(lines.skip(0) =~= lines);
        assert(wrap_rows_spec(lines.take(0), w) + wrap_rows_spec(lines, w) =~= wrap_rows_spec(
            lines,
            w,
        ));
    } else {
        lemma_wrap_rows_split(lines.drop_first(), w, k - 1);
        assert(lines.take(k).drop_first() =~= lines.drop_first().take(k - 1));
        assert(lines.take(k)[0] == lines[0]);
        assert(lines.drop_first().skip(k - 1) =~= lines.skip(k));
        assert(rows_of_line(lines[0], w) + (wrap_rows_spec(lines.drop_first().take(k - 1), w)
            + wrap_rows_spec(lines.skip(k), w)) =~= (rows_of_line(lines[0], w) + wrap_rows_spec(
            lines.drop_first().take(k - 1),
            w,
        )) + wrap_rows_spec(lines.skip(k), w));
    }
}

/// Decomposing the wrap ids of a document at a line boundary.
proof fn lemma_wrap_ids_split(lines: Seq<Seq<char>>, w: nat, base: int, k: int)
    requires
        0 <= k <= lines.len(),
    ensures
        wrap_ids_from(lines, w, base) == wrap_ids_from(lines.take(k), w, base) + wrap_ids_from(
            lines.skip(k),
            w,
            base + k,
        ),
    decreases k,
{
    if k == 0 {
        assert(lines.take(0) =~= Seq::<Seq<char>>::empty());
        assert(lines.skip(0) =~= lines);
        assert(wrap_ids_from(lines.take(0), w, base) + wrap_ids_from(lines, w, base)
            =~= wrap_ids_from(lines, w, base));
    } else {
        lemma_wrap_ids_split(lines.drop_first(), w, base + 1, k - 1);
        assert(lines.take(k).drop_first() =~= lines.drop_first().take(k - 1));
        assert(lines.take(k)[0] == lines[0]);
        assert(lines.drop_first().skip(k - 1) =~= lines.skip(k));
        let head = Seq::new(rows_of_line(lines[0], w).len(), |i: int| base);
        assert(head + (wrap_ids_from(lines.drop_first().take(k - 1), w, base + 1) + wrap_ids_from(
            lines.skip(k),
            w,
            base + k,
        )) =~= (head + wrap_ids_from(lines.drop_first().take(k - 1), w, base + 1)) + wrap_ids_from(
            lines.skip(k),
            w,
            base + k,
        ));
    }
}

/// Wrap coverage: the physical rows whose wrap id equals `li` are exactly one
/// contiguous block, and concatenating them, in order and with no separators,
/// reproduces logical line `li` exactly.
pub proof fn lemma_wrap_coverage(lines: Seq<Seq<char>>, w: nat, li: int)
    requires
        w >= 1,
        0 <= li < lines.len(),
    ensures
        ({
            let rows = wrap_rows_spec(lines, w);
            let ids = wrap_ids_from(lines, w, 0);
            let a = wrap_rows_spec(lines.take(li), w).len() as int;
            let b = a + rows_of_line(lines[li], w).len() as int;
            &&& ids.len() == rows.len()
            &&& 0 <= a <= b <= rows.len()
            &&& (forall|i: int| 0 <= i < rows.len() ==> ((ids[i] == li) <==> (a <= i < b)))
            &&& rows.subrange(a, b).flatten() == lines[li]
        }),
{
    let rows = wrap_rows_spec(lines, w);
    let ids = wrap_ids_from(lines, w, 0);
    let a = wrap_rows_spec(lines.take(li), w).len() as int;
    let b = a + rows_of_line(lines[li], w).len() as int;
    lemma_wrap_len(lines, w, 0);
    lemma_wrap_rows_split(lines, w, li);
    lemma_wrap_ids_split(lines, w, 0, li);
    lemma_wrap_len(lines.take(li), w, 0);
    let tail_lines = lines.skip(li);
    assert(tail_lines[0] == lines[li]);
    assert(tail_lines.drop_first() =~= lines.skip(li + 1));
    assert(wrap_rows_spec(tail_lines, w) == rows_of_line(lines[li], w) + wrap_rows_spec(
        lines.skip(li + 1),
        w,
    ));
    assert(wrap_ids_from(tail_lines, w, li) == Seq::new(
        rows_of_line(lines[li], w).len(),
        |i: int| li,
    ) + wrap_ids_from(lines.skip(li + 1), w, li + 1));
    lemma_ids_range(lines.take(li), w, 0);
    lemma_ids_range(lines.skip(li + 1), w, li + 1);
    assert(lines.take(li).len() == li);
    assert forall|i: int| 0 <= i < rows.len() implies ((ids[i] == li) <==> (a <= i < b)) by {
        if i < a {
            assert(ids[i] == wrap_ids_from(lines.take(li), w, 0)[i]);
            assert(ids[i] < li);
        } else if i < b {
            assert(ids[i] == li);
        } else {
            assert(ids[i] == wrap_ids_from(lines.skip(li + 1), w, li + 1)[i - b]);
            assert(ids[i] > li);
        }
    }
    assert(rows.subrange(a, b) =~= rows_of_line(lines[li], w));
    lemma_rows_of_line_flatten(lines[li], w);
}

/// Splitting a joined row list recovers the rows, except that an empty last
/// row is not recoverable from the newline-joined text.
proof fn lemma_split_join(rows: Seq<Seq<char>>)
    requires
        forall|i: int, j: int| 0 <= i < rows.len() && 0 <= j < rows[i].len() ==> rows[i][j] != '\n',
    ensures
        split_lines_spec(join_rows_spec(rows)) == if rows.len() > 0 && rows.last().len() == 0 {
            rows.drop_last()
        } else {
            rows
        },
    decreases rows.len(),
{
    if rows.len() == 0 {
    } else if rows.len() == 1 {
        assert(join_rows_spec(rows) == rows[0]);
        assert(forall|j: int| 0 <= j < rows[0].len() ==> rows[0][j] != '\n');
        lemma_split_no_nl(rows[0]);
        if rows[0].len() == 0 {
            assert(rows.drop_last() =~= Seq::<Seq<char>>::empty());
        } else {
            assert(seq![rows[0]] =~= rows);
        }
    } else {
        let tail = rows.drop_first();
        assert(forall|i: int, j: int|
            0 <= i < tail.len() && 0 <= j < tail[i].len() ==> tail[i][j] != '\n');
        lemma_split_join(tail);
        assert(join_rows_spec(rows) == rows[0] + seq!['\n'] + join_rows_spec(tail));
        assert(forall|j: int| 0 <= j < rows[0].len() ==> rows[0][j] != '\n');
        lemma_split_head(rows[0], join_rows_spec(tail));
        assert(tail.last() == rows.last());
        if rows.last().len() == 0 {
            assert(seq![rows[0]] + tail.drop_last() =~= rows.drop_last());
        } else {
            assert(seq![rows[0]] + tail =~= rows);
        }
    }
}

/// Re-wrapping rows that already fit in the width changes nothing.
proof fn lemma_rewrap(rows: Seq<Seq<char>>, w: nat)
    requires
        w >= 1,
        forall|i: int| 0 <= i < rows.len() ==> rows[i].len() <= w,
    ensures
        wrap_rows_spec(rows, w) == rows,
    decreases rows.len(),
{
    if rows.len() > 0 {
        lemma_rewrap(rows.drop_first(), w);
        if rows[0].len() == 0 {
            assert(rows[0] =~= Seq::<char>::empty());
            assert(rows_of_line(rows[0], w) == seq![rows[0]]);
        } else {
            assert(rows_of_line(rows[0], w) == seq![rows[0]]);
        }
        assert(seq![rows[0]] + rows.drop_first() =~= rows);
    }
}

/// Every physical row fits in the width and carries no newline.
proof fn lemma_wrap_rows_shape(lines: Seq<Seq<char>>, w: nat)
    requires
        w >= 1,
        forall|li: int, j: int|
            0 <= li < lines.len() && 0 <= j < lines[li].len() ==> lines[li][j] != '\n',
    ensures
        forall|i: int|
            0 <= i < wrap_rows_spec(lines, w).len() ==> wrap_rows_spec(lines, w)[i].len() <= w,
        forall|i: int, j: int|
            0 <= i < wrap_rows_spec(lines, w).len() && 0 <= j < wrap_rows_spec(lines, w)[i].len()
                ==> wrap_rows_spec(lines, w)[i][j] != '\n',
    decreases lines.len(),
{
    if lines.len() > 0 {
        let tail = lines.drop_first();
        assert(forall|li: int, j: int|
            0 <= li < tail.len() && 0 <= j < tail[li].len() ==> tail[li][j] != '\n');
        lemma_wrap_rows_shape(tail, w);
        lemma_chunks_bounds(lines[0], w);
        let head = rows_of_line(lines[0], w);
        let rows = wrap_rows_spec(lines, w);
        assert forall|i: int| 0 <= i < rows.len() implies rows[i].len() <= w by {
            if i < head.len() {
                assert(rows[i] == head[i]);
            } else {
                assert(rows[i] == wrap_rows_spec(tail, w)[i - head.len()]);
            }
        }
        assert(forall|k: int| 0 <= k < lines[0].len() ==> lines[0][k] != '\n');
        assert forall|i: int, j: int|
            0 <= i < rows.len() && 0 <= j < rows[i].len() implies rows[i][j] != '\n' by {
            if i < head.len() {
                assert(rows[i] == head[i]);
                if lines[0].len() > 0 {
                    assert(head[i] == chunks_spec(lines[0], w)[i]);
                }
            } else {
                assert(rows[i] == wrap_rows_spec(tail, w)[i - head.len()]);
            }
        }
    }
}

/// Wrap idempotence: wrapping the wrapped text again at the same width
/// reproduces the same physical rows.  The one excluded input shape is a
/// document whose last physical row is empty, because the newline-joined
/// text cannot represent a trailing empty row.
pub proof fn lemma_wrap_idempotent(content: Seq<char>, width: usize)
    requires
        ({
            let rows = wrap_rows_spec(split_lines_spec(content), effective_width(width));
            rows.len() > 0 ==> rows.last().len() > 0
        }),
    ensures
        ({
            let w = effective_width(width);
            let rows = wrap_rows_spec(split_lines_spec(content), w);
            wrap_rows_spec(split_lines_spec(join_rows_spec(rows)), w) == rows
        }),
{
    let w = effective_width(width);
    let lines = split_lines_spec(content);
    let rows = wrap_rows_spec(lines, w);
    lemma_split_lines_no_nl(content);
    lemma_wrap_rows_shape(lines, w);
    lemma_split_join(rows);
    lemma_rewrap(rows, w);
}

/// Wrap ids never decrease from one physical row to the next.
proof fn lemma_ids_monotone(lines: Seq<Seq<char>>, w: nat, base: int)
    ensures
        forall|i: int, j: int|
            0 <= i <= j < wrap_ids_from(lines, w, base).len() ==> #[trigger] wrap_ids_from(
                lines,
                w,
                base,
            )[i] <= #[trigger] wrap_ids_from(lines, w, base)[j],
    decreases lines.len(),
{
    if lines.len() > 0 {
        lemma_ids_monotone(lines.drop_first(), w, base + 1);
        lemma_ids_range(lines.drop_first(), w, base + 1);
        let ids = wrap_ids_from(lines, w, base);
        let tail = wrap_ids_from(lines.drop_first(), w, base + 1);
        let k = rows_of_line(lines[0], w).len();
        assert forall|i: int, j: int| 0 <= i <= j < ids.len() implies #[trigger] ids[i]
            <= #[trigger] ids[j] by {
            if i >= k {
                assert(ids[i] == tail[i - k] && ids[j] == tail[j - k]);
            } else if j >= k {
                assert(ids[i] == base && ids[j] == tail[j - k]);
            }
        }
    }
}

/// A row that shares its wrap id with its predecessor is never empty: only
/// an empty logical line yields an empty row, and that line yields one row.
proof fn lemma_empty_row_isolated(lines: Seq<Seq<char>>, w: nat, base: int)
    requires
        w >= 1,
    ensures
        forall|i: int|
            0 <= i && i + 1 < wrap_rows_spec(lines, w).len() && wrap_ids_from(lines, w, base)[i]
                == wrap_ids_from(lines, w, base)[i + 1] ==> #[trigger] wrap_rows_spec(lines, w)[i
                + 1].len() > 0,
    decreases lines.len(),
{
    if lines.len() > 0 {
        lemma_empty_row_isolated(lines.drop_first(), w, base + 1);
        lemma_ids_range(lines.drop_first(), w, base + 1);
        lemma_wrap_len(lines, w, base);
        lemma_wrap_len(lines.drop_first(), w, base + 1);
        lemma_chunks_bounds(lines[0], w);
        let rows = wrap_rows_spec(lines, w);
        let ids = wrap_ids_from(lines, w, base);
        let head = rows_of_line(lines[0], w);
        let k = head.len() as int;
        let tail_rows = wrap_rows_spec(lines.drop_first(), w);
        let tail_ids = wrap_ids_from(lines.drop_first(), w, base + 1);
        assert(rows == head + tail_rows);
        assert(ids == Seq::new(head.len(), |x: int| base) + tail_ids);
        assert forall|i: int|
            0 <= i && i + 1 < rows.len() && ids[i] == ids[i + 1] implies #[trigger] rows[i
            + 1].len() > 0 by {
            assert(ids[i] == if i < k { base } else { tail_ids[i - k] });
            assert(ids[i + 1] == if i + 1 < k { base } else { tail_ids[i + 1 - k] });
            if i + 1 < k {
                assert(lines[0].len() > 0) by {
                    if lines[0].len() == 0 {
                        assert(k == 1);
                    }
                }
                assert(rows[i + 1] == head[i + 1]);
                assert(head[i + 1] == chunks_spec(lines[0], w)[i + 1]);
                assert(0 < chunks_spec(lines[0], w)[i + 1].len());
            } else if i + 1 == k {
                assert(0 < tail_ids.len());
                assert(ids[i] == base);
                assert(ids[i + 1] == tail_ids[0]);
                assert(base + 1 <= tail_ids[0]);
            } else {
                let i2 = i - k;
                assert(ids[i] == tail_ids[i2] && ids[i + 1] == tail_ids[i2 + 1]);
                assert(tail_ids[i2] == tail_ids[i2 + 1]);
                assert(i2 + 1 < tail_rows.len());
                assert(tail_rows[i2 + 1].len() > 0);
                assert(rows[i + 1] == tail_rows[i2 + 1]);
            }
        }
    }
}

/// The navigation tables derived from a wrapped document are consistent:
/// splitting the wrapped text again yields exactly the leading rows (all of
/// them unless the last row is empty), ids never decrease, and a row that
/// continues its predecessor\'s logical line lies inside the recovered rows.
pub proof fn lemma_wrap_nav_consistent(content: Seq<char>, width: usize)
    ensures
        ({
            let w = effective_width(width);
            let lines = split_lines_spec(content);
            let rows = wrap_rows_spec(lines, w);
            let ids = wrap_ids_from(lines, w, 0);
            let lines2 = split_lines_spec(join_rows_spec(rows));
            &&& ids.len() == rows.len()
            &&& lines2.len() <= rows.len()
            &&& lines2 == rows.take(lines2.len() as int)
            &&& (forall|i: int, j: int|
                0 <= i <= j < ids.len() ==> #[trigger] ids[i] <= #[trigger] ids[j])
            &&& (forall|i: int|
                #![trigger ids[i]]
                0 <= i && i + 1 < ids.len() && ids[i] == ids[i + 1] ==> i + 1 < lines2.len())
        }),
{
    let w = effective_width(width);
    let lines = split_lines_spec(content);
    let rows = wrap_rows_spec(lines, w);
    let ids = wrap_ids_from(lines, w, 0);
    let lines2 = split_lines_spec(join_rows_spec(rows));
    lemma_wrap_len(lines, w, 0);
    lemma_split_lines_no_nl(content);
    lemma_wrap_rows_shape(lines, w);
    lemma_split_join(rows);
    lemma_ids_monotone(lines, w, 0);
    lemma_empty_row_isolated(lines, w, 0);
    if rows.len() > 0 && rows.last().len() == 0 {
        assert(lines2 =~= rows.take(lines2.len() as int));
    } else {
        assert(lines2 =~= rows.take(lines2.len() as int));
    }
    assert forall|i: int|
        #![trigger ids[i]]
        0 <= i && i + 1 < ids.len() && ids[i] == ids[i + 1] implies i + 1 < lines2.len() by {
        assert(rows[i + 1].len() > 0);
        if rows.len() > 0 && rows.last().len() == 0 {
            assert(i + 1 != rows.len() - 1);
        }
    }
}

} // verus!
