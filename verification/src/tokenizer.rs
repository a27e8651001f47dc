//! Tokenization of wrapped text: the text is partitioned into Word and
//! Symbol tokens, and each token is then mapped to the physical-row/column
//! span its characters occupy, including spans that cross a wrap boundary.

use vstd::prelude::*;
use crate::wrap::split_lines;
use crate::wrap::split_lines_spec;
use crate::wrap::views_of;

verus! {

/// Whether a character is alphanumeric, by the same classification that
/// `char::is_alphanumeric` uses.
pub uninterp spec fn is_alnum(c: char) -> bool;

/// Whether a character is whitespace, by the same classification that
/// `char::is_whitespace` uses.
pub uninterp spec fn is_space(c: char) -> bool;

/// Relies on char::is_alphanumeric: the result depends on the character
/// alone, and is named by `is_alnum`.
#[verifier::external_body]
fn char_is_alphanumeric(c: char) -> (r: bool)
    ensures
        r == is_alnum(c),
{
    c.is_alphanumeric()
}

/// Relies on char::is_whitespace: the result depends on the character alone,
/// and is named by `is_space`.
#[verifier::external_body]
fn char_is_whitespace(c: char) -> (r: bool)
    ensures
        r == is_space(c),
{
    c.is_whitespace()
}

/// A character that belongs to a Word token: alphanumeric or underscore.
pub open spec fn is_word_char(c: char) -> bool {
    is_alnum(c) || c == '_'
}

fn word_char(c: char) -> (r: bool)
    ensures
        r == is_word_char(c),
{
    char_is_alphanumeric(c) || c == '_'
}

/// The kind of a token: a run of word characters, or a single other
/// non-whitespace character.
#[derive(Clone, Copy, PartialEq, Eq, Structural, Debug)]
pub enum TokenType {
    Word,
    Symbol,
}

impl TokenType {
    /// The display name of the kind.
    pub fn label(&self) -> (r: String)
        ensures
            r@ == match *self {
                TokenType::Word => "word"@,
                TokenType::Symbol => "symbol"@,
            },
    {
        match self {
            TokenType::Word => "word".to_owned(),
            TokenType::Symbol => "symbol".to_owned(),
        }
    }
}

/// A token of the wrapped text, with a stable ordinal id.
#[derive(Clone, Debug)]
pub struct Token {
    pub id: usize,
    pub value: Vec<char>,
    pub token_type: TokenType,
}

/// A token together with the physical-row/column span of its characters.
/// `row_start == row_end` unless wrapping split the token across rows.
#[derive(Clone, Debug)]
pub struct TokenWithPos {
    pub token: Token,
    pub col_start: usize,
    pub col_end: usize,
    pub row_start: usize,
    pub row_end: usize,
}

/// The word token pending in `buf`, if any.
pub open spec fn flush(buf: Seq<char>) -> Seq<(Seq<char>, TokenType)> {
    if buf.len() > 0 {
        seq![(buf, TokenType::Word)]
    } else {
        Seq::empty()
    }
}

/// Tokens emitted while scanning `row` with word buffer `buf`: whitespace
/// flushes the buffer, a word character extends it, and any other character
/// flushes the buffer and is emitted as a one-character Symbol.
pub open spec fn tokenize_row_items(row: Seq<char>, buf: Seq<char>) -> Seq<(Seq<char>, TokenType)>
    decreases row.len(),
{
    if row.len() == 0 {
        Seq::empty()
    } else {
        let c = row[0];
        if is_space(c) {
            flush(buf) + tokenize_row_items(row.drop_first(), Seq::empty())
        } else if is_word_char(c) {
            tokenize_row_items(row.drop_first(), buf.push(c))
        } else {
            flush(buf) + seq![(seq![c], TokenType::Symbol)] + tokenize_row_items(
                row.drop_first(),
                Seq::empty(),
            )
        }
    }
}

/// The word buffer left over after scanning `row` with initial buffer `buf`.
pub open spec fn tokenize_row_buf(row: Seq<char>, buf: Seq<char>) -> Seq<char>
    decreases row.len(),
{
    if row.len() == 0 {
        buf
    } else {
        let c = row[0];
        if is_space(c) {
            tokenize_row_buf(row.drop_first(), Seq::empty())
        } else if is_word_char(c) {
            tokenize_row_buf(row.drop_first(), buf.push(c))
        } else {
            tokenize_row_buf(row.drop_first(), Seq::empty())
        }
    }
}

/// Tokens of the rows from `r` on.  A word buffer still open at a hard line
/// boundary (the wrap id changes) is flushed before the next row is scanned,
/// so a word never spans two different logical lines; a buffer still open at
/// the end of the document is flushed last.
pub open spec fn tokenize_rows_items(
    rows: Seq<Seq<char>>,
    ids: Seq<usize>,
    r: int,
    buf: Seq<char>,
) -> Seq<(Seq<char>, TokenType)>
    decreases rows.len() - r,
{
    if r < 0 || r >= rows.len() {
        flush(buf)
    } else {
        let hard = r > 0 && r < ids.len() && ids[r] != ids[r - 1];
        let pre = if hard {
            flush(buf)
        } else {
            Seq::empty()
        };
        let buf0 = if hard {
            Seq::<char>::empty()
        } else {
            buf
        };
        pre + tokenize_row_items(rows[r], buf0) + tokenize_rows_items(
            rows,
            ids,
            r + 1,
            tokenize_row_buf(rows[r], buf0),
        )
    }
}

/// The tokens of a wrapped document: value and kind of each, in order.
pub open spec fn tokens_spec(content: Seq<char>, ids: Seq<usize>) -> Seq<(Seq<char>, TokenType)> {
    tokenize_rows_items(split_lines_spec(content), ids, 0, Seq::empty())
}

/// The token list matches the item list: ids are ordinal, values and kinds
/// agree.
pub open spec fn tokens_match(toks: Seq<Token>, items: Seq<(Seq<char>, TokenType)>) -> bool {
    &&& toks.len() == items.len()
    &&& forall|i: int|
        0 <= i < toks.len() ==> (#[trigger] toks[i]).id == i && toks[i].value@ == items[i].0
            && toks[i].token_type == items[i].1
}

pub(crate) fn copy_chars(v: &Vec<char>) -> (r: Vec<char>)
    ensures
        r@ == v@,
{
    let mut r: Vec<char> = Vec::new();
    let mut i: usize = 0;
    while i < v.len()
        invariant
            i <= v@.len(),
            r@ == v@.take(i as int),
        decreases v@.len() - i,
    {
        r.push(v[i]);
        proof {
            assert(r@ =~= v@.take(i + 1));
        }
        i += 1;
    }
    proof {
        assert(v@.take(v@.len() as int) =~= v@);
    }
    r
}

fn generate_token(value: &Vec<char>, id: usize, token_type: TokenType) -> (t: Token)
    ensures
        t.id == id,
        t.value@ == value@,
        t.token_type == token_type,
{
    Token { id, value: copy_chars(value), token_type }
}

/// Scans the rows and produces the token list, ids in document order.
#[verifier::loop_isolation(false)]
fn build_tokens(rows: &Vec<Vec<char>>, wrap_ids: &Vec<usize>) -> (toks: Vec<Token>)
    ensures
        tokens_match(toks@, tokenize_rows_items(views_of(rows@), wrap_ids@, 0, Seq::empty())),
{
    let ghost rowsv = views_of(rows@);
    let ghost idsv = wrap_ids@;
    let ghost total = tokenize_rows_items(rowsv, idsv, 0, Seq::empty());
    let mut toks: Vec<Token> = Vec::new();
    let mut buf: Vec<char> = Vec::new();
    let ghost mut done: Seq<(Seq<char>, TokenType)> = Seq::empty();
    let mut r: usize = 0;
    proof {
        assert(done + tokenize_rows_items(rowsv, idsv, 0, buf@) =~= total);
    }
    while r < rows.len()
        invariant
            r <= rows@.len(),
            total == done + tokenize_rows_items(rowsv, idsv, r as int, buf@),
            tokens_match(toks@, done),
        decreases rows@.len() - r,
    {
        let ghost done0 = done;
        let ghost buf0 = buf@;
        let hard = r > 0 && r < wrap_ids.len() && wrap_ids[r] != wrap_ids[r - 1];
        if hard && buf.len() > 0 {
            let t = generate_token(&buf, toks.len(), TokenType::Word);
            proof {
                done = done + flush(buf@);
            }
            toks.push(t);
            buf = Vec::new();
        }
        let row = &rows[r];
        let ghost rowv = rowsv[r as int];
        proof {
            assert(rowv == row@);
            assert(rowv.skip(0) =~= rowv);
            let pre = if hard {
                flush(buf0)
            } else {
                Seq::<(Seq<char>, TokenType)>::empty()
            };
            assert(tokenize_rows_items(rowsv, idsv, r as int, buf0) == pre + tokenize_row_items(
                rowv,
                buf@,
            ) + tokenize_rows_items(rowsv, idsv, r + 1, tokenize_row_buf(rowv, buf@))) by {
                if hard {
                    assert(buf@ =~= Seq::<char>::empty());
                    if buf0.len() == 0 {
                        assert(buf0 =~= Seq::<char>::empty());
                    }
                }
            }
            assert(done == done0 + pre) by {
                if !(hard && buf0.len() > 0) {
                    assert(pre =~= Seq::<(Seq<char>, TokenType)>::empty());
                    assert(done0 + pre =~= done0);
                }
            }
            assert(total == done + (tokenize_row_items(rowv.skip(0), buf@) + tokenize_rows_items(
                rowsv,
                idsv,
                r + 1,
                tokenize_row_buf(rowv.skip(0), buf@),
            ))) by {
                assert(done0 + (pre + tokenize_row_items(rowv, buf@) + tokenize_rows_items(
                    rowsv,
                    idsv,
                    r + 1,
                    tokenize_row_buf(rowv, buf@),
                )) =~= (done0 + pre) + (tokenize_row_items(rowv, buf@) + tokenize_rows_items(
                    rowsv,
                    idsv,
                    r + 1,
                    tokenize_row_buf(rowv, buf@),
                )));
            }
        }
        let mut j: usize = 0;
        while j < row.len()
            invariant
                j <= rowv.len(),
                r < rows@.len(),
                rowv == rowsv[r as int],
                total == done + (tokenize_row_items(rowv.skip(j as int), buf@)
                    + tokenize_rows_items(
                    rowsv,
                    idsv,
                    r + 1,
                    tokenize_row_buf(rowv.skip(j as int), buf@),
                )),
                tokens_match(toks@, done),
            decreases rowv.len() - j,
        {
            let c = row[j];
            let ghost done1 = done;
            let ghost buf1 = buf@;
            let ghost rest = rowv.skip(j as int);
            proof {
                assert(rest[0] == rowv[j as int]);
                assert(rest.drop_first() =~= rowv.skip(j + 1));
            }
            if char_is_whitespace(c) {
                if buf.len() > 0 {
                    let t = generate_token(&buf, toks.len(), TokenType::Word);
                    proof {
                        done = done + flush(buf@);
                    }
                    toks.push(t);
                    buf = Vec::new();
                }
                proof {
                    assert(tokenize_row_items(rest, buf1) == flush(buf1) + tokenize_row_items(
                        rowv.skip(j + 1),
                        Seq::empty(),
                    ));
                    assert(tokenize_row_buf(rest, buf1) == tokenize_row_buf(
                        rowv.skip(j + 1),
                        Seq::empty(),
                    ));
                    assert(buf@ =~= Seq::<char>::empty());
                    assert(done == done1 + flush(buf1)) by {
                        if buf1.len() == 0 {
                            assert(done1 + flush(buf1) =~= done1);
                        }
                    }
                    assert(done1 + ((flush(buf1) + tokenize_row_items(
                        rowv.skip(j + 1),
                        Seq::empty(),
                    )) + tokenize_rows_items(
                        rowsv,
                        idsv,
                        r + 1,
                        tokenize_row_buf(rowv.skip(j + 1), Seq::empty()),
                    )) =~= (done1 + flush(buf1)) + (tokenize_row_items(
                        rowv.skip(j + 1),
                        Seq::empty(),
                    ) + tokenize_rows_items(
                        rowsv,
                        idsv,
                        r + 1,
                        tokenize_row_buf(rowv.skip(j + 1), Seq::empty()),
                    )));
                }
            } else if word_char(c) {
                buf.push(c);
                proof {
                    assert(buf@ == buf1.push(c));
                    assert(tokenize_row_items(rest, buf1) == tokenize_row_items(
                        rowv.skip(j + 1),
                        buf1.push(c),
                    ));
                    assert(tokenize_row_buf(rest, buf1) == tokenize_row_buf(
                        rowv.skip(j + 1),
                        buf1.push(c),
                    ));
                }
            } else {
                if buf.len() > 0 {
                    let t = generate_token(&buf, toks.len(), TokenType::Word);
                    proof {
                        done = done + flush(buf@);
                    }
                    toks.push(t);
                    buf = Vec::new();
                }
                let mut sym: Vec<char> = Vec::new();
                sym.push(c);
                let t = generate_token(&sym, toks.len(), TokenType::Symbol);
                proof {
                    assert(sym@ =~= seq![c]);
                    done = done + seq![(seq![c], TokenType::Symbol)];
                }
                toks.push(t);
                proof {
                    assert(tokenize_row_items(rest, buf1) == flush(buf1) + seq![
                        (seq![c], TokenType::Symbol),
                    ] + tokenize_row_items(rowv.skip(j + 1), Seq::empty()));
                    assert(tokenize_row_buf(rest, buf1) == tokenize_row_buf(
                        rowv.skip(j + 1),
                        Seq::empty(),
                    ));
                    assert(buf@ =~= Seq::<char>::empty());
                    assert(done == (done1 + flush(buf1)) + seq![(seq![c], TokenType::Symbol)]) by {
                        if buf1.len() == 0 {
                            assert(done1 + flush(buf1) =~= done1);
                        }
                    }
                    assert(done1 + ((flush(buf1) + seq![(seq![c], TokenType::Symbol)]
                        + tokenize_row_items(rowv.skip(j + 1), Seq::empty()))
                        + tokenize_rows_items(
                        rowsv,
                        idsv,
                        r + 1,
                        tokenize_row_buf(rowv.skip(j + 1), Seq::empty()),
                    )) =~= ((done1 + flush(buf1)) + seq![(seq![c], TokenType::Symbol)]) + (
                    tokenize_row_items(rowv.skip(j + 1), Seq::empty()) + tokenize_rows_items(
                        rowsv,
                        idsv,
                        r + 1,
                        tokenize_row_buf(rowv.skip(j + 1), Seq::empty()),
                    )));
                }
            }
            j += 1;
        }
        proof {
            assert(rowv.skip(rowv.len() as int).len() == 0);
            assert(tokenize_row_items(rowv.skip(rowv.len() as int), buf@) =~= Seq::<
                (Seq<char>, TokenType),
            >::empty());
            assert(tokenize_row_buf(rowv.skip(rowv.len() as int), buf@) == buf@);
            assert(done + (Seq::<(Seq<char>, TokenType)>::empty() + tokenize_rows_items(
                rowsv,
                idsv,
                r + 1,
                buf@,
            )) =~= done + tokenize_rows_items(rowsv, idsv, r + 1, buf@));
        }
        r += 1;
    }
    if buf.len() > 0 {
        let t = generate_token(&buf, toks.len(), TokenType::Word);
        proof {
            done = done + flush(buf@);
        }
        toks.push(t);
    } else {
        proof {
            assert(done + flush(buf@) =~= done);
        }
    }
    toks
}

/// Greedy multi-row match: the coordinates of the last character of `tok`
/// when `tok[k..]` is matched starting at row `r`, column `pos`, continuing
/// into following rows at column 0 when a row runs out; `None` when a
/// character mismatches or the document ends first.
pub open spec fn match_at(
    lines: Seq<Seq<char>>,
    r: int,
    pos: int,
    tok: Seq<char>,
    k: int,
) -> Option<(int, int)>
    decreases lines.len() - r, if 0 <= r < lines.len() { lines[r].len() + 1 - pos } else { 0 },
{
    if k < 0 || k >= tok.len() || pos < 0 || r < 0 || r >= lines.len() {
        None
    } else if pos >= lines[r].len() {
        match_at(lines, r + 1, 0, tok, k)
    } else if lines[r][pos] != tok[k] {
        None
    } else if k == tok.len() - 1 {
        Some((r, pos))
    } else {
        match_at(lines, r, pos + 1, tok, k + 1)
    }
}

/// A successful match ends inside the document, at or after its start row,
/// and a match that ends on its start row ends exactly where the remaining
/// token length says.
pub proof fn lemma_match_at_bounds(lines: Seq<Seq<char>>, r: int, pos: int, tok: Seq<char>, k: int)
    requires
        match_at(lines, r, pos, tok, k) is Some,
    ensures
        ({
            let (r2, c2) = match_at(lines, r, pos, tok, k)->Some_0;
            &&& 0 <= r <= r2 < lines.len()
            &&& 0 <= c2 < lines[r2].len()
            &&& (r2 == r ==> 0 <= pos && c2 == pos + (tok.len() - k) - 1)
        }),
    decreases lines.len() - r, if 0 <= r < lines.len() { lines[r].len() + 1 - pos } else { 0 },
{
    if k < 0 || k >= tok.len() || pos < 0 || r < 0 || r >= lines.len() {
    } else if pos >= lines[r].len() {
        lemma_match_at_bounds(lines, r + 1, 0, tok, k);
    } else if lines[r][pos] != tok[k] {
    } else if k == tok.len() - 1 {
    } else {
        lemma_match_at_bounds(lines, r, pos + 1, tok, k + 1);
    }
}

/// The order in which tokens are laid onto the text, as tuples
/// `(token index, row_start, col_start, row_end, col_end)`.  The scan walks
/// the rows left to right, top to bottom; at each column it tries to match
/// the next token starting there (continuing into following rows when the
/// row runs out), emits the span and moves past it on success, and advances
/// one column on failure.  Tokens still unmatched when the scan reaches the
/// end of the document are dropped.
pub open spec fn map_plan(
    lines: Seq<Seq<char>>,
    toks: Seq<Seq<char>>,
    ti: int,
    row: int,
    col: int,
) -> Seq<(int, int, int, int, int)>
    decreases
            lines.len() - row,
            if 0 <= row < lines.len() {
                lines[row].len() + 1 - col
            } else {
                0
            },
            toks.len() - ti,
    via map_plan_decreases
{
    if ti < 0 || ti >= toks.len() || row < 0 || row >= lines.len() || col < 0 {
        Seq::empty()
    } else if col >= lines[row].len() {
        map_plan(lines, toks, ti, row + 1, 0)
    } else if toks[ti].len() == 0 {
        map_plan(lines, toks, ti + 1, row, col)
    } else if lines[row][col] == toks[ti][0] {
        match match_at(lines, row, col, toks[ti], 0) {
            Some((r2, c2)) => seq![(ti, row, col, r2, c2)] + if r2 == row {
                map_plan(lines, toks, ti + 1, row, col + toks[ti].len())
            } else {
                map_plan(lines, toks, ti + 1, row + 1, 0)
            },
            None => map_plan(lines, toks, ti, row, col + 1),
        }
    } else {
        map_plan(lines, toks, ti, row, col + 1)
    }
}

#[via_fn]
proof fn map_plan_decreases(
    lines: Seq<Seq<char>>,
    toks: Seq<Seq<char>>,
    ti: int,
    row: int,
    col: int,
) {
    if !(ti < 0 || ti >= toks.len() || row < 0 || row >= lines.len() || col < 0)
        && col < lines[row].len() && toks[ti].len() > 0 && lines[row][col] == toks[ti][0] {
        if match_at(lines, row, col, toks[ti], 0) is Some {
            lemma_match_at_bounds(lines, row, col, toks[ti], 0);
        }
    }
}

/// A token span lies inside the given rows, and a single-row span's columns
/// are ordered.
pub open spec fn span_fits(t: TokenWithPos, lines: Seq<Seq<char>>) -> bool {
    &&& t.row_start <= t.row_end
    &&& (t.row_end as int) < lines.len()
    &&& (t.col_start as int) < lines[t.row_start as int].len()
    &&& (t.col_end as int) < lines[t.row_end as int].len()
    &&& (t.row_start == t.row_end ==> t.col_start <= t.col_end)
}

/// A planned span lies inside the lines: its rows are ordered and in
/// range, and its columns lie inside their rows.
pub open spec fn plan_entry_ok(lines: Seq<Seq<char>>, p: (int, int, int, int, int)) -> bool {
    &&& 0 <= p.1 <= p.3 < lines.len()
    &&& 0 <= p.2 < lines[p.1].len()
    &&& 0 <= p.4 < lines[p.3].len()
    &&& (p.1 == p.3 ==> p.2 <= p.4)
}

/// Every planned span lies inside the lines.
pub proof fn lemma_map_plan_fits(
    lines: Seq<Seq<char>>,
    toks: Seq<Seq<char>>,
    ti: int,
    row: int,
    col: int,
)
    ensures
        forall|i: int|
            0 <= i < map_plan(lines, toks, ti, row, col).len() ==> plan_entry_ok(
                lines,
                #[trigger] map_plan(lines, toks, ti, row, col)[i],
            ),
    decreases
            lines.len() - row,
            if 0 <= row < lines.len() {
                lines[row].len() + 1 - col
            } else {
                0
            },
            toks.len() - ti,
{
    let plan = map_plan(lines, toks, ti, row, col);
    if ti < 0 || ti >= toks.len() || row < 0 || row >= lines.len() || col < 0 {
    } else if col >= lines[row].len() {
        lemma_map_plan_fits(lines, toks, ti, row + 1, 0);
        let rest = map_plan(lines, toks, ti, row + 1, 0);
        assert(plan == rest);
        assert forall|i: int| 0 <= i < plan.len() implies plan_entry_ok(
            lines,
            #[trigger] plan[i],
        ) by {
            assert(plan[i] == rest[i]);
        }
    } else if toks[ti].len() == 0 {
        lemma_map_plan_fits(lines, toks, ti + 1, row, col);
        let rest = map_plan(lines, toks, ti + 1, row, col);
        assert(plan == rest);
        assert forall|i: int| 0 <= i < plan.len() implies plan_entry_ok(
            lines,
            #[trigger] plan[i],
        ) by {
            assert(plan[i] == rest[i]);
        }
    } else if lines[row][col] == toks[ti][0] {
        match match_at(lines, row, col, toks[ti], 0) {
            Some((r2, c2)) => {
                lemma_match_at_bounds(lines, row, col, toks[ti], 0);
                if r2 == row {
                    lemma_map_plan_fits(lines, toks, ti + 1, row, col + toks[ti].len());
                } else {
                    lemma_map_plan_fits(lines, toks, ti + 1, row + 1, 0);
                }
                let rest = if r2 == row {
                    map_plan(lines, toks, ti + 1, row, col + toks[ti].len())
                } else {
                    map_plan(lines, toks, ti + 1, row + 1, 0)
                };
                assert(plan == seq![(ti, row, col, r2, c2)] + rest);
                assert forall|i: int| 0 <= i < plan.len() implies plan_entry_ok(
                    lines,
                    #[trigger] plan[i],
                ) by {
                    if i == 0 {
                        assert(plan[0] == (ti, row, col, r2, c2));
                        assert(0 <= col < lines[row].len());
                        if r2 == row {
                            assert(c2 == col + toks[ti].len() - 1);
                            assert(toks[ti].len() >= 1);
                        }
                    } else {
                        assert(plan[i] == rest[i - 1]);
                    }
                }
            },
            None => {
                lemma_map_plan_fits(lines, toks, ti, row, col + 1);
                let rest = map_plan(lines, toks, ti, row, col + 1);
                assert(plan == rest);
                assert forall|i: int| 0 <= i < plan.len() implies plan_entry_ok(
                    lines,
                    #[trigger] plan[i],
                ) by {
                    assert(plan[i] == rest[i]);
                }
            },
        }
    } else {
        lemma_map_plan_fits(lines, toks, ti, row, col + 1);
        let rest = map_plan(lines, toks, ti, row, col + 1);
        assert(plan == rest);
        assert forall|i: int| 0 <= i < plan.len() implies plan_entry_ok(
            lines,
            #[trigger] plan[i],
        ) by {
            assert(plan[i] == rest[i]);
        }
    }
}

/// The spans match the plan laid over the given tokens: span `i` carries a
/// copy of the planned token and that plan entry\'s coordinates.
pub open spec fn spans_match(
    spans: Seq<TokenWithPos>,
    toks: Seq<Token>,
    plan: Seq<(int, int, int, int, int)>,
) -> bool {
    &&& spans.len() == plan.len()
    &&& forall|i: int|
        0 <= i < plan.len() ==> {
            let p = #[trigger] plan[i];
            &&& 0 <= p.0 < toks.len()
            &&& spans[i].token.id == toks[p.0].id
            &&& spans[i].token.value@ == toks[p.0].value@
            &&& spans[i].token.token_type == toks[p.0].token_type
            &&& spans[i].row_start == p.1
            &&& spans[i].col_start == p.2
            &&& spans[i].row_end == p.3
            &&& spans[i].col_end == p.4
        }
}

/// Tries to match `tok` starting at (`row`, `col`), continuing into the
/// following rows; returns the row and column of the token\'s last character.
#[verifier::loop_isolation(false)]
fn match_token_at(lines: &Vec<Vec<char>>, row: usize, col: usize, tok: &Vec<char>) -> (res: Option<
    (usize, usize),
>)
    requires
        tok@.len() > 0,
    ensures
        ({
            let m = match_at(views_of(lines@), row as int, col as int, tok@, 0);
            match res {
                Some((r2, c2)) => m == Some((r2 as int, c2 as int)),
                None => m is None,
            }
        }),
{
    let ghost lv = views_of(lines@);
    let mut cr: usize = row;
    let mut pos: usize = col;
    let mut k: usize = 0;
    loop
        invariant
            k < tok@.len(),
            row <= cr,
            match_at(lv, row as int, col as int, tok@, 0) == match_at(
                lv,
                cr as int,
                pos as int,
                tok@,
                k as int,
            ),
        decreases
                lv.len() - cr,
                if cr < lv.len() {
                    lv[cr as int].len() + 1 - pos
                } else {
                    0
                },
    {
        if cr >= lines.len() {
            return None;
        }
        let line = &lines[cr];
        proof {
            assert(lv[cr as int] == line@);
        }
        if pos >= line.len() {
            cr += 1;
            pos = 0;
        } else if line[pos] != tok[k] {
            return None;
        } else if k == tok.len() - 1 {
            return Some((cr, pos));
        } else {
            pos += 1;
            k += 1;
        }
    }
}

/// Lays the tokens onto the lines of `content` and records each matched
/// token\'s span.  The scan is greedy and never backtracks the token index:
/// a failed match advances the scan by one column, and a match that began
/// near the end of a row continues into the next row, which is how spans of
/// wrap-split tokens are reconstructed.  Unmatched tokens are dropped.
#[verifier::loop_isolation(false)]
pub fn map_tokens(content: &Vec<char>, tokens: Vec<Token>) -> (spans: Vec<TokenWithPos>)
    ensures
        spans_match(
            spans@,
            tokens@,
            map_plan(
                split_lines_spec(content@),
                tokens@.map_values(|t: Token| t.value@),
                0,
                0,
                0,
            ),
        ),
        forall|i: int|
            0 <= i < spans@.len() ==> span_fits(#[trigger] spans@[i], split_lines_spec(content@)),
{
    let lines = split_lines(content);
    let ghost lv = split_lines_spec(content@);
    let ghost tv = tokens@.map_values(|t: Token| t.value@);
    let ghost total = map_plan(lv, tv, 0, 0, 0);
    let mut spans: Vec<TokenWithPos> = Vec::new();
    let ghost mut done: Seq<(int, int, int, int, int)> = Seq::empty();
    let mut ti: usize = 0;
    let mut row: usize = 0;
    let mut col: usize = 0;
    proof {
        assert(done + map_plan(lv, tv, 0, 0, 0) =~= total);
    }
    while ti < tokens.len() && row < lines.len()
        invariant
            ti <= tokens@.len(),
            views_of(lines@) == lv,
            total == done + map_plan(lv, tv, ti as int, row as int, col as int),
            spans_match(spans@, tokens@, done),
        decreases
                lv.len() - row,
                if row < lv.len() {
                    lv[row as int].len() + 1 - col
                } else {
                    0
                },
                tokens@.len() - ti,
    {
        let ghost done1 = done;
        let ghost ti0 = ti as int;
        let ghost row0 = row as int;
        let ghost col0 = col as int;
        let line_len = lines[row].len();
        proof {
            assert(lv[row as int] == lines@[row as int]@);
        }
        if col >= line_len {
            row += 1;
            col = 0;
        } else if tokens[ti].value.len() == 0 {
            proof {
                assert(tv[ti as int] == tokens@[ti as int].value@);
            }
            ti += 1;
        } else {
            proof {
                assert(tv[ti as int] == tokens@[ti as int].value@);
            }
            let c = lines[row][col];
            let t0 = tokens[ti].value[0];
            if c == t0 {
                match match_token_at(&lines, row, col, &tokens[ti].value) {
                    Some((r2, c2)) => {
                        proof {
                            lemma_match_at_bounds(lv, row as int, col as int, tv[ti as int], 0);
                        }
                        let span = TokenWithPos {
                            token: generate_token(
                                &tokens[ti].value,
                                tokens[ti].id,
                                tokens[ti].token_type,
                            ),
                            row_start: row,
                            col_start: col,
                            row_end: r2,
                            col_end: c2,
                        };
                        spans.push(span);
                        proof {
                            done = done + seq![
                                (ti as int, row as int, col as int, r2 as int, c2 as int),
                            ];
                            assert(done1 + (seq![
                                (ti as int, row as int, col as int, r2 as int, c2 as int),
                            ] + if r2 == row {
                                map_plan(
                                    lv,
                                    tv,
                                    ti + 1,
                                    row as int,
                                    col + tv[ti as int].len(),
                                )
                            } else {
                                map_plan(lv, tv, ti + 1, row + 1, 0)
                            }) =~= done + if r2 == row {
                                map_plan(
                                    lv,
                                    tv,
                                    ti + 1,
                                    row as int,
                                    col + tv[ti as int].len(),
                                )
                            } else {
                                map_plan(lv, tv, ti + 1, row + 1, 0)
                            });
                        }
                        ti += 1;
                        if r2 == row {
                            col = c2 + 1;
                            proof {
                                assert(c2 as int == col0 + tv[ti0].len() - 1);
                                assert(col as int == col0 + tv[ti0].len());
                            }
                        } else {
                            row += 1;
                            col = 0;
                        }
                    },
                    None => {
                        col += 1;
                    },
                }
            } else {
                col += 1;
            }
        }
    }
    proof {
        assert(map_plan(lv, tv, ti as int, row as int, col as int) =~= Seq::<
            (int, int, int, int, int),
        >::empty());
        assert(done + Seq::<(int, int, int, int, int)>::empty() =~= done);
        lemma_map_plan_fits(lv, tv, 0, 0, 0);
        assert(done == total);
        assert forall|i: int| 0 <= i < spans@.len() implies span_fits(#[trigger] spans@[i], lv) by {
            let p = map_plan(lv, tv, 0, 0, 0)[i];
            assert(done[i] == p);
            assert(spans@[i].row_start == p.1 && spans@[i].col_start == p.2 && spans@[i].row_end
                == p.3 && spans@[i].col_end == p.4);
            assert(plan_entry_ok(lv, p));
        }
    }
    spans
}

/// The spans are exactly the tokenization of the wrapped text: each one
/// carries one entry of the scan plan laid over the document's tokens (value,
/// kind, ordinal id and all four coordinates), and lies inside the rows.
pub open spec fn tokenized_spans_ok(
    content: Seq<char>,
    ids: Seq<usize>,
    spans: Seq<TokenWithPos>,
) -> bool {
    let lines = split_lines_spec(content);
    let items = tokens_spec(content, ids);
    let plan = map_plan(lines, items.map_values(|it: (Seq<char>, TokenType)| it.0), 0, 0, 0);
    &&& spans.len() == plan.len()
    &&& (forall|i: int| 0 <= i < spans.len() ==> span_fits(#[trigger] spans[i], lines))
    &&& forall|i: int|
        0 <= i < plan.len() ==> {
            let p = #[trigger] plan[i];
            &&& 0 <= p.0 < items.len()
            &&& spans[i].token.id == p.0
            &&& spans[i].token.value@ == items[p.0].0
            &&& spans[i].token.token_type == items[p.0].1
            &&& spans[i].row_start == p.1
            &&& spans[i].col_start == p.2
            &&& spans[i].row_end == p.3
            &&& spans[i].col_end == p.4
        }
}

/// Tokenizes the wrapped text and maps every token to its span: the
/// composition of the token scan and the position mapper.
pub fn tokenize_text(wrapped_content: &Vec<char>, wrap_ids: &Vec<usize>) -> (spans: Vec<
    TokenWithPos,
>)
    ensures
        tokenized_spans_ok(wrapped_content@, wrap_ids@, spans@),
{
    let rows = split_lines(wrapped_content);
    let tokens = build_tokens(&rows, wrap_ids);
    let ghost items = tokens_spec(wrapped_content@, wrap_ids@);
    proof {
        assert(tokens@.map_values(|t: Token| t.value@) =~= items.map_values(
            |it: (Seq<char>, TokenType)| it.0,
        ));
    }
    map_tokens(wrapped_content, tokens)
}

} // verus!
