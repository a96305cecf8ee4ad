//! The book: its lines, their wrapping into display rows, paging through
//! the rows, searching, and chapter detection.
use vstd::prelude::*;
use crate::pattern::regex_match_each;
use crate::pattern::regex_match_outcome;
use crate::text::chars_of;
use crate::text::line_bounds;
use crate::text::lines_of;
use crate::text::string_of_range;
use crate::text::trim;
use crate::text::trim_bounds;
use crate::text::contains_chars;
use crate::text::contains_seq;
use crate::text::lowercase;
use crate::text::to_lowercase;
use crate::text::string_of;
use crate::width::columns;
use crate::width::columns_of;
use crate::width::text_columns;
use crate::text::str_eq;
use crate::paths::extension_of;
use crate::paths::extension_outcome;

verus! {

broadcast use vstd::string::group_string_axioms;

/// A chapter heading and the line it stands on.
#[derive(Debug, Clone)]
pub struct Chapter {
    pub title: String,
    pub line_index: usize,
}

/// A loaded book.
#[derive(Debug, Clone)]
pub struct Book {
    /// The non-blank lines of the text, trimmed.
    pub lines: Vec<String>,
    /// The same lines lower-cased, for case-insensitive search.
    pub lowercase_lines: Vec<String>,
    /// The chapter headings, in the order of their lines.
    pub chapters: Vec<Chapter>,
    /// Where the book was read from.
    pub file_path: String,
}

// ---------------------------------------------------------------------
// Wrapping a line into rows
// ---------------------------------------------------------------------

/// The state after wrapping the characters `s` from left to right: the
/// finished rows, the row being filled, and that row's width in columns.
/// A character starts a new row when the current row is not empty and
/// the character would make it wider than `max`.
pub open spec fn wrap_state(s: Seq<char>, max: nat) -> (Seq<Seq<char>>, Seq<char>, nat)
    decreases s.len(),
{
    if s.len() == 0 {
        (seq![], seq![], 0)
    } else {
        let prev = wrap_state(s.drop_last(), max);
        let c = s.last();
        if prev.2 + columns(c) > max && prev.1.len() > 0 {
            (prev.0.push(prev.1), seq![c], columns(c))
        } else {
            (prev.0, prev.1.push(c), prev.2 + columns(c))
        }
    }
}

/// The rows that a line with the characters `s` wraps into at `max`
/// columns: one empty row for an empty line.
pub open spec fn wrapped_rows(s: Seq<char>, max: nat) -> Seq<Seq<char>> {
    if s.len() == 0 {
        seq![seq![]]
    } else {
        wrap_state(s, max).0.push(wrap_state(s, max).1)
    }
}

/// What makes a list of rows a wrapping of `s` at `max` columns: the rows
/// put together give `s` back, none is empty, each fits in `max` columns
/// unless it is a single character, and no row could have taken the first
/// character of the next one.
pub open spec fn is_greedy_wrapping(rows: Seq<Seq<char>>, s: Seq<char>, max: nat) -> bool {
    &&& rows.flatten() == s
    &&& forall|i: int| 0 <= i < rows.len() ==> #[trigger] rows[i].len() > 0
    &&& forall|i: int|
        0 <= i < rows.len() ==> text_columns(#[trigger] rows[i]) <= max || rows[i].len() == 1
    &&& forall|i: int|
        0 <= i < rows.len() - 1 ==> text_columns(#[trigger] rows[i]) + columns(rows[i + 1][0])
            > max
}

proof fn lemma_flatten_push(rows: Seq<Seq<char>>, r: Seq<char>)
    ensures
        rows.push(r).flatten() == rows.flatten() + r,
{
    rows.lemma_flatten_push(r);
}

proof fn lemma_text_columns_push(s: Seq<char>, c: char)
    ensures
        text_columns(s.push(c)) == text_columns(s) + columns(c),
{
    assert(s.push(c).drop_last() =~= s);
}

/// The left-to-right state keeps the rows a greedy wrapping of what has
/// been read so far.
proof fn lemma_wrap_state(s: Seq<char>, max: nat)
    ensures
        ({
            let st = wrap_state(s, max);
            &&& st.2 == text_columns(st.1)
            &&& (st.1.len() == 0 <==> s.len() == 0)
            &&& st.1.len() > 0 ==> text_columns(st.1) <= max || st.1.len() == 1
            &&& is_greedy_wrapping(st.0.push(st.1), s, max) || s.len() == 0
        }),
    decreases s.len(),
{
    if s.len() > 0 {
        let p = s.drop_last();
        lemma_wrap_state(p, max);
        let prev = wrap_state(p, max);
        let c = s.last();
        let st = wrap_state(s, max);
        assert(p.push(c) =~= s);
        if prev.2 + columns(c) > max && prev.1.len() > 0 {
            assert(st.0 == prev.0.push(prev.1));
            assert(st.1 =~= seq![c]);
            assert(text_columns(seq![c]) == columns(c)) by {
                lemma_text_columns_push(seq![], c);
                assert(Seq::<char>::empty().push(c) =~= seq![c]);
            }
            let rows = st.0.push(st.1);
            lemma_flatten_push(st.0, st.1);
            lemma_flatten_push(prev.0, prev.1);
            if p.len() > 0 {
                assert(rows.flatten() =~= s);
            }
            assert forall|i: int| 0 <= i < rows.len() - 1 implies text_columns(#[trigger] rows[i])
                + columns(rows[i + 1][0]) > max by {
                if i == rows.len() - 2 {
                    assert(rows[i] == prev.1);
                    assert(rows[i + 1] == seq![c]);
                } else {
                    assert(rows[i] == prev.0.push(prev.1)[i]);
                    assert(rows[i + 1] == prev.0.push(prev.1)[i + 1]);
                }
            }
            assert forall|i: int| 0 <= i < rows.len() implies #[trigger] rows[i].len() > 0 by {
                if i < rows.len() - 1 {
                    assert(rows[i] == prev.0.push(prev.1)[i]);
                }
            }
            assert forall|i: int| 0 <= i < rows.len() implies text_columns(#[trigger] rows[i])
                <= max || rows[i].len() == 1 by {
                if i < rows.len() - 1 {
                    assert(rows[i] == prev.0.push(prev.1)[i]);
                }
            }
        } else {
            lemma_text_columns_push(prev.1, c);
            let rows = st.0.push(st.1);
            lemma_flatten_push(st.0, st.1);
            lemma_flatten_push(prev.0, prev.1);
            if p.len() == 0 {
                assert(prev.0.len() == 0);
                assert(st.0.flatten() =~= Seq::<char>::empty());
                assert(rows.flatten() =~= s);
            } else {
                assert(rows.flatten() =~= s);
            }
            assert forall|i: int| 0 <= i < rows.len() - 1 implies text_columns(#[trigger] rows[i])
                + columns(rows[i + 1][0]) > max by {
                if i == rows.len() - 2 {
                    let old_rows = prev.0.push(prev.1);
                    assert(rows[i] == old_rows[i]);
                    assert(old_rows[i + 1] == prev.1);
                    assert(rows[i + 1][0] == prev.1[0]);
                } else {
                    assert(rows[i] == prev.0.push(prev.1)[i]);
                    assert(rows[i + 1] == prev.0.push(prev.1)[i + 1]);
                }
            }
            assert forall|i: int| 0 <= i < rows.len() implies #[trigger] rows[i].len() > 0 by {
                if i < rows.len() - 1 {
                    assert(rows[i] == prev.0.push(prev.1)[i]);
                }
            }
            assert forall|i: int| 0 <= i < rows.len() implies text_columns(#[trigger] rows[i])
                <= max || rows[i].len() == 1 by {
                if i < rows.len() - 1 {
                    assert(rows[i] == prev.0.push(prev.1)[i]);
                }
            }
        }
    }
}

/// The rows of a non-empty line are a greedy wrapping of it; an empty
/// line gives one empty row.
pub proof fn lemma_wrapped_rows_wrap(s: Seq<char>, max: nat)
    ensures
        s.len() == 0 ==> wrapped_rows(s, max) == seq![Seq::<char>::empty()],
        s.len() > 0 ==> is_greedy_wrapping(wrapped_rows(s, max), s, max),
        wrapped_rows(s, max).len() >= 1,
{
    lemma_wrap_state(s, max);
}

impl Book {
    /// Wraps `line` into rows of at most `max_width` columns, measured with
    /// `unicode-width`; a character wider than `max_width` gets a row of
    /// its own, and an empty line gives one empty row.
    pub fn wrap_line(line: &str, max_width: usize) -> (r: Vec<String>)
        ensures
            r.deep_view() == wrapped_rows(line@, max_width as nat),
            line@.len() == 0 ==> r.deep_view() == seq![Seq::<char>::empty()],
            line@.len() > 0 ==> is_greedy_wrapping(r.deep_view(), line@, max_width as nat),
    {
        let cs = chars_of(line);
        let ghost max = max_width as nat;
        if cs.len() == 0 {
            let mut result: Vec<String> = Vec::new();
            result.push(String::new());
            assert(result.deep_view() =~= seq![Seq::<char>::empty()]);
            return result;
        }
        let mut result: Vec<String> = Vec::new();
        let mut current: Vec<char> = Vec::new();
        let mut current_width: usize = 0;
        let mut i: usize = 0;
        while i < cs.len()
            invariant
                i <= cs@.len(),
                cs@ == line@,
                max == max_width as nat,
                ({
                    let st = wrap_state(cs@.take(i as int), max);
                    &&& result.deep_view() == st.0
                    &&& current@ == st.1
                    &&& current_width as nat == st.2
                }),
                current@.len() > 0 ==> current_width <= max_width || current@.len() == 1,
                current@.len() == 0 ==> current_width == 0,
            decreases cs@.len() - i,
        {
            let c = cs[i];
            let w = columns_of(c);
            proof {
                lemma_wrap_state(cs@.take(i as int), max);
                assert(cs@.take(i + 1).drop_last() =~= cs@.take(i as int));
                assert(cs@.take(i + 1).last() == c);
            }
            let overflow = current_width > max_width || w > max_width - current_width;
            if overflow && current.len() > 0 {
                let row = string_of(&current);
                result.push(row);
                current = Vec::new();
                current.push(c);
                current_width = w;
                assert(current@ =~= seq![c]);
            } else {
                current.push(c);
                current_width = current_width + w;
            }
            i = i + 1;
        }
        assert(cs@.take(cs@.len() as int) =~= cs@);
        proof {
            lemma_wrap_state(cs@, max);
        }
        let row = string_of(&current);
        result.push(row);
        proof {
            lemma_wrapped_rows_wrap(line@, max);
        }
        result
    }
}


// ---------------------------------------------------------------------
// Paging through the rows of the book
// ---------------------------------------------------------------------

/// The rows of the book from line `li`, row `si` on, to the end: the rest
/// of that line's rows, then all rows of the following lines.
pub open spec fn rows_from(lines: Seq<Seq<char>>, li: nat, si: nat, max: nat) -> Seq<Seq<char>>
    decreases lines.len() - li,
{
    if li >= lines.len() {
        seq![]
    } else {
        let r = wrapped_rows(lines[li as int], max);
        (if si < r.len() {
            r.skip(si as int)
        } else {
            seq![]
        }) + rows_from(lines, li + 1, 0, max)
    }
}

/// Taking up to `n` rows from line `li`, row `si`: the rows taken and the
/// position (line, row) reached. A row index past the end of its line
/// moves on to the first row of the next line before a row is taken.
pub open spec fn take_rows(lines: Seq<Seq<char>>, li: nat, si: nat, n: nat, max: nat) -> (
    Seq<Seq<char>>,
    nat,
    nat,
)
    decreases lines.len() - li, n,
{
    if n == 0 || li >= lines.len() {
        (seq![], li, si)
    } else {
        let r = wrapped_rows(lines[li as int], max);
        if si < r.len() {
            let rest = take_rows(lines, li, si + 1, (n - 1) as nat, max);
            (seq![r[si as int]] + rest.0, rest.1, rest.2)
        } else {
            take_rows(lines, li + 1, 0, n, max)
        }
    }
}

/// The book line of each row that `take_rows` takes.
pub open spec fn take_row_lines(lines: Seq<Seq<char>>, li: nat, si: nat, n: nat, max: nat) -> Seq<
    usize,
>
    decreases lines.len() - li, n,
{
    if n == 0 || li >= lines.len() {
        seq![]
    } else {
        let r = wrapped_rows(lines[li as int], max);
        if si < r.len() {
            seq![li as usize] + take_row_lines(lines, li, si + 1, (n - 1) as nat, max)
        } else {
            take_row_lines(lines, li + 1, 0, n, max)
        }
    }
}

/// Paging on from where a page stopped gives the rows of one longer page:
/// taking `a` rows and then `b` more from the position reached takes the
/// same rows, and reaches the same position, as taking `a + b` at once.
pub proof fn lemma_take_rows_chain(lines: Seq<Seq<char>>, li: nat, si: nat, a: nat, b: nat, max: nat)
    ensures
        ({
            let first = take_rows(lines, li, si, a, max);
            let second = take_rows(lines, first.1, first.2, b, max);
            let whole = take_rows(lines, li, si, a + b, max);
            &&& whole.0 == first.0 + second.0
            &&& whole.1 == second.1
            &&& whole.2 == second.2
        }),
    decreases lines.len() - li, a,
{
    if a == 0 {
        let first = take_rows(lines, li, si, a, max);
        assert(first.0 + take_rows(lines, li, si, b, max).0 =~= take_rows(lines, li, si, b, max).0);
    } else if li >= lines.len() {
    } else {
        let r = wrapped_rows(lines[li as int], max);
        if si < r.len() {
            lemma_take_rows_chain(lines, li, si + 1, (a - 1) as nat, b, max);
            let rest_first = take_rows(lines, li, si + 1, (a - 1) as nat, max);
            let second = take_rows(lines, rest_first.1, rest_first.2, b, max);
            assert((a + b - 1) as nat == ((a - 1) as nat + b) as nat);
            assert(seq![r[si as int]] + (rest_first.0 + second.0) =~= (seq![r[si as int]]
                + rest_first.0) + second.0);
        } else {
            lemma_take_rows_chain(lines, li + 1, 0, a, b, max);
        }
    }
}

/// There is one line number for each row taken.
pub proof fn lemma_take_row_lines_len(lines: Seq<Seq<char>>, li: nat, si: nat, n: nat, max: nat)
    ensures
        take_row_lines(lines, li, si, n, max).len() == take_rows(lines, li, si, n, max).0.len(),
    decreases lines.len() - li, n,
{
    if n > 0 && li < lines.len() {
        let r = wrapped_rows(lines[li as int], max);
        if si < r.len() {
            lemma_take_row_lines_len(lines, li, si + 1, (n - 1) as nat, max);
        } else {
            lemma_take_row_lines_len(lines, li + 1, 0, n, max);
        }
    }
}

/// The rows taken are the first `n` rows from the position on, or all of
/// them when fewer are left.
pub proof fn lemma_take_rows_prefix(lines: Seq<Seq<char>>, li: nat, si: nat, n: nat, max: nat)
    ensures
        ({
            let all = rows_from(lines, li, si, max);
            take_rows(lines, li, si, n, max).0 == all.take(
                if n <= all.len() {
                    n as int
                } else {
                    all.len() as int
                },
            )
        }),
    decreases lines.len() - li, n,
{
    if n == 0 || li >= lines.len() {
        let all = rows_from(lines, li, si, max);
        assert(all.take(0) =~= Seq::<Seq<char>>::empty());
    } else {
        let r = wrapped_rows(lines[li as int], max);
        if si < r.len() {
            lemma_take_rows_prefix(lines, li, si + 1, (n - 1) as nat, max);
            let all = rows_from(lines, li, si, max);
            let next = rows_from(lines, li, si + 1, max);
            let tail = rows_from(lines, li + 1, 0, max);
            assert(all == r.skip(si as int) + tail);
            if si + 1 < r.len() {
                assert(next == r.skip((si + 1) as int) + tail);
            } else {
                assert(next == Seq::<Seq<char>>::empty() + tail);
                assert(r.skip((si + 1) as int) =~= Seq::<Seq<char>>::empty());
            }
            assert(all =~= seq![r[si as int]] + next);
            let rest = take_rows(lines, li, si + 1, (n - 1) as nat, max);
            let k = if (n - 1) as nat <= next.len() {
                (n - 1) as int
            } else {
                next.len() as int
            };
            assert(rest.0 == next.take(k));
            assert(seq![r[si as int]] + next.take(k) =~= all.take(k + 1));
        } else {
            lemma_take_rows_prefix(lines, li + 1, 0, n, max);
            let all = rows_from(lines, li, si, max);
            assert(all =~= rows_from(lines, li + 1, 0, max));
        }
    }
}

impl Book {
    /// Up to `count` display rows of at most `max_width` columns, starting
    /// at row `sub_offset` of line `start`, with the (line, row) position
    /// after them.
    pub fn get_display_lines(&self, start: usize, sub_offset: usize, count: usize, max_width: usize) -> (r: (
        Vec<String>,
        usize,
        usize,
    ))
        ensures
            ({
                let t = take_rows(
                    self.lines.deep_view(),
                    start as nat,
                    sub_offset as nat,
                    count as nat,
                    max_width as nat,
                );
                &&& r.0.deep_view() == t.0
                &&& r.1 == t.1
                &&& r.2 == t.2
            }),
            ({
                let all = rows_from(
                    self.lines.deep_view(),
                    start as nat,
                    sub_offset as nat,
                    max_width as nat,
                );
                r.0.deep_view() == all.take(
                    if count <= all.len() {
                        count as int
                    } else {
                        all.len() as int
                    },
                )
            }),
    {
        let ghost ls = self.lines.deep_view();
        let ghost max = max_width as nat;
        let mut out: Vec<String> = Vec::new();
        let mut line_idx = start;
        let mut sub_idx = sub_offset;
        while out.len() < count
            invariant
                ls == self.lines.deep_view(),
                max == max_width as nat,
                out@.len() <= count,
                ({
                    let whole = take_rows(ls, start as nat, sub_offset as nat, count as nat, max);
                    let rest = take_rows(
                        ls,
                        line_idx as nat,
                        sub_idx as nat,
                        (count - out@.len()) as nat,
                        max,
                    );
                    &&& whole.0 == out.deep_view() + rest.0
                    &&& whole.1 == rest.1
                    &&& whole.2 == rest.2
                }),
            ensures
                out@.len() >= count || line_idx >= ls.len(),
            decreases ls.len() - line_idx, count - out@.len(),
        {
            if line_idx >= self.lines.len() {
                break;
            }
            let wrapped = Self::wrap_line(&self.lines[line_idx], max_width);
            proof {
                assert(ls[line_idx as int] == self.lines@[line_idx as int]@);
            }
            if sub_idx < wrapped.len() {
                let ghost old_out = out.deep_view();
                let row = wrapped[sub_idx].clone();
                out.push(row);
                proof {
                    assert(wrapped.deep_view()[sub_idx as int] == wrapped@[sub_idx as int]@);
                    assert(out.deep_view() =~= old_out.push(wrapped@[sub_idx as int]@));
                    let n = (count - old_out.len()) as nat;
                    let rest = take_rows(ls, line_idx as nat, (sub_idx + 1) as nat, (n - 1) as nat, max);
                    assert(old_out.push(wrapped@[sub_idx as int]@) + rest.0 =~= old_out + (seq![wrapped@[sub_idx as int]@] + rest.0));
                }
                sub_idx = sub_idx + 1;
            } else {
                line_idx = line_idx + 1;
                sub_idx = 0;
            }
        }
        proof {
            let rest = take_rows(ls, line_idx as nat, sub_idx as nat, (count - out@.len()) as nat, max);
            assert(rest.0 =~= Seq::<Seq<char>>::empty());
            assert(out.deep_view() + rest.0 =~= out.deep_view());
            lemma_take_rows_prefix(ls, start as nat, sub_offset as nat, count as nat, max);
        }
        (out, line_idx, sub_idx)
    }
}


impl Book {
    /// The book line of each of the rows that `get_display_lines` gives
    /// for the same arguments.
    pub fn display_row_lines(&self, start: usize, sub_offset: usize, count: usize, max_width: usize) -> (r: Vec<usize>)
        ensures
            r@ == take_row_lines(
                self.lines.deep_view(),
                start as nat,
                sub_offset as nat,
                count as nat,
                max_width as nat,
            ),
            r@.len() == take_rows(
                self.lines.deep_view(),
                start as nat,
                sub_offset as nat,
                count as nat,
                max_width as nat,
            ).0.len(),
    {
        let ghost ls = self.lines.deep_view();
        let ghost max = max_width as nat;
        proof {
            lemma_take_row_lines_len(ls, start as nat, sub_offset as nat, count as nat, max);
        }
        let mut out: Vec<usize> = Vec::new();
        let mut line_idx = start;
        let mut sub_idx = sub_offset;
        while out.len() < count
            invariant
                ls == self.lines.deep_view(),
                max == max_width as nat,
                out@.len() <= count,
                take_row_lines(ls, start as nat, sub_offset as nat, count as nat, max) == out@
                    + take_row_lines(
                    ls,
                    line_idx as nat,
                    sub_idx as nat,
                    (count - out@.len()) as nat,
                    max,
                ),
            ensures
                out@.len() >= count || line_idx >= ls.len(),
            decreases ls.len() - line_idx, count - out@.len(),
        {
            if line_idx >= self.lines.len() {
                break;
            }
            let wrapped = Self::wrap_line(&self.lines[line_idx], max_width);
            proof {
                assert(ls[line_idx as int] == self.lines@[line_idx as int]@);
            }
            if sub_idx < wrapped.len() {
                let ghost old_out = out@;
                out.push(line_idx);
                proof {
                    let n = (count - old_out.len()) as nat;
                    let rest = take_row_lines(ls, line_idx as nat, (sub_idx + 1) as nat, (n - 1) as nat, max);
                    assert(old_out.push(line_idx) + rest =~= old_out + (seq![line_idx] + rest));
                }
                sub_idx = sub_idx + 1;
            } else {
                line_idx = line_idx + 1;
                sub_idx = 0;
            }
        }
        proof {
            let rest = take_row_lines(ls, line_idx as nat, sub_idx as nat, (count - out@.len()) as nat, max);
            assert(rest =~= Seq::<usize>::empty());
            assert(out@ + rest =~= out@);
        }
        out
    }
}

// ---------------------------------------------------------------------
// Searching
// ---------------------------------------------------------------------

/// Some offset in `1..=len` that takes `start` to line `i` going forward.
proof fn lemma_forward_reaches(start: int, len: int, i: int) -> (j: int)
    requires
        0 <= start,
        0 < len,
        0 <= i < len,
    ensures
        1 <= j <= len,
        (start + j) % len == i,
{
    let a = start % len;
    let q = start / len;
    vstd::arithmetic::div_mod::lemma_fundamental_div_mod(start, len);
    assert(0 <= a < len) by {
        vstd::arithmetic::div_mod::lemma_mod_pos_bound(start, len);
    }
    let d = if i >= a {
        i - a
    } else {
        i - a + len
    };
    let j = if d == 0 {
        len
    } else {
        d
    };
    if a + j == i {
        assert(start + j == q * len + i) by (nonlinear_arith)
            requires
                start == len * q + a,
                a + j == i,
        ;
        vstd::arithmetic::div_mod::lemma_fundamental_div_mod_converse(start + j, len, q, i);
    } else {
        assert(a + j == i + len);
        assert(start + j == (q + 1) * len + i) by (nonlinear_arith)
            requires
                start == len * q + a,
                a + j == i + len,
        ;
        vstd::arithmetic::div_mod::lemma_fundamental_div_mod_converse(start + j, len, q + 1, i);
    }
    j
}

/// Some offset in `1..=len` that takes `start` to line `i` going backward.
proof fn lemma_backward_reaches(start: int, len: int, i: int) -> (j: int)
    requires
        0 <= start,
        0 < len,
        0 <= i < len,
    ensures
        1 <= j <= len,
        (start + len - j) % len == i,
{
    let a = start % len;
    let q = start / len;
    vstd::arithmetic::div_mod::lemma_fundamental_div_mod(start, len);
    assert(0 <= a < len) by {
        vstd::arithmetic::div_mod::lemma_mod_pos_bound(start, len);
    }
    if a > i {
        let j = a - i;
        assert(start + len - j == (q + 1) * len + i) by (nonlinear_arith)
            requires
                start == len * q + a,
                j == a - i,
        ;
        vstd::arithmetic::div_mod::lemma_fundamental_div_mod_converse(start + len - j, len, q + 1, i);
        j
    } else {
        let j = a + len - i;
        assert(start + len - j == q * len + i) by (nonlinear_arith)
            requires
                start == len * q + a,
                j == a + len - i,
        ;
        vstd::arithmetic::div_mod::lemma_fundamental_div_mod_converse(start + len - j, len, q, i);
        j
    }
}

/// The line reached from `start` after `k` steps forward through `len`
/// lines, wrapping round at the end.
pub open spec fn forward_line(start: int, k: int, len: int) -> int {
    (start + k) % len
}

/// The line reached from `start` after `k` steps backward through `len`
/// lines, wrapping round at the beginning.
pub open spec fn backward_line(start: int, k: int, len: int) -> int {
    (start + len - k) % len
}

impl Book {
    /// The first line tried from step `k` on, going forward from `start`,
    /// that contains `q` regardless of case.
    pub open spec fn scan_forward(&self, start: int, q: Seq<char>, k: int) -> Option<usize>
        decreases self.lines@.len() + 1 - k,
    {
        let len = self.lines@.len() as int;
        if k > len || k < 1 {
            None
        } else if self.matches_at(forward_line(start, k, len), q) {
            Some(forward_line(start, k, len) as usize)
        } else {
            self.scan_forward(start, q, k + 1)
        }
    }

    /// The first line tried from step `k` on, going backward from
    /// `start`, that contains `q` regardless of case.
    pub open spec fn scan_backward(&self, start: int, q: Seq<char>, k: int) -> Option<usize>
        decreases self.lines@.len() + 1 - k,
    {
        let len = self.lines@.len() as int;
        if k > len || k < 1 {
            None
        } else if self.matches_at(backward_line(start, k, len), q) {
            Some(backward_line(start, k, len) as usize)
        } else {
            self.scan_backward(start, q, k + 1)
        }
    }

    /// Whether line `i`, lower-cased, contains the lower-cased `query`.
    pub open spec fn matches_at(&self, i: int, query: Seq<char>) -> bool {
        contains_seq(self.lowercase_lines@[i]@, lowercase(query))
    }

    /// The first line after `start`, going forward and wrapping round to
    /// the beginning, that contains `query` regardless of case (`start`
    /// itself is tried last); `None` when no line does.
    pub fn search_forward(&self, start: usize, query: &str) -> (r: Option<usize>)
        requires
            self.lines@.len() <= self.lowercase_lines@.len(),
            start + self.lines@.len() <= usize::MAX,
        ensures
            r == self.scan_forward(start as int, query@, 1),
            r is None <==> forall|i: int|
                0 <= i < self.lines@.len() ==> !#[trigger] self.matches_at(i, query@),
            r matches Some(idx) ==> exists|k: int|
                {
                    &&& 1 <= k <= self.lines@.len()
                    &&& idx == #[trigger] forward_line(start as int, k, self.lines@.len() as int)
                    &&& self.matches_at(idx as int, query@)
                    &&& forall|j: int|
                        1 <= j < k ==> !self.matches_at(
                            #[trigger] forward_line(start as int, j, self.lines@.len() as int),
                            query@,
                        )
                },
    {
        let q = to_lowercase(query);
        let qc = chars_of(q.as_str());
        let len = self.lines.len();
        if len == 0 {
            return None;
        }
        let mut offset: usize = 1;
        loop
            invariant
                1 <= offset <= len,
                len == self.lines@.len(),
                len <= self.lowercase_lines@.len(),
                start + len <= usize::MAX,
                qc@ == lowercase(query@),
                forall|j: int|
                    1 <= j < offset ==> !self.matches_at(
                        #[trigger] forward_line(start as int, j, len as int),
                        query@,
                    ),
                self.scan_forward(start as int, query@, 1) == self.scan_forward(start as int, query@, offset as int),
            ensures
                self.scan_forward(start as int, query@, 1) == None::<usize>,
                forall|j: int|
                    1 <= j <= len ==> !self.matches_at(
                        #[trigger] forward_line(start as int, j, len as int),
                        query@,
                    ),
            decreases len - offset,
        {
            let idx = (start + offset) % len;
            let lc = chars_of(self.lowercase_lines[idx].as_str());
            if contains_chars(&lc, &qc) {
                assert(idx == forward_line(start as int, offset as int, len as int));
                assert(self.matches_at(idx as int, query@));
                return Some(idx);
            }
            assert(idx == forward_line(start as int, offset as int, len as int));
            if offset == len {
                assert(self.scan_forward(start as int, query@, offset + 1) == None::<usize>);
                break;
            }
            offset = offset + 1;
        }
        proof {
            assert forall|i: int| 0 <= i < len implies !#[trigger] self.matches_at(i, query@) by {
                let j = lemma_forward_reaches(start as int, len as int, i);
                assert(!self.matches_at(forward_line(start as int, j, len as int), query@));
            }
        }
        None
    }

    /// The first line before `start`, going backward and wrapping round
    /// to the end, that contains `query` regardless of case (`start`
    /// itself is tried last); `None` when no line does.
    pub fn search_backward(&self, start: usize, query: &str) -> (r: Option<usize>)
        requires
            self.lines@.len() <= self.lowercase_lines@.len(),
            start + self.lines@.len() <= usize::MAX,
        ensures
            r == self.scan_backward(start as int, query@, 1),
            r is None <==> forall|i: int|
                0 <= i < self.lines@.len() ==> !#[trigger] self.matches_at(i, query@),
            r matches Some(idx) ==> exists|k: int|
                {
                    &&& 1 <= k <= self.lines@.len()
                    &&& idx == #[trigger] backward_line(start as int, k, self.lines@.len() as int)
                    &&& self.matches_at(idx as int, query@)
                    &&& forall|j: int|
                        1 <= j < k ==> !self.matches_at(
                            #[trigger] backward_line(start as int, j, self.lines@.len() as int),
                            query@,
                        )
                },
    {
        let q = to_lowercase(query);
        let qc = chars_of(q.as_str());
        let len = self.lines.len();
        if len == 0 {
            return None;
        }
        let mut offset: usize = 1;
        loop
            invariant
                1 <= offset <= len,
                len == self.lines@.len(),
                len <= self.lowercase_lines@.len(),
                start + len <= usize::MAX,
                qc@ == lowercase(query@),
                forall|j: int|
                    1 <= j < offset ==> !self.matches_at(
                        #[trigger] backward_line(start as int, j, len as int),
                        query@,
                    ),
                self.scan_backward(start as int, query@, 1) == self.scan_backward(start as int, query@, offset as int),
            ensures
                self.scan_backward(start as int, query@, 1) == None::<usize>,
                forall|j: int|
                    1 <= j <= len ==> !self.matches_at(
                        #[trigger] backward_line(start as int, j, len as int),
                        query@,
                    ),
            decreases len - offset,
        {
            let idx = (start + len - offset) % len;
            let lc = chars_of(self.lowercase_lines[idx].as_str());
            if contains_chars(&lc, &qc) {
                assert(idx == backward_line(start as int, offset as int, len as int));
                assert(self.matches_at(idx as int, query@));
                return Some(idx);
            }
            assert(idx == backward_line(start as int, offset as int, len as int));
            if offset == len {
                assert(self.scan_backward(start as int, query@, offset + 1) == None::<usize>);
                break;
            }
            offset = offset + 1;
        }
        proof {
            assert forall|i: int| 0 <= i < len implies !#[trigger] self.matches_at(i, query@) by {
                let j = lemma_backward_reaches(start as int, len as int, i);
                assert(!self.matches_at(backward_line(start as int, j, len as int), query@));
            }
        }
        None
    }
}


impl Book {
    proof fn lemma_scan_forward(&self, start: int, q: Seq<char>, k: int)
        requires
            1 <= k,
            0 <= start,
            self.lines@.len() <= usize::MAX,
        ensures
            self.scan_forward(start, q, k) is None <==> forall|j: int|
                k <= j <= self.lines@.len() ==> !#[trigger] self.matches_at(
                    forward_line(start, j, self.lines@.len() as int),
                    q,
                ),
            self.scan_forward(start, q, k) matches Some(i) ==> self.matches_at(i as int, q),
        decreases self.lines@.len() + 1 - k,
    {
        let len = self.lines@.len() as int;
        if k <= len {
            vstd::arithmetic::div_mod::lemma_mod_pos_bound(start + k, len);
            self.lemma_scan_forward(start, q, k + 1);
        }
    }

    /// Scanning forward from step `k0` finds the line of the first step
    /// from `k0` on whose line holds `q`, and nothing when no such step
    /// does.
    pub proof fn lemma_scan_forward_first(&self, start: int, q: Seq<char>, k0: int)
        requires
            1 <= k0,
            0 <= start,
            self.lines@.len() <= usize::MAX,
        ensures
            self.scan_forward(start, q, k0) matches Some(i) ==> exists|k: int|
                k0 <= k <= self.lines@.len() && i as int == #[trigger] forward_line(
                    start,
                    k,
                    self.lines@.len() as int,
                ) && self.matches_at(i as int, q) && forall|j: int|
                    k0 <= j < k ==> !#[trigger] self.matches_at(
                        forward_line(start, j, self.lines@.len() as int),
                        q,
                    ),
            self.scan_forward(start, q, k0) is None ==> forall|j: int|
                k0 <= j <= self.lines@.len() ==> !#[trigger] self.matches_at(
                    forward_line(start, j, self.lines@.len() as int),
                    q,
                ),
        decreases self.lines@.len() + 1 - k0,
    {
        let len = self.lines@.len() as int;
        if k0 <= len {
            vstd::arithmetic::div_mod::lemma_mod_pos_bound(start + k0, len);
            self.lemma_scan_forward_first(start, q, k0 + 1);
            if self.matches_at(forward_line(start, k0, len), q) {
                assert(k0 <= k0 <= len && self.scan_forward(start, q, k0).unwrap() as int
                    == forward_line(start, k0, len));
            }
        }
    }

    /// Scanning backward from step `k0` finds the line of the first step
    /// from `k0` on whose line holds `q`, and nothing when no such step
    /// does.
    pub proof fn lemma_scan_backward_first(&self, start: int, q: Seq<char>, k0: int)
        requires
            1 <= k0,
            0 <= start,
            self.lines@.len() <= usize::MAX,
        ensures
            self.scan_backward(start, q, k0) matches Some(i) ==> exists|k: int|
                k0 <= k <= self.lines@.len() && i as int == #[trigger] backward_line(
                    start,
                    k,
                    self.lines@.len() as int,
                ) && self.matches_at(i as int, q) && forall|j: int|
                    k0 <= j < k ==> !#[trigger] self.matches_at(
                        backward_line(start, j, self.lines@.len() as int),
                        q,
                    ),
            self.scan_backward(start, q, k0) is None ==> forall|j: int|
                k0 <= j <= self.lines@.len() ==> !#[trigger] self.matches_at(
                    backward_line(start, j, self.lines@.len() as int),
                    q,
                ),
        decreases self.lines@.len() + 1 - k0,
    {
        let len = self.lines@.len() as int;
        if k0 <= len {
            vstd::arithmetic::div_mod::lemma_mod_pos_bound(start + len - k0, len);
            self.lemma_scan_backward_first(start, q, k0 + 1);
            if self.matches_at(backward_line(start, k0, len), q) {
                assert(k0 <= k0 <= len && self.scan_backward(start, q, k0).unwrap() as int
                    == backward_line(start, k0, len));
            }
        }
    }

    proof fn lemma_scan_backward(&self, start: int, q: Seq<char>, k: int)
        requires
            1 <= k,
            0 <= start,
            self.lines@.len() <= usize::MAX,
        ensures
            self.scan_backward(start, q, k) is None <==> forall|j: int|
                k <= j <= self.lines@.len() ==> !#[trigger] self.matches_at(
                    backward_line(start, j, self.lines@.len() as int),
                    q,
                ),
            self.scan_backward(start, q, k) matches Some(i) ==> self.matches_at(i as int, q),
        decreases self.lines@.len() + 1 - k,
    {
        let len = self.lines@.len() as int;
        if k <= len {
            vstd::arithmetic::div_mod::lemma_mod_pos_bound(start + len - k, len);
            self.lemma_scan_backward(start, q, k + 1);
        }
    }

    proof fn lemma_mirrored_step(start: int, len: int, k: int)
        requires
            0 <= start,
            0 < len,
            1 <= k <= len,
        ensures
            len - 1 - forward_line(len - 1 - start % len, k, len) == backward_line(start, k, len),
            0 <= backward_line(start, k, len) < len,
    {
        let a = start % len;
        vstd::arithmetic::div_mod::lemma_fundamental_div_mod(start, len);
        vstd::arithmetic::div_mod::lemma_mod_pos_bound(start, len);
        let q = start / len;
        let y = (start + len - k) % len;
        vstd::arithmetic::div_mod::lemma_mod_pos_bound(start + len - k, len);
        vstd::arithmetic::div_mod::lemma_fundamental_div_mod(start + len - k, len);
        let p = (start + len - k) / len;
        // (len - 1 - a + k) == (len - 1 - y) + len * m for m = 1 + q - p
        let m = 1 + q - p;
        assert((len - 1 - a + k) == (len - 1 - y) + len * m) by (nonlinear_arith)
            requires
                start == len * q + a,
                start + len - k == len * p + y,
                m == 1 + q - p,
        ;
        vstd::arithmetic::div_mod::lemma_fundamental_div_mod_converse(len - 1 - a + k, len, m, len - 1 - y);
    }

    /// Searching backward through a book finds, mirrored, what searching
    /// forward through the book with its lines in reverse order finds from
    /// the mirrored line: the same line, counted from the other end.
    pub proof fn lemma_backward_is_mirrored_forward(&self, rev: &Book, start: int, q: Seq<char>, k: int)
        requires
            0 <= start,
            1 <= k,
            self.lines@.len() <= usize::MAX,
            rev.lines@.len() == self.lines@.len(),
            self.lines@.len() > 0,
            forall|i: int|
                0 <= i < self.lines@.len() ==> #[trigger] rev.lowercase_lines@[i] == self.lowercase_lines@[
                    self.lines@.len() - 1 - i],
        ensures
            ({
                let len = self.lines@.len() as int;
                let mirrored = len - 1 - start % len;
                match rev.scan_forward(mirrored, q, k) {
                    Some(i) => self.scan_backward(start, q, k) == Some((len - 1 - i) as usize),
                    None => self.scan_backward(start, q, k) is None,
                }
            }),
        decreases self.lines@.len() + 1 - k,
    {
        let len = self.lines@.len() as int;
        let mirrored = len - 1 - start % len;
        vstd::arithmetic::div_mod::lemma_mod_pos_bound(start, len);
        if k <= len {
            Self::lemma_mirrored_step(start, len, k);
            let f = forward_line(mirrored, k, len);
            vstd::arithmetic::div_mod::lemma_mod_pos_bound(mirrored + k, len);
            assert(rev.lowercase_lines@[f] == self.lowercase_lines@[len - 1 - f]);
            assert(rev.matches_at(f, q) == self.matches_at(backward_line(start, k, len), q));
            self.lemma_backward_is_mirrored_forward(rev, start, q, k + 1);
        }
    }

    /// Searching forward and searching backward from the same line find
    /// nothing in the same cases, exactly when no line holds the query;
    /// and a line either of them finds holds it.
    pub proof fn lemma_search_directions_agree(&self, start: int, q: Seq<char>)
        requires
            0 <= start,
            self.lines@.len() <= usize::MAX,
        ensures
            (self.scan_forward(start, q, 1) is None) == (self.scan_backward(start, q, 1) is None),
            self.scan_forward(start, q, 1) is None <==> forall|i: int|
                0 <= i < self.lines@.len() ==> !#[trigger] self.matches_at(i, q),
            self.scan_forward(start, q, 1) matches Some(i) ==> self.matches_at(i as int, q),
            self.scan_backward(start, q, 1) matches Some(i) ==> self.matches_at(i as int, q),
    {
        let len = self.lines@.len() as int;
        self.lemma_scan_forward(start, q, 1);
        self.lemma_scan_backward(start, q, 1);
        if len > 0 {
            assert forall|j: int| 1 <= j <= len implies 0 <= #[trigger] forward_line(start, j, len) < len
                && 0 <= backward_line(start, j, len) < len by {
                vstd::arithmetic::div_mod::lemma_mod_pos_bound(start + j, len);
                vstd::arithmetic::div_mod::lemma_mod_pos_bound(start + len - j, len);
            }
            if forall|i: int| 0 <= i < len ==> !#[trigger] self.matches_at(i, q) {
                assert forall|j: int| 1 <= j <= len implies !#[trigger] self.matches_at(
                    forward_line(start, j, len),
                    q,
                ) by {
                    assert(0 <= forward_line(start, j, len) < len);
                }
                assert forall|j: int| 1 <= j <= len implies !#[trigger] self.matches_at(
                    backward_line(start, j, len),
                    q,
                ) by {
                    assert(0 <= backward_line(start, j, len) < len);
                }
            }
            if self.scan_forward(start, q, 1) is None {
                assert forall|i: int| 0 <= i < len implies !#[trigger] self.matches_at(i, q) by {
                    let j = lemma_forward_reaches(start, len, i);
                    assert(!self.matches_at(forward_line(start, j, len), q));
                }
            }
            if self.scan_backward(start, q, 1) is None {
                assert forall|i: int| 0 <= i < len implies !#[trigger] self.matches_at(i, q) by {
                    let j = lemma_backward_reaches(start, len, i);
                    assert(!self.matches_at(backward_line(start, j, len), q));
                }
            }
        }
    }
}

// ---------------------------------------------------------------------
// Chapter headings
// ---------------------------------------------------------------------

/// A numbered chapter, section, volume or part in Chinese: 第…章 and the like.
pub const NUMBERED_HEADING: &'static str = r"^[\s]*第[\s]*[一二三四五六七八九十零百千万亿\d]+[\s]*[章回节卷篇][\s]*.*$";

/// An English chapter heading, in any case: "Chapter 12 …".
pub const ENGLISH_HEADING: &'static str = r"^(?i)[\s]*chapter[\s]*\d+.*$";

/// A volume or part heading that begins with 卷 or 篇.
pub const VOLUME_HEADING: &'static str = r"^[\s]*[卷篇][\s]*[一二三四五六七八九十零百千万亿\d]+[\s]*.*$";

/// A named section: prologue, preface, main text, extra, afterword, epilogue.
pub const NAMED_HEADING: &'static str = r"^[\s]*(楔子|序章|序[言篇]|前言|引子|引言|正文|番外|后记|尾声|后序|跋)[\s]*.*$";

/// The widest line, in columns, that can be a heading.
pub const MAX_HEADING_COLUMNS: usize = 60;

/// Whether `line` matches one of the four heading patterns.
pub open spec fn matches_heading_pattern(line: Seq<char>) -> bool {
    ||| regex_match_outcome(NUMBERED_HEADING@, line) == Some(true)
    ||| regex_match_outcome(ENGLISH_HEADING@, line) == Some(true)
    ||| regex_match_outcome(VOLUME_HEADING@, line) == Some(true)
    ||| regex_match_outcome(NAMED_HEADING@, line) == Some(true)
}

/// Whether `line` is taken for a chapter heading: at most 60 columns wide
/// and matching one of the heading patterns.
pub open spec fn is_heading(line: Seq<char>) -> bool {
    text_columns(line) <= MAX_HEADING_COLUMNS && matches_heading_pattern(line)
}

/// The headings among the first `n` lines, each as (title, line index),
/// in the order of the lines.
pub open spec fn headings_upto(lines: Seq<Seq<char>>, n: nat) -> Seq<(Seq<char>, nat)>
    decreases n,
{
    if n == 0 {
        seq![]
    } else {
        let prev = headings_upto(lines, (n - 1) as nat);
        if is_heading(lines[n - 1]) {
            prev.push((lines[n - 1], (n - 1) as nat))
        } else {
            prev
        }
    }
}

/// The chapter list is exactly the heading lines, in order: each entry
/// is a heading line, titled with that line; the line numbers increase;
/// and no heading line is left out.
pub proof fn lemma_headings_are_the_heading_lines(lines: Seq<Seq<char>>, n: nat)
    requires
        n <= lines.len(),
    ensures
        forall|k: int|
            0 <= k < headings_upto(lines, n).len() ==> {
                let h = #[trigger] headings_upto(lines, n)[k];
                &&& h.1 < n
                &&& h.0 == lines[h.1 as int]
                &&& is_heading(h.0)
            },
        forall|a: int, b: int|
            0 <= a < b < headings_upto(lines, n).len() ==> #[trigger] headings_upto(lines, n)[a].1
                < #[trigger] headings_upto(lines, n)[b].1,
        forall|i: int|
            0 <= i < n && #[trigger] is_heading(lines[i]) ==> exists|k: int|
                0 <= k < headings_upto(lines, n).len() && #[trigger] headings_upto(lines, n)[k].1
                    == i,
    decreases n,
{
    if n > 0 {
        let m = (n - 1) as nat;
        lemma_headings_are_the_heading_lines(lines, m);
        let prev = headings_upto(lines, m);
        let hs = headings_upto(lines, n);
        if is_heading(lines[m as int]) {
            assert(hs == prev.push((lines[m as int], m)));
            assert forall|i: int| 0 <= i < n && #[trigger] is_heading(lines[i]) implies exists|k: int|
                0 <= k < hs.len() && #[trigger] hs[k].1 == i by {
                if i < m {
                    let k = choose|k: int| 0 <= k < prev.len() && #[trigger] prev[k].1 == i;
                    assert(hs[k] == prev[k]);
                } else {
                    assert(hs[prev.len() as int].1 == i);
                }
            }
            assert forall|a: int, b: int| 0 <= a < b < hs.len() implies #[trigger] hs[a].1
                < #[trigger] hs[b].1 by {
                if b < prev.len() {
                    assert(hs[a] == prev[a] && hs[b] == prev[b]);
                } else {
                    assert(hs[a] == prev[a]);
                }
            }
            assert forall|k: int| 0 <= k < hs.len() implies {
                let h = #[trigger] hs[k];
                &&& h.1 < n
                &&& h.0 == lines[h.1 as int]
                &&& is_heading(h.0)
            } by {
                if k < prev.len() {
                    assert(hs[k] == prev[k]);
                }
            }
        } else {
            assert(hs == prev);
            assert forall|i: int| 0 <= i < n && #[trigger] is_heading(lines[i]) implies exists|k: int|
                0 <= k < hs.len() && #[trigger] hs[k].1 == i by {
                let k = choose|k: int| 0 <= k < prev.len() && #[trigger] prev[k].1 == i;
            }
        }
    }
}

/// A chapter as (title, line index).
pub open spec fn chapter_view(c: Chapter) -> (Seq<char>, nat) {
    (c.title@, c.line_index as nat)
}

/// Whether the columns of `v` add up to at most `limit`.
pub fn columns_within(v: &[char], limit: usize) -> (r: bool)
    ensures
        r == (text_columns(v@) <= limit),
{
    let mut sum: usize = 0;
    let mut i: usize = 0;
    while i < v.len()
        invariant
            i <= v@.len(),
            sum <= limit,
            sum == text_columns(v@.take(i as int)),
        decreases v@.len() - i,
    {
        let w = columns_of(v[i]);
        proof {
            assert(v@.take(i + 1).drop_last() =~= v@.take(i as int));
        }
        if w > limit - sum {
            proof {
                lemma_text_columns_prefix(v@, i + 1);
            }
            return false;
        }
        sum = sum + w;
        i = i + 1;
    }
    assert(v@.take(v@.len() as int) =~= v@);
    true
}

/// The columns of a prefix never exceed those of the whole.
pub proof fn lemma_text_columns_prefix(s: Seq<char>, n: int)
    requires
        0 <= n <= s.len(),
    ensures
        text_columns(s.take(n)) <= text_columns(s),
    decreases s.len() - n,
{
    if n < s.len() {
        lemma_text_columns_prefix(s, n + 1);
        assert(s.take(n + 1).drop_last() =~= s.take(n));
    } else {
        assert(s.take(n) =~= s);
    }
}

/// The chapter headings among `lines`, in order: lines of at most 60
/// columns that match one of the heading patterns.
pub fn parse_chapters(lines: &[String]) -> (r: Vec<Chapter>)
    ensures
        r@.map_values(|c: Chapter| chapter_view(c)) == headings_upto(
            lines.deep_view(),
            lines@.len(),
        ),
{
    let numbered = regex_match_each(NUMBERED_HEADING, lines);
    let english = regex_match_each(ENGLISH_HEADING, lines);
    let volume = regex_match_each(VOLUME_HEADING, lines);
    let named = regex_match_each(NAMED_HEADING, lines);
    let ghost ls = lines.deep_view();
    let mut chapters: Vec<Chapter> = Vec::new();
    let mut i: usize = 0;
    while i < lines.len()
        invariant
            i <= lines@.len(),
            ls == lines.deep_view(),
            numbered@.len() == lines@.len(),
            english@.len() == lines@.len(),
            volume@.len() == lines@.len(),
            named@.len() == lines@.len(),
            forall|k: int|
                0 <= k < lines@.len() ==> {
                    &&& #[trigger] numbered@[k] == regex_match_outcome(NUMBERED_HEADING@, lines@[k]@)
                    &&& english@[k] == regex_match_outcome(ENGLISH_HEADING@, lines@[k]@)
                    &&& volume@[k] == regex_match_outcome(VOLUME_HEADING@, lines@[k]@)
                    &&& named@[k] == regex_match_outcome(NAMED_HEADING@, lines@[k]@)
                },
            chapters@.map_values(|c: Chapter| chapter_view(c)) == headings_upto(ls, i as nat),
        decreases lines@.len() - i,
    {
        let line = &lines[i];
        let cs = chars_of(line.as_str());
        let narrow = columns_within(&cs, MAX_HEADING_COLUMNS);
        let hit = matches!(numbered[i], Some(true)) || matches!(english[i], Some(true))
            || matches!(volume[i], Some(true)) || matches!(named[i], Some(true));
        let ghost before = chapters@;
        proof {
            assert(ls[i as int] == lines@[i as int]@);
            assert(numbered@[i as int] == regex_match_outcome(NUMBERED_HEADING@, lines@[i as int]@));
        }
        if narrow && hit {
            chapters.push(Chapter { title: line.clone(), line_index: i });
            proof {
                assert(chapters@.map_values(|c: Chapter| chapter_view(c)) =~= before.map_values(
                    |c: Chapter| chapter_view(c),
                ).push((ls[i as int], i as nat)));
            }
        }
        i = i + 1;
    }
    chapters
}

// ---------------------------------------------------------------------
// Kinds of book file
// ---------------------------------------------------------------------

/// The kinds of file the reader opens, told apart by the file's
/// extension.
#[derive(Debug, Clone, Copy, PartialEq, Eq, Structural)]
pub enum BookFormat {
    /// A Mobipocket or Kindle book (`mobi`, `azw`, `azw3`).
    Mobi,
    /// A PDF document.
    Pdf,
    /// An EPUB book.
    Epub,
    /// Anything else, read as text.
    Text,
}

/// The format of a file whose extension, in lower case, is `ext`.
pub open spec fn format_of_extension(ext: Seq<char>) -> BookFormat {
    if ext == "mobi"@ || ext == "azw"@ || ext == "azw3"@ {
        BookFormat::Mobi
    } else if ext == "pdf"@ {
        BookFormat::Pdf
    } else if ext == "epub"@ {
        BookFormat::Epub
    } else {
        BookFormat::Text
    }
}

/// The format of the file at `path`: that of its extension in lower case
/// (none counting as an empty one).
pub open spec fn format_of_path(path: Seq<char>) -> BookFormat {
    let ext = match extension_outcome(path) {
        Some(e) => e,
        None => seq![],
    };
    format_of_extension(lowercase(ext))
}

impl BookFormat {
    /// The format of a file whose lower-case extension is `ext`.
    pub fn of_extension(ext: &str) -> (r: BookFormat)
        ensures
            r == format_of_extension(ext@),
    {
        if str_eq(ext, "mobi") || str_eq(ext, "azw") || str_eq(ext, "azw3") {
            BookFormat::Mobi
        } else if str_eq(ext, "pdf") {
            BookFormat::Pdf
        } else if str_eq(ext, "epub") {
            BookFormat::Epub
        } else {
            BookFormat::Text
        }
    }

    /// The format of the file at `path`, as `format_of_path` says.
    pub fn of_path(path: &str) -> (r: BookFormat)
        ensures
            r == format_of_path(path@),
            extension_outcome(path@) is None ==> r == BookFormat::Text,
    {
        let ext = match extension_of(path) {
            Some(e) => e,
            None => String::new(),
        };
        let lower = to_lowercase(ext.as_str());
        proof {
            reveal_strlit("mobi");
            reveal_strlit("azw");
            reveal_strlit("azw3");
            reveal_strlit("pdf");
            reveal_strlit("epub");
            if extension_outcome(path@) is None {
                assert(lower@ =~= Seq::<char>::empty());
            }
        }
        Self::of_extension(lower.as_str())
    }
}

// ---------------------------------------------------------------------
// Building a book from its text
// ---------------------------------------------------------------------

/// Why a text gives no book.
#[derive(Debug, Clone, Copy, PartialEq, Eq, Structural)]
pub enum LoadError {
    /// The text holds nothing but blank lines.
    EmptyContent,
    /// No section of an e-book holds any text.
    EmptyEpub,
}

impl LoadError {
    /// The message shown to the reader.
    pub fn message(&self) -> (r: String)
        ensures
            *self == LoadError::EmptyContent ==> r@ == "文件内容为空或仅包含空白行"@,
            *self == LoadError::EmptyEpub ==> r@ == "EPUB 文件内容为空"@,
    {
        match self {
            LoadError::EmptyContent => "文件内容为空或仅包含空白行".to_owned(),
            LoadError::EmptyEpub => "EPUB 文件内容为空".to_owned(),
        }
    }
}

/// The lines kept for reading: each line trimmed, blank ones dropped.
pub open spec fn kept_lines(ls: Seq<Seq<char>>) -> Seq<Seq<char>>
    decreases ls.len(),
{
    if ls.len() == 0 {
        seq![]
    } else {
        let prev = kept_lines(ls.drop_last());
        let t = trim(ls.last());
        if t.len() > 0 {
            prev.push(t)
        } else {
            prev
        }
    }
}

/// The lines of a book read from the text `text`.
pub open spec fn book_lines(text: Seq<char>) -> Seq<Seq<char>> {
    kept_lines(lines_of(text))
}

/// The trimmed, non-blank lines of `text`.
pub fn content_lines(text: &str) -> (r: Vec<String>)
    ensures
        r.deep_view() == book_lines(text@),
{
    let cs = chars_of(text);
    let bounds = line_bounds(&cs);
    let ghost ls = lines_of(cs@);
    let mut out: Vec<String> = Vec::new();
    let mut i: usize = 0;
    while i < bounds.len()
        invariant
            i <= bounds@.len(),
            ls == lines_of(cs@),
            bounds@.len() == ls.len(),
            forall|k: int|
                0 <= k < bounds@.len() ==> {
                    &&& #[trigger] bounds@[k].0 <= bounds@[k].1 <= cs@.len()
                    &&& cs@.subrange(bounds@[k].0 as int, bounds@[k].1 as int) == ls[k]
                },
            out.deep_view() == kept_lines(ls.take(i as int)),
        decreases bounds@.len() - i,
    {
        let (a, b) = bounds[i];
        let (x, y) = trim_bounds(&cs, a, b);
        let ghost before = out.deep_view();
        proof {
            assert(ls.take(i + 1).drop_last() =~= ls.take(i as int));
            assert(ls.take(i + 1).last() == ls[i as int]);
            assert(bounds@[i as int].0 <= bounds@[i as int].1);
        }
        if x < y {
            let s = string_of_range(&cs, x, y);
            out.push(s);
            assert(out.deep_view() =~= before.push(cs@.subrange(x as int, y as int)));
        }
        i = i + 1;
    }
    assert(ls.take(ls.len() as int) =~= ls);
    out
}

/// The lower-cased copy of each of `lines`.
pub fn lowercase_all(lines: &Vec<String>) -> (r: Vec<String>)
    ensures
        r@.len() == lines@.len(),
        forall|i: int| 0 <= i < lines@.len() ==> #[trigger] r@[i]@ == lowercase(lines@[i]@),
{
    let mut out: Vec<String> = Vec::new();
    let mut i: usize = 0;
    while i < lines.len()
        invariant
            i <= lines@.len(),
            out@.len() == i,
            forall|k: int| 0 <= k < i ==> #[trigger] out@[k]@ == lowercase(lines@[k]@),
        decreases lines@.len() - i,
    {
        out.push(to_lowercase(lines[i].as_str()));
        i = i + 1;
    }
    out
}

impl Book {
    /// Whether the lower-case copies and the chapters agree with the lines.
    pub open spec fn well_formed(&self) -> bool {
        &&& self.lowercase_lines@.len() == self.lines@.len()
        &&& forall|i: int|
            0 <= i < self.lines@.len() ==> #[trigger] self.lowercase_lines@[i]@ == lowercase(
                self.lines@[i]@,
            )
        &&& self.chapters@.map_values(|c: Chapter| chapter_view(c)) == headings_upto(
            self.lines.deep_view(),
            self.lines@.len(),
        )
    }

    /// The book whose text is `text`, read from `file_path`: its trimmed
    /// non-blank lines, their lower-case copies and its chapter headings.
    /// A text of blank lines only gives `EmptyContent`.
    pub fn from_text(text: &str, file_path: String) -> (r: Result<Book, LoadError>)
        ensures
            r is Err <==> book_lines(text@).len() == 0,
            r matches Err(e) ==> e == LoadError::EmptyContent,
            r matches Ok(b) ==> {
                &&& b.lines.deep_view() == book_lines(text@)
                &&& b.file_path@ == file_path@
                &&& b.well_formed()
            },
    {
        let lines = content_lines(text);
        if lines.len() == 0 {
            return Err(LoadError::EmptyContent);
        }
        let lowercase_lines = lowercase_all(&lines);
        let chapters = parse_chapters(lines.as_slice());
        Ok(Book { lines, lowercase_lines, chapters, file_path })
    }
}

} // verus!
