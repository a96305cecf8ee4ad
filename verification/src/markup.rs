//! Turning extracted document text into plain reading text: HTML from
//! e-books, text pulled out of PDF files, and the joining of e-book
//! sections.
use vstd::prelude::*;
use crate::decode::decodable_size;
use crate::decode::decode_text;
use crate::decode::decoded_text;
use crate::pattern::regex_replace_all;
use crate::reader::LoadError;
use crate::pattern::regex_replace_outcome;
use crate::text::append_chars;
use crate::text::chars_of;
use crate::text::line_bounds;
use crate::text::lines_of;
use crate::text::replace_all;
use crate::text::replace_chars;
use crate::text::string_of;
use crate::text::trim;
use crate::text::trim_bounds;
use crate::text::no_line_feed;
use crate::text::lemma_lines_have_no_line_feed;
use crate::text::lemma_trim_keeps_no_line_feed;

verus! {

broadcast use vstd::string::group_string_axioms;

// ---------------------------------------------------------------------
// Folding lines back into text
// ---------------------------------------------------------------------

/// One step of folding trimmed lines into text, with whether the last
/// thing written was a blank-line break: a blank line writes one line
/// feed unless the previous one was blank too, so that a run of blank
/// lines leaves one blank line; any other line is written after a line
/// feed, and after a run of blank lines after a second one (which makes
/// the blank line), unless nothing is written yet or the run was at the
/// very start (where its line feed already is the blank line).
pub open spec fn fold_step(st: (Seq<char>, bool), t: Seq<char>) -> (Seq<char>, bool) {
    if t.len() == 0 {
        if !st.1 {
            (st.0.push('\n'), true)
        } else {
            st
        }
    } else {
        let before = if (st.1 && st.0.len() > 1) || (!st.1 && st.0.len() > 0) {
            st.0.push('\n')
        } else {
            st.0
        };
        (before + t, false)
    }
}

/// The text made of the lines `ls`, each trimmed, runs of blank lines
/// folded into one line feed.
pub open spec fn folded_lines(ls: Seq<Seq<char>>) -> (Seq<char>, bool)
    decreases ls.len(),
{
    if ls.len() == 0 {
        (seq![], false)
    } else {
        fold_step(folded_lines(ls.drop_last()), trim(ls.last()))
    }
}

/// Whether a trimmed line of PDF text is dropped: made of ASCII digits
/// only (a page number, or nothing at all) or starting like a web address.
pub open spec fn is_pdf_noise(t: Seq<char>) -> bool {
    ||| forall|i: int| 0 <= i < t.len() ==> '0' <= #[trigger] t[i] <= '9'
    ||| crate::text::starts_with(t, "http://"@)
    ||| crate::text::starts_with(t, "https://"@)
    ||| crate::text::starts_with(t, "www."@)
}

/// The text made of the lines `ls` of PDF text, each trimmed, noise lines
/// dropped, and folded as `fold_step` does.
pub open spec fn folded_pdf_lines(ls: Seq<Seq<char>>) -> (Seq<char>, bool)
    decreases ls.len(),
{
    if ls.len() == 0 {
        (seq![], false)
    } else {
        let prev = folded_pdf_lines(ls.drop_last());
        let t = trim(ls.last());
        if is_pdf_noise(t) {
            prev
        } else {
            fold_step(prev, t)
        }
    }
}

/// `ls` joined with line feeds between them.
pub open spec fn join_lines(ls: Seq<Seq<char>>) -> Seq<char>
    decreases ls.len(),
{
    if ls.len() == 0 {
        seq![]
    } else if ls.len() == 1 {
        ls[0]
    } else {
        join_lines(ls.drop_last()).push('\n') + ls.last()
    }
}

/// Whether `t` holds a character other than an ASCII digit.
pub open spec fn has_non_digit(t: Seq<char>) -> bool {
    exists|j: int| 0 <= j < t.len() && !('0' <= #[trigger] t[j] <= '9')
}

/// The trimmed lines of PDF text that cleaning keeps are exactly, in
/// their order, those that hold a character other than an ASCII digit
/// and do not start with `http://`, `https://` or `www.`: a line of
/// digits alone (a page number) goes, a line that merely starts with a
/// digit stays.
pub proof fn lemma_pdf_keeps_lines_with_text(ls: Seq<Seq<char>>)
    ensures
        pdf_kept_lines(ls) == ls.map_values(|l: Seq<char>| trim(l)).filter(
            |t: Seq<char>|
                has_non_digit(t) && !crate::text::starts_with(t, "http://"@)
                    && !crate::text::starts_with(t, "https://"@) && !crate::text::starts_with(
                    t,
                    "www."@,
                ),
        ),
    decreases ls.len(),
{
    let keep = |t: Seq<char>|
        has_non_digit(t) && !crate::text::starts_with(t, "http://"@) && !crate::text::starts_with(
            t,
            "https://"@,
        ) && !crate::text::starts_with(t, "www."@);
    let m = ls.map_values(|l: Seq<char>| trim(l));
    reveal(Seq::filter);
    if ls.len() == 0 {
        assert(m =~= Seq::<Seq<char>>::empty());
    } else {
        lemma_pdf_keeps_lines_with_text(ls.drop_last());
        assert(m.drop_last() =~= ls.drop_last().map_values(|l: Seq<char>| trim(l)));
        let t = trim(ls.last());
        assert(m.last() == t);
        assert(is_pdf_noise(t) == !keep(t)) by {
            if !has_non_digit(t) {
                assert forall|i: int| 0 <= i < t.len() implies '0' <= #[trigger] t[i] <= '9' by {
                    if !('0' <= t[i] <= '9') {
                        assert(has_non_digit(t));
                    }
                }
            }
        }
    }
}

/// The trimmed lines of `ls` that are not PDF noise.
pub open spec fn pdf_kept_lines(ls: Seq<Seq<char>>) -> Seq<Seq<char>>
    decreases ls.len(),
{
    if ls.len() == 0 {
        seq![]
    } else {
        let prev = pdf_kept_lines(ls.drop_last());
        let t = trim(ls.last());
        if is_pdf_noise(t) {
            prev
        } else {
            prev.push(t)
        }
    }
}

/// Cleaned PDF text is the kept lines joined by line feeds: a blank line
/// counts as noise, so no blank line ever reaches the fold.
pub proof fn lemma_pdf_text_is_joined_lines(ls: Seq<Seq<char>>)
    ensures
        folded_pdf_lines(ls).0 == join_lines(pdf_kept_lines(ls)),
        !folded_pdf_lines(ls).1,
        forall|i: int|
            0 <= i < pdf_kept_lines(ls).len() ==> #[trigger] pdf_kept_lines(ls)[i].len() > 0,
    decreases ls.len(),
{
    if ls.len() > 0 {
        lemma_pdf_text_is_joined_lines(ls.drop_last());
        let prev = pdf_kept_lines(ls.drop_last());
        let t = trim(ls.last());
        if !is_pdf_noise(t) {
            assert(t.len() > 0);
            let k = prev.push(t);
            assert(k.drop_last() =~= prev);
            if prev.len() == 0 {
                assert(folded_pdf_lines(ls.drop_last()).0.len() == 0);
                assert(Seq::<char>::empty() + t =~= t);
            } else {
                assert(join_lines(prev).len() > 0) by {
                    lemma_join_nonempty(prev);
                }
            }
            assert forall|i: int| 0 <= i < k.len() implies #[trigger] k[i].len() > 0 by {
                if i < prev.len() {
                    assert(k[i] == prev[i]);
                }
            }
        }
    }
}

proof fn lemma_join_nonempty(ls: Seq<Seq<char>>)
    requires
        ls.len() > 0,
        forall|i: int| 0 <= i < ls.len() ==> #[trigger] ls[i].len() > 0,
    ensures
        join_lines(ls).len() > 0,
    decreases ls.len(),
{
    if ls.len() > 1 {
        assert(ls.last().len() > 0);
    } else {
        assert(ls[0].len() > 0);
    }
}

/// Whether `v[a..b]` is made of ASCII digits only.
fn all_ascii_digits(v: &[char], a: usize, b: usize) -> (r: bool)
    requires
        a <= b <= v@.len(),
    ensures
        r == forall|i: int|
            0 <= i < b - a ==> '0' <= #[trigger] v@.subrange(a as int, b as int)[i] <= '9',
{
    let mut i = a;
    while i < b
        invariant
            a <= i <= b <= v@.len(),
            forall|k: int| a <= k < i ==> '0' <= #[trigger] v@[k] <= '9',
        decreases b - i,
    {
        if !('0' <= v[i] && v[i] <= '9') {
            assert(v@.subrange(a as int, b as int)[i - a] == v@[i as int]);
            return false;
        }
        i = i + 1;
    }
    assert forall|k: int| 0 <= k < b - a implies '0' <= #[trigger] v@.subrange(
        a as int,
        b as int,
    )[k] <= '9' by {
        assert(v@.subrange(a as int, b as int)[k] == v@[a + k]);
    }
    true
}

/// Whether `v[a..b]` begins with `p`.
fn range_starts_with(v: &[char], a: usize, b: usize, p: &str) -> (r: bool)
    requires
        a <= b <= v@.len(),
    ensures
        r == crate::text::starts_with(v@.subrange(a as int, b as int), p@),
{
    let pc = chars_of(p);
    let s = crate::text::copy_range(v, a, b);
    let r = crate::text::occurs_at_exec(&s, &pc, 0);
    proof {
        if r {
            assert(s@.take(pc@.len() as int) =~= s@.subrange(0, pc@.len() as int));
        } else if pc@.len() <= s@.len() {
            assert(s@.take(pc@.len() as int) =~= s@.subrange(0, pc@.len() as int));
        }
    }
    r
}

/// Applies `fold_step` to `out`/`blank` with the trimmed line `v[a..b]`.
fn push_folded(out: &mut Vec<char>, blank: &mut bool, v: &[char], a: usize, b: usize)
    requires
        a <= b <= v@.len(),
    ensures
        (final(out)@, *final(blank)) == fold_step(
            (old(out)@, *old(blank)),
            v@.subrange(a as int, b as int),
        ),
{
    if a == b {
        if !*blank {
            out.push('\n');
            *blank = true;
        }
    } else {
        if (*blank && out.len() > 1) || (!*blank && out.len() > 0) {
            out.push('\n');
        }
        let t = crate::text::copy_range(v, a, b);
        append_chars(out, &t);
        *blank = false;
    }
}

/// `text`'s lines trimmed and folded by `fold_step`.
fn fold_text_lines(text: &[char]) -> (r: Vec<char>)
    ensures
        r@ == folded_lines(lines_of(text@)).0,
{
    let bounds = line_bounds(text);
    let ghost ls = lines_of(text@);
    let mut out: Vec<char> = Vec::new();
    let mut blank = false;
    let mut i: usize = 0;
    while i < bounds.len()
        invariant
            i <= bounds@.len(),
            ls == lines_of(text@),
            bounds@.len() == ls.len(),
            forall|k: int|
                0 <= k < bounds@.len() ==> {
                    &&& #[trigger] bounds@[k].0 <= bounds@[k].1 <= text@.len()
                    &&& text@.subrange(bounds@[k].0 as int, bounds@[k].1 as int) == ls[k]
                },
            (out@, blank) == folded_lines(ls.take(i as int)),
        decreases bounds@.len() - i,
    {
        let (a, b) = bounds[i];
        proof {
            assert(ls.take(i + 1).drop_last() =~= ls.take(i as int));
            assert(ls.take(i + 1).last() == ls[i as int]);
            assert(bounds@[i as int].0 <= bounds@[i as int].1);
        }
        let (x, y) = trim_bounds(text, a, b);
        push_folded(&mut out, &mut blank, text, x, y);
        i = i + 1;
    }
    assert(ls.take(ls.len() as int) =~= ls);
    out
}

/// Cleans text extracted from a PDF: each line trimmed, lines of digits
/// only (page numbers, and blank lines) and lines that start like web
/// addresses dropped, the rest joined by line feeds.
pub fn clean_pdf_text(text: &str) -> (r: String)
    ensures
        r@ == folded_pdf_lines(lines_of(text@)).0,
        r@ == join_lines(pdf_kept_lines(lines_of(text@))),
{
    let cs = chars_of(text);
    let bounds = line_bounds(&cs);
    let ghost ls = lines_of(cs@);
    let mut out: Vec<char> = Vec::new();
    let mut blank = false;
    let mut i: usize = 0;
    while i < bounds.len()
        invariant
            i <= bounds@.len(),
            ls == lines_of(cs@),
            bounds@.len() == ls.len(),
            forall|k: int|
                0 <= k < bounds@.len() ==> {
                    &&& #[trigger] bounds@[k].0 <= bounds@[k].1 <= cs@.len()
                    &&& cs@.subrange(bounds@[k].0 as int, bounds@[k].1 as int) == ls[k]
                },
            (out@, blank) == folded_pdf_lines(ls.take(i as int)),
        decreases bounds@.len() - i,
    {
        let (a, b) = bounds[i];
        proof {
            assert(ls.take(i + 1).drop_last() =~= ls.take(i as int));
            assert(ls.take(i + 1).last() == ls[i as int]);
            assert(bounds@[i as int].0 <= bounds@[i as int].1);
        }
        let (x, y) = trim_bounds(&cs, a, b);
        let noise = all_ascii_digits(&cs, x, y) || range_starts_with(&cs, x, y, "http://")
            || range_starts_with(&cs, x, y, "https://") || range_starts_with(&cs, x, y, "www.");
        if !noise {
            push_folded(&mut out, &mut blank, &cs, x, y);
        }
        i = i + 1;
    }
    assert(ls.take(ls.len() as int) =~= ls);
    proof {
        lemma_pdf_text_is_joined_lines(ls);
    }
    string_of(&out)
}

/// Whether `s` keeps at most one blank line in a row: no three line
/// feeds in a row, and no two at the start.
pub open spec fn single_blank_lines(s: Seq<char>) -> bool {
    &&& forall|i: int|
        0 <= i < s.len() - 2 ==> !(#[trigger] s[i] == '\n' && s[i + 1] == '\n' && s[i + 2] == '\n')
    &&& !(s.len() >= 2 && s[0] == '\n' && s[1] == '\n')
}

/// What folding keeps true: at most one blank line in a row; after a
/// blank line the text ends in exactly one line feed, and after any other
/// line in none.
pub open spec fn fold_invariant(st: (Seq<char>, bool)) -> bool {
    &&& single_blank_lines(st.0)
    &&& st.1 ==> st.0.len() > 0 && st.0.last() == '\n' && (st.0.len() == 1 || st.0[st.0.len() - 2]
        != '\n')
    &&& !st.1 && st.0.len() > 0 ==> st.0.last() != '\n'
}

proof fn lemma_fold_step_invariant(st: (Seq<char>, bool), t: Seq<char>)
    requires
        fold_invariant(st),
        no_line_feed(t),
    ensures
        fold_invariant(fold_step(st, t)),
{
    let s0 = st.0;
    let r = fold_step(st, t);
    if t.len() == 0 {
        if !st.1 {
            assert forall|i: int| 0 <= i < r.0.len() - 2 implies !(#[trigger] r.0[i] == '\n' && r.0[i
                + 1] == '\n' && r.0[i + 2] == '\n') by {
                if i + 2 < s0.len() {
                    assert(r.0[i] == s0[i] && r.0[i + 1] == s0[i + 1] && r.0[i + 2] == s0[i + 2]);
                } else {
                    assert(r.0[i + 1] == s0.last());
                }
            }
            if s0.len() >= 1 {
                assert(r.0[0] == s0[0]);
            }
        }
    } else {
        let before = if (st.1 && s0.len() > 1) || (!st.1 && s0.len() > 0) {
            s0.push('\n')
        } else {
            s0
        };
        assert(r.0 == before + t);
        assert forall|i: int| 0 <= i < r.0.len() - 2 implies !(#[trigger] r.0[i] == '\n' && r.0[i
            + 1] == '\n' && r.0[i + 2] == '\n') by {
            if i + 2 < s0.len() {
                assert(r.0[i] == s0[i] && r.0[i + 1] == s0[i + 1] && r.0[i + 2] == s0[i + 2]);
            } else if i + 2 < before.len() {
                assert(before.len() == s0.len() + 1);
                if i + 1 < s0.len() {
                    assert(r.0[i] == s0[i] && r.0[i + 1] == s0[i + 1]);
                    if st.1 {
                        assert(s0[s0.len() - 2] != '\n');
                    } else {
                        assert(s0.last() != '\n');
                    }
                } else {
                    assert(r.0[i] == s0.last());
                }
            } else {
                assert(r.0[i + 2] == t[i + 2 - before.len()]);
            }
        }
        if r.0.len() >= 2 {
            if before.len() == 0 {
                assert(r.0[0] == t[0]);
            } else if before.len() == 1 {
                assert(r.0[1] == t[0]);
            } else {
                assert(r.0[0] == before[0] && r.0[1] == before[1]);
                if s0.len() >= 2 {
                    assert(before[0] == s0[0] && before[1] == s0[1]);
                } else {
                    assert(before[0] == s0[0]);
                }
            }
        }
        assert(r.0.last() == t.last());
    }
}

proof fn lemma_folded_lines_invariant(ls: Seq<Seq<char>>)
    requires
        forall|k: int| 0 <= k < ls.len() ==> no_line_feed(#[trigger] ls[k]),
    ensures
        fold_invariant(folded_lines(ls)),
    decreases ls.len(),
{
    if ls.len() > 0 {
        lemma_folded_lines_invariant(ls.drop_last());
        lemma_trim_keeps_no_line_feed(ls.last());
        lemma_fold_step_invariant(folded_lines(ls.drop_last()), trim(ls.last()));
    }
}

/// Whether `s` holds no two line feeds in a row: no blank line inside.
pub open spec fn no_blank_line(s: Seq<char>) -> bool {
    forall|i: int| 0 <= i < s.len() - 1 ==> !(#[trigger] s[i] == '\n' && s[i + 1] == '\n')
}

proof fn lemma_join_lines_no_blank_line(ls: Seq<Seq<char>>)
    requires
        forall|k: int| 0 <= k < ls.len() ==> no_line_feed(#[trigger] ls[k]) && ls[k].len() > 0,
    ensures
        no_blank_line(join_lines(ls)),
        join_lines(ls).len() > 0 ==> join_lines(ls)[0] != '\n' && join_lines(ls).last() != '\n',
    decreases ls.len(),
{
    if ls.len() == 1 {
        assert(no_line_feed(ls[0]));
    } else if ls.len() > 1 {
        let prev = join_lines(ls.drop_last());
        assert forall|k: int| 0 <= k < ls.drop_last().len() implies no_line_feed(
            #[trigger] ls.drop_last()[k],
        ) && ls.drop_last()[k].len() > 0 by {
            assert(ls.drop_last()[k] == ls[k]);
        }
        lemma_join_lines_no_blank_line(ls.drop_last());
        let t = ls.last();
        assert(no_line_feed(t) && t.len() > 0);
        let j = prev.push('\n') + t;
        assert(join_lines(ls) == j);
        assert forall|i: int| 0 <= i < j.len() - 1 implies !(#[trigger] j[i] == '\n' && j[i + 1]
            == '\n') by {
            if i + 1 < prev.len() {
                assert(j[i] == prev[i] && j[i + 1] == prev[i + 1]);
            } else if i + 1 == prev.len() {
                assert(j[i] == prev.last());
            } else {
                assert(j[i + 1] == t[i + 1 - prev.len() - 1]);
            }
        }
        assert(prev.len() > 0);
        assert(j[0] == prev[0]);
        assert(j.last() == t.last());
    }
}

/// HTML turned into text keeps one blank line where the HTML had a run of
/// them, and never two in a row: no line holds a line feed of its own,
/// and each run of blank lines folds into one.
pub proof fn lemma_html_text_keeps_single_blank_lines(html: Seq<char>)
    ensures
        single_blank_lines(html_text(html)),
{
    let a = replaced_or_kept(LINE_BREAK_TAG@, html, "\n"@);
    let b = replaced_or_kept(PARAGRAPH_END_TAG@, a, "\n"@);
    let c = replaced_or_kept(ANY_TAG@, b, ""@);
    let ls = lines_of(decode_entities(c));
    lemma_lines_have_no_line_feed(decode_entities(c));
    lemma_folded_lines_invariant(ls);
}

/// Cleaned PDF text holds no empty line at all: it neither starts nor
/// ends with a line feed, and holds no two in a row.
pub proof fn lemma_pdf_text_has_no_empty_line(text: Seq<char>)
    ensures
        no_blank_line(folded_pdf_lines(lines_of(text)).0),
        folded_pdf_lines(lines_of(text)).0.len() > 0 ==> folded_pdf_lines(lines_of(text)).0[0]
            != '\n' && folded_pdf_lines(lines_of(text)).0.last() != '\n',
{
    let ls = lines_of(text);
    lemma_lines_have_no_line_feed(text);
    lemma_pdf_text_is_joined_lines(ls);
    lemma_pdf_kept_lines_no_line_feed(ls);
    lemma_join_lines_no_blank_line(pdf_kept_lines(ls));
}

proof fn lemma_pdf_kept_lines_no_line_feed(ls: Seq<Seq<char>>)
    requires
        forall|k: int| 0 <= k < ls.len() ==> no_line_feed(#[trigger] ls[k]),
    ensures
        forall|k: int| 0 <= k < pdf_kept_lines(ls).len() ==> no_line_feed(#[trigger] pdf_kept_lines(ls)[k]),
    decreases ls.len(),
{
    if ls.len() > 0 {
        assert forall|k: int| 0 <= k < ls.drop_last().len() implies no_line_feed(
            #[trigger] ls.drop_last()[k],
        ) by {
            assert(ls.drop_last()[k] == ls[k]);
        }
        lemma_pdf_kept_lines_no_line_feed(ls.drop_last());
        lemma_trim_keeps_no_line_feed(ls.last());
        let prev = pdf_kept_lines(ls.drop_last());
        if !is_pdf_noise(trim(ls.last())) {
            assert forall|k: int| 0 <= k < pdf_kept_lines(ls).len() implies no_line_feed(
                #[trigger] pdf_kept_lines(ls)[k],
            ) by {
                if k < prev.len() {
                    assert(pdf_kept_lines(ls)[k] == prev[k]);
                }
            }
        }
    }
}

// ---------------------------------------------------------------------
// HTML to plain text
// ---------------------------------------------------------------------

/// A line break tag: `<br>`, `<br/>`, `<br />`.
pub const LINE_BREAK_TAG: &'static str = r"<br\s*/?>";

/// The end of a paragraph.
pub const PARAGRAPH_END_TAG: &'static str = r"</p>";

/// Any other tag.
pub const ANY_TAG: &'static str = r"</?[^>]+>";

/// `text` after `regex_replace_all(pattern, text, rep)`, or `text` itself
/// when the pattern were not to compile.
pub open spec fn replaced_or_kept(pattern: Seq<char>, text: Seq<char>, rep: Seq<char>) -> Seq<
    char,
> {
    match regex_replace_outcome(pattern, text, rep) {
        Some(t) => t,
        None => text,
    }
}

/// The HTML entities that are decoded, in the order they are replaced.
pub open spec fn decode_entities(s: Seq<char>) -> Seq<char> {
    let a = replace_all(s, "&lt;"@, "<"@);
    let b = replace_all(a, "&gt;"@, ">"@);
    let c = replace_all(b, "&amp;"@, "&"@);
    let d = replace_all(c, "&quot;"@, "\""@);
    let e = replace_all(d, "&apos;"@, "'"@);
    replace_all(e, "&nbsp;"@, " "@)
}

/// The plain text of `html`: line breaks and paragraph ends become line
/// feeds, other tags go, six entities are decoded, then the lines are
/// trimmed and runs of blank lines folded into one.
pub open spec fn html_text(html: Seq<char>) -> Seq<char> {
    let a = replaced_or_kept(LINE_BREAK_TAG@, html, "\n"@);
    let b = replaced_or_kept(PARAGRAPH_END_TAG@, a, "\n"@);
    let c = replaced_or_kept(ANY_TAG@, b, ""@);
    folded_lines(lines_of(decode_entities(c))).0
}

/// `text` with the matches of `pattern` replaced by `rep`, or unchanged
/// if the pattern did not compile.
fn replace_pattern(pattern: &str, text: String, rep: &str) -> (r: String)
    ensures
        r@ == replaced_or_kept(pattern@, text@, rep@),
{
    match regex_replace_all(pattern, text.as_str(), rep) {
        Some(t) => t,
        None => text,
    }
}

/// `v` with `from` replaced by `to` everywhere.
fn replace_str(v: &[char], from: &str, to: &str) -> (r: Vec<char>)
    requires
        from@.len() > 0,
    ensures
        r@ == replace_all(v@, from@, to@),
{
    let f = chars_of(from);
    let t = chars_of(to);
    replace_chars(v, &f, &t)
}

/// Plain text from HTML, as `html_text` says.
pub fn html_to_text(html: &str) -> (r: String)
    ensures
        r@ == html_text(html@),
{
    let text = html.to_owned();
    let text = replace_pattern(LINE_BREAK_TAG, text, "\n");
    let text = replace_pattern(PARAGRAPH_END_TAG, text, "\n");
    let text = replace_pattern(ANY_TAG, text, "");
    let cs = chars_of(text.as_str());
    proof {
        reveal_strlit("&lt;");
        reveal_strlit("&gt;");
        reveal_strlit("&amp;");
        reveal_strlit("&quot;");
        reveal_strlit("&apos;");
        reveal_strlit("&nbsp;");
    }
    let cs = replace_str(&cs, "&lt;", "<");
    let cs = replace_str(&cs, "&gt;", ">");
    let cs = replace_str(&cs, "&amp;", "&");
    let cs = replace_str(&cs, "&quot;", "\"");
    let cs = replace_str(&cs, "&apos;", "'");
    let cs = replace_str(&cs, "&nbsp;", " ");
    let out = fold_text_lines(&cs);
    string_of(&out)
}


// ---------------------------------------------------------------------
// E-book sections
// ---------------------------------------------------------------------

/// The plain text of one e-book section, given its bytes.
pub open spec fn section_text(raw: Seq<u8>) -> Seq<char> {
    html_text(decoded_text(raw))
}

/// The texts of the sections `rs` that are not empty, joined by line feeds.
pub open spec fn joined_sections(rs: Seq<Seq<u8>>) -> Seq<char>
    decreases rs.len(),
{
    if rs.len() == 0 {
        seq![]
    } else {
        let prev = joined_sections(rs.drop_last());
        let t = section_text(rs.last());
        if t.len() == 0 {
            prev
        } else if prev.len() == 0 {
            t
        } else {
            prev.push('\n') + t
        }
    }
}

/// The text of an e-book from the bytes of its sections in reading order:
/// each decoded and turned from HTML into plain text, the non-empty ones
/// joined by line feeds; `EmptyEpub` when none holds any text.
pub fn join_sections(sections: &[Vec<u8>]) -> (r: Result<String, LoadError>)
    requires
        forall|i: int| 0 <= i < sections@.len() ==> decodable_size(#[trigger] sections@[i]@),
    ensures
        r is Err <==> joined_sections(sections@.map_values(|v: Vec<u8>| v@)).len() == 0,
        r matches Err(e) ==> e == LoadError::EmptyEpub,
        r matches Ok(s) ==> s@ == joined_sections(sections@.map_values(|v: Vec<u8>| v@)),
{
    let ghost rs = sections@.map_values(|v: Vec<u8>| v@);
    let mut full = String::new();
    let mut i: usize = 0;
    while i < sections.len()
        invariant
            i <= sections@.len(),
            rs == sections@.map_values(|v: Vec<u8>| v@),
            forall|k: int| 0 <= k < sections@.len() ==> decodable_size(#[trigger] sections@[k]@),
            full@ == joined_sections(rs.take(i as int)),
        decreases sections@.len() - i,
    {
        proof {
            assert(rs.take(i + 1).drop_last() =~= rs.take(i as int));
            assert(rs.take(i + 1).last() == sections@[i as int]@);
        }
        let html = decode_text(sections[i].as_slice());
        let text = html_to_text(html.as_str());
        if !text.as_str().is_empty() {
            proof {
                assert(text@.len() > 0);
            }
            if !full.as_str().is_empty() {
                full.push('\n');
            }
            full.push_str(text.as_str());
        } else {
            proof {
                assert(text@.len() == 0);
            }
        }
        i = i + 1;
    }
    assert(rs.take(rs.len() as int) =~= rs);
    if full.as_str().is_empty() {
        return Err(LoadError::EmptyEpub);
    }
    Ok(full)
}

} // verus!
