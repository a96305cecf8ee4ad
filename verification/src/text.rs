//! Character-level text handling: conversions between strings and
//! character vectors, white space, trimming, line splitting, prefixes,
//! substring search, literal replacement and number formatting.
use vstd::prelude::*;

verus! {

broadcast use vstd::string::group_string_axioms;

pub assume_specification[ String::push ](s: &mut String, ch: char)
    ensures
        final(s)@ == old(s)@.push(ch),
;

pub assume_specification[ String::push_str ](s: &mut String, string: &str)
    ensures
        final(s)@ == old(s)@ + string@,
;

pub assume_specification[ String::pop ](s: &mut String) -> (r: Option<char>)
    ensures
        old(s)@.len() == 0 ==> r is None && final(s)@ == old(s)@,
        old(s)@.len() > 0 ==> r == Some(old(s)@.last()) && final(s)@ == old(s)@.drop_last(),
;

/// The characters of `s`, in order.
pub fn chars_of(s: &str) -> (r: Vec<char>)
    ensures
        r@ == s@,
{
    let mut v: Vec<char> = Vec::new();
    for c in it: s.chars()
        invariant
            v@ == it.seq().take(it.index() as int),
    {
        v.push(c);
    }
    v
}

/// The string made of the characters `v[a..b]`.
pub fn string_of_range(v: &[char], a: usize, b: usize) -> (r: String)
    requires
        a <= b <= v@.len(),
    ensures
        r@ == v@.subrange(a as int, b as int),
{
    let mut s = String::new();
    let mut i = a;
    while i < b
        invariant
            a <= i <= b <= v@.len(),
            s@ == v@.subrange(a as int, i as int),
        decreases b - i,
    {
        s.push(v[i]);
        i = i + 1;
        assert(s@ =~= v@.subrange(a as int, i as int));
    }
    s
}

/// The string made of the characters of `v`.
pub fn string_of(v: &[char]) -> (r: String)
    ensures
        r@ == v@,
{
    let r = string_of_range(v, 0, v.len());
    assert(v@.subrange(0, v@.len() as int) =~= v@);
    r
}

/// The vector holding `v[a..b]`.
pub fn copy_range(v: &[char], a: usize, b: usize) -> (r: Vec<char>)
    requires
        a <= b <= v@.len(),
    ensures
        r@ == v@.subrange(a as int, b as int),
{
    let mut out: Vec<char> = Vec::new();
    let mut i = a;
    while i < b
        invariant
            a <= i <= b <= v@.len(),
            out@ == v@.subrange(a as int, i as int),
        decreases b - i,
    {
        out.push(v[i]);
        i = i + 1;
        assert(out@ =~= v@.subrange(a as int, i as int));
    }
    out
}

/// Appends all of `src` to `dst`.
pub fn append_chars(dst: &mut Vec<char>, src: &[char])
    ensures
        final(dst)@ == old(dst)@ + src@,
{
    let mut i: usize = 0;
    while i < src.len()
        invariant
            i <= src@.len(),
            dst@ == old(dst)@ + src@.take(i as int),
        decreases src@.len() - i,
    {
        dst.push(src[i]);
        i = i + 1;
        assert(dst@ =~= old(dst)@ + src@.take(i as int));
    }
    assert(src@.take(src@.len() as int) =~= src@);
}

/// Whether two strings hold the same characters.
pub fn str_eq(a: &str, b: &str) -> (r: bool)
    ensures
        r == (a@ == b@),
{
    let x = a.to_owned();
    let y = b.to_owned();
    x == y
}

/// The characters that carry the Unicode `White_Space` property (the
/// ones that `char::is_whitespace` accepts and `str::trim` removes).
pub open spec fn is_white_space(c: char) -> bool {
    let u = c as u32;
    ||| 0x09 <= u <= 0x0D
    ||| u == 0x20
    ||| u == 0x85
    ||| u == 0xA0
    ||| u == 0x1680
    ||| 0x2000 <= u <= 0x200A
    ||| u == 0x2028
    ||| u == 0x2029
    ||| u == 0x202F
    ||| u == 0x205F
    ||| u == 0x3000
}

/// Whether `c` carries the Unicode `White_Space` property.
pub fn is_white_space_char(c: char) -> (r: bool)
    ensures
        r == is_white_space(c),
{
    let u = c as u32;
    (0x09 <= u && u <= 0x0D) || u == 0x20 || u == 0x85 || u == 0xA0 || u == 0x1680 || (0x2000
        <= u && u <= 0x200A) || u == 0x2028 || u == 0x2029 || u == 0x202F || u == 0x205F || u
        == 0x3000
}

/// `s` without its leading white space.
pub open spec fn trim_start(s: Seq<char>) -> Seq<char>
    decreases s.len(),
{
    if s.len() > 0 && is_white_space(s[0]) {
        trim_start(s.drop_first())
    } else {
        s
    }
}

/// `s` without its trailing white space.
pub open spec fn trim_end(s: Seq<char>) -> Seq<char>
    decreases s.len(),
{
    if s.len() > 0 && is_white_space(s.last()) {
        trim_end(s.drop_last())
    } else {
        s
    }
}

/// `s` without its leading and trailing white space.
pub open spec fn trim(s: Seq<char>) -> Seq<char> {
    trim_end(trim_start(s))
}

proof fn lemma_trim_start_skip(s: Seq<char>, i: int)
    requires
        0 <= i <= s.len(),
        forall|j: int| 0 <= j < i ==> is_white_space(#[trigger] s[j]),
    ensures
        trim_start(s) == trim_start(s.skip(i)),
    decreases i,
{
    if i > 0 {
        assert(s.drop_first().skip(i - 1) =~= s.skip(i));
        lemma_trim_start_skip(s.drop_first(), i - 1);
    } else {
        assert(s.skip(0) =~= s);
    }
}

proof fn lemma_trim_end_take(s: Seq<char>, i: int)
    requires
        0 <= i <= s.len(),
        forall|j: int| i <= j < s.len() ==> is_white_space(#[trigger] s[j]),
    ensures
        trim_end(s) == trim_end(s.take(i)),
    decreases s.len() - i,
{
    if i < s.len() {
        assert(s.drop_last().take(i) =~= s.take(i));
        lemma_trim_end_take(s.drop_last(), i);
    } else {
        assert(s.take(i) =~= s);
    }
}

/// The bounds `(a, b)` such that `v[a..b]` is `v[start..end]` trimmed.
pub fn trim_bounds(v: &[char], start: usize, end: usize) -> (r: (usize, usize))
    requires
        start <= end <= v@.len(),
    ensures
        start <= r.0 <= r.1 <= end,
        v@.subrange(r.0 as int, r.1 as int) == trim(v@.subrange(start as int, end as int)),
{
    let ghost s = v@.subrange(start as int, end as int);
    let mut a = start;
    while a < end && is_white_space_char(v[a])
        invariant
            start <= a <= end <= v@.len(),
            s == v@.subrange(start as int, end as int),
            forall|j: int| start <= j < a ==> is_white_space(#[trigger] v@[j]),
        decreases end - a,
    {
        a = a + 1;
    }
    proof {
        assert forall|j: int| 0 <= j < a - start implies is_white_space(#[trigger] s[j]) by {
            assert(s[j] == v@[start + j]);
        }
        lemma_trim_start_skip(s, a - start);
        assert(s.skip(a - start) =~= v@.subrange(a as int, end as int));
        if a < end {
            assert(!is_white_space(v@[a as int]));
        }
    }
    let ghost t = v@.subrange(a as int, end as int);
    let mut b = end;
    while b > a && is_white_space_char(v[b - 1])
        invariant
            start <= a <= b <= end <= v@.len(),
            t == v@.subrange(a as int, end as int),
            forall|j: int| b <= j < end ==> is_white_space(#[trigger] v@[j]),
        decreases b - a,
    {
        b = b - 1;
    }
    proof {
        assert forall|j: int| b - a <= j < t.len() implies is_white_space(#[trigger] t[j]) by {
            assert(t[j] == v@[a + j]);
        }
        lemma_trim_end_take(t, b - a);
        assert(t.take(b - a) =~= v@.subrange(a as int, b as int));
        let u = v@.subrange(a as int, b as int);
        if u.len() > 0 {
            assert(u.last() == v@[b - 1]);
        }
        if a == end {
            assert(t.len() == 0);
        } else {
            assert(t[0] == v@[a as int]);
        }
    }
    (a, b)
}

/// The index of the first line feed in `s`, or its length when there is none.
pub open spec fn newline_index(s: Seq<char>) -> nat
    decreases s.len(),
{
    if s.len() == 0 {
        0
    } else if s[0] == '\n' {
        0
    } else {
        1 + newline_index(s.drop_first())
    }
}

/// `l` without one trailing carriage return.
pub open spec fn strip_cr(l: Seq<char>) -> Seq<char> {
    if l.len() > 0 && l.last() == '\r' {
        l.drop_last()
    } else {
        l
    }
}

/// The lines of `s` as `str::lines` yields them: split at each line feed,
/// a carriage return right before the line feed dropped, and no line after
/// a final line feed.
pub open spec fn lines_of(s: Seq<char>) -> Seq<Seq<char>>
    decreases s.len(),
{
    if s.len() == 0 {
        seq![]
    } else {
        let k = newline_index(s);
        if k >= s.len() {
            seq![s]
        } else {
            seq![strip_cr(s.take(k as int))] + lines_of(s.skip((k + 1) as int))
        }
    }
}

pub proof fn lemma_newline_index(s: Seq<char>, k: int)
    requires
        0 <= k <= s.len(),
        forall|j: int| 0 <= j < k ==> #[trigger] s[j] != '\n',
        k == s.len() || s[k] == '\n',
    ensures
        newline_index(s) == k,
    decreases k,
{
    if k > 0 {
        assert forall|j: int| 0 <= j < k - 1 implies #[trigger] s.drop_first()[j] != '\n' by {
            assert(s.drop_first()[j] == s[j + 1]);
        }
        lemma_newline_index(s.drop_first(), k - 1);
    }
}

/// Whether `s` holds no line feed.
pub open spec fn no_line_feed(s: Seq<char>) -> bool {
    forall|i: int| 0 <= i < s.len() ==> #[trigger] s[i] != '\n'
}

proof fn lemma_newline_index_bounds(s: Seq<char>)
    ensures
        newline_index(s) <= s.len(),
        forall|j: int| 0 <= j < newline_index(s) ==> #[trigger] s[j] != '\n',
    decreases s.len(),
{
    if s.len() > 0 && s[0] != '\n' {
        lemma_newline_index_bounds(s.drop_first());
        assert forall|j: int| 0 <= j < newline_index(s) implies #[trigger] s[j] != '\n' by {
            if j > 0 {
                assert(s[j] == s.drop_first()[j - 1]);
            }
        }
    }
}

/// No line that `str::lines` yields holds a line feed.
pub proof fn lemma_lines_have_no_line_feed(s: Seq<char>)
    ensures
        forall|k: int| 0 <= k < lines_of(s).len() ==> no_line_feed(#[trigger] lines_of(s)[k]),
    decreases s.len(),
{
    if s.len() > 0 {
        let k = newline_index(s);
        lemma_newline_index_bounds(s);
        if k < s.len() {
            let rest = s.skip((k + 1) as int);
            lemma_lines_have_no_line_feed(rest);
            let first = strip_cr(s.take(k as int));
            assert(no_line_feed(first)) by {
                assert forall|i: int| 0 <= i < first.len() implies #[trigger] first[i] != '\n' by {
                    assert(first[i] == s[i]);
                }
            }
            assert forall|j: int| 0 <= j < lines_of(s).len() implies no_line_feed(
                #[trigger] lines_of(s)[j],
            ) by {
                if j > 0 {
                    assert(lines_of(s)[j] == lines_of(rest)[j - 1]);
                }
            }
        } else {
            assert(lines_of(s) == seq![s]);
            assert(no_line_feed(s));
        }
    }
}

/// Trimming adds no line feed.
pub proof fn lemma_trim_keeps_no_line_feed(s: Seq<char>)
    requires
        no_line_feed(s),
    ensures
        no_line_feed(trim(s)),
{
    lemma_trim_start_no_line_feed(s);
    lemma_trim_end_no_line_feed(trim_start(s));
}

proof fn lemma_trim_start_no_line_feed(s: Seq<char>)
    requires
        no_line_feed(s),
    ensures
        no_line_feed(trim_start(s)),
    decreases s.len(),
{
    if s.len() > 0 && is_white_space(s[0]) {
        assert forall|i: int| 0 <= i < s.drop_first().len() implies #[trigger] s.drop_first()[i]
            != '\n' by {
            assert(s.drop_first()[i] == s[i + 1]);
        }
        lemma_trim_start_no_line_feed(s.drop_first());
    }
}

proof fn lemma_trim_end_no_line_feed(s: Seq<char>)
    requires
        no_line_feed(s),
    ensures
        no_line_feed(trim_end(s)),
    decreases s.len(),
{
    if s.len() > 0 && is_white_space(s.last()) {
        assert forall|i: int| 0 <= i < s.drop_last().len() implies #[trigger] s.drop_last()[i]
            != '\n' by {
            assert(s.drop_last()[i] == s[i]);
        }
        lemma_trim_end_no_line_feed(s.drop_last());
    }
}

/// The bounds of the lines of `v` (as `str::lines` splits them), each as
/// (start, end), a carriage return before the line feed left out.
#[verifier::spinoff_prover]
pub fn line_bounds(v: &[char]) -> (r: Vec<(usize, usize)>)
    ensures
        r@.len() == lines_of(v@).len(),
        forall|i: int|
            0 <= i < r@.len() ==> {
                &&& #[trigger] r@[i].0 <= r@[i].1 <= v@.len()
                &&& v@.subrange(r@[i].0 as int, r@[i].1 as int) == lines_of(v@)[i]
            },
{
    let mut out: Vec<(usize, usize)> = Vec::new();
    let mut line_start: usize = 0;
    let mut i: usize = 0;
    let ghost mut done: Seq<Seq<char>> = seq![];
    assert(v@.skip(0) =~= v@);
    assert(lines_of(v@) =~= done + lines_of(v@.skip(0)));
    while i < v.len()
        invariant
            line_start <= i <= v@.len(),
            forall|j: int| line_start <= j < i ==> #[trigger] v@[j] != '\n',
            lines_of(v@) == done + lines_of(v@.skip(line_start as int)),
            out@.len() == done.len(),
            forall|k: int|
                0 <= k < out@.len() ==> {
                    &&& #[trigger] out@[k].0 <= out@[k].1 <= v@.len()
                    &&& v@.subrange(out@[k].0 as int, out@[k].1 as int) == done[k]
                },
        decreases v@.len() - i,
    {
        if v[i] == '\n' {
            let ghost t = v@.skip(line_start as int);
            proof {
                let k = i - line_start;
                assert forall|j: int| 0 <= j < k implies #[trigger] t[j] != '\n' by {
                    assert(t[j] == v@[line_start + j]);
                }
                assert(t[k] == v@[i as int]);
                lemma_newline_index(t, k);
                assert(t.skip(k + 1) =~= v@.skip(i + 1));
                assert(t.take(k) =~= v@.subrange(line_start as int, i as int));
            }
            let mut end = i;
            if end > line_start && v[end - 1] == '\r' {
                end = end - 1;
            }
            proof {
                let l = v@.subrange(line_start as int, i as int);
                assert(v@.subrange(line_start as int, end as int) == strip_cr(l)) by {
                    if i > line_start && v@[i - 1] == '\r' {
                        assert(l.drop_last() =~= v@.subrange(line_start as int, end as int));
                    }
                }
                assert(lines_of(t) == seq![strip_cr(l)] + lines_of(v@.skip(i + 1)));
                done = done.push(strip_cr(l));
                assert(lines_of(v@) =~= done + lines_of(v@.skip(i + 1)));
            }
            let ghost old_out = out@;
            out.push((line_start, end));
            assert forall|k: int|
                0 <= k < out@.len() implies {
                    &&& #[trigger] out@[k].0 <= out@[k].1 <= v@.len()
                    &&& v@.subrange(out@[k].0 as int, out@[k].1 as int) == done[k]
                } by {
                if k < old_out.len() {
                    assert(out@[k] == old_out[k]);
                } else {
                    assert(out@[k] == (line_start, end));
                    assert(done[k] == v@.subrange(line_start as int, end as int));
                }
            }
            line_start = i + 1;
        } else {
            assert forall|k: int|
                0 <= k < out@.len() implies {
                    &&& #[trigger] out@[k].0 <= out@[k].1 <= v@.len()
                    &&& v@.subrange(out@[k].0 as int, out@[k].1 as int) == done[k]
                } by {
            }
        }
        i = i + 1;
    }
    if line_start < v.len() {
        let ghost t = v@.skip(line_start as int);
        proof {
            let k = v@.len() - line_start;
            assert forall|j: int| 0 <= j < k implies #[trigger] t[j] != '\n' by {
                assert(t[j] == v@[line_start + j]);
            }
            lemma_newline_index(t, k);
            assert(t =~= v@.subrange(line_start as int, v@.len() as int));
            done = done.push(t);
            assert(lines_of(v@) =~= done);
        }
        out.push((line_start, v.len()));
    } else {
        proof {
            assert(v@.skip(line_start as int).len() == 0);
            assert(lines_of(v@) =~= done);
        }
    }
    out
}

/// Whether `s` begins with `p`.
pub open spec fn starts_with(s: Seq<char>, p: Seq<char>) -> bool {
    p.len() <= s.len() && s.take(p.len() as int) == p
}

/// Whether `q` occurs in `s` at position `i`.
pub open spec fn occurs_at(s: Seq<char>, q: Seq<char>, i: int) -> bool {
    0 <= i && i + q.len() <= s.len() && s.subrange(i, i + q.len()) == q
}

/// Whether `q` occurs anywhere in `s` (`str::contains`).
pub open spec fn contains_seq(s: Seq<char>, q: Seq<char>) -> bool {
    exists|i: int| occurs_at(s, q, i)
}

/// Whether `q` occurs in `v` at position `i`.
pub fn occurs_at_exec(v: &[char], q: &[char], i: usize) -> (r: bool)
    ensures
        r == occurs_at(v@, q@, i as int),
{
    if q.len() > v.len() || i > v.len() - q.len() {
        return false;
    }
    let mut j: usize = 0;
    while j < q.len()
        invariant
            i + q@.len() <= v@.len(),
            v@.len() <= usize::MAX,
            j <= q@.len(),
            forall|k: int| 0 <= k < j ==> v@[i + k] == q@[k],
        decreases q@.len() - j,
    {
        if v[i + j] != q[j] {
            assert(v@.subrange(i as int, i + q@.len())[j as int] != q@[j as int]);
            return false;
        }
        j = j + 1;
    }
    assert(v@.subrange(i as int, i + q@.len()) =~= q@);
    true
}

/// Whether `q` occurs anywhere in `v`.
pub fn contains_chars(v: &[char], q: &[char]) -> (r: bool)
    ensures
        r == contains_seq(v@, q@),
{
    if q.len() > v.len() {
        return false;
    }
    let last = v.len() - q.len();
    let mut i: usize = 0;
    loop
        invariant
            q@.len() <= v@.len(),
            last == v@.len() - q@.len(),
            i <= last,
            forall|k: int| 0 <= k < i ==> !occurs_at(v@, q@, k),
        decreases last - i,
    {
        if occurs_at_exec(v, q, i) {
            return true;
        }
        if i == last {
            assert forall|k: int| !occurs_at(v@, q@, k) by {
                if k > last {
                    assert(!(k + q@.len() <= v@.len()));
                }
            }
            return false;
        }
        i = i + 1;
    }
}

/// `s` with every occurrence of `from`, taken left to right without
/// overlap, replaced by `to` (`str::replace`; `from` is not empty).
pub open spec fn replace_all(s: Seq<char>, from: Seq<char>, to: Seq<char>) -> Seq<char>
    decreases s.len(),
{
    if s.len() == 0 || from.len() == 0 {
        s
    } else if starts_with(s, from) {
        to + replace_all(s.skip(from.len() as int), from, to)
    } else {
        seq![s[0]] + replace_all(s.drop_first(), from, to)
    }
}

/// `v` with every occurrence of `from` replaced by `to`, left to right.
pub fn replace_chars(v: &[char], from: &[char], to: &[char]) -> (r: Vec<char>)
    requires
        from@.len() > 0,
    ensures
        r@ == replace_all(v@, from@, to@),
{
    let mut out: Vec<char> = Vec::new();
    let mut i: usize = 0;
    assert(v@.skip(0) =~= v@);
    assert(out@ + replace_all(v@.skip(0), from@, to@) =~= replace_all(v@, from@, to@));
    while i < v.len()
        invariant
            i <= v@.len(),
            from@.len() > 0,
            replace_all(v@, from@, to@) == out@ + replace_all(v@.skip(i as int), from@, to@),
        decreases v@.len() - i,
    {
        let ghost t = v@.skip(i as int);
        if occurs_at_exec(v, from, i) {
            proof {
                assert(t.take(from@.len() as int) =~= v@.subrange(i as int, i + from@.len()));
                assert(t.skip(from@.len() as int) =~= v@.skip(i + from@.len()));
            }
            append_chars(&mut out, to);
            i = i + from.len();
            assert(replace_all(v@, from@, to@) =~= out@ + replace_all(
                v@.skip(i as int),
                from@,
                to@,
            ));
        } else {
            proof {
                if starts_with(t, from@) {
                    assert(v@.subrange(i as int, i + from@.len()) =~= t.take(
                        from@.len() as int,
                    ));
                }
                assert(t.drop_first() =~= v@.skip(i + 1));
            }
            out.push(v[i]);
            i = i + 1;
            assert(replace_all(v@, from@, to@) =~= out@ + replace_all(
                v@.skip(i as int),
                from@,
                to@,
            ));
        }
    }
    assert(v@.skip(i as int).len() == 0);
    assert(out@ + seq![] =~= out@);
    out
}

/// What `str::to_lowercase` makes of the characters `s`: Unicode
/// lower-case mapping, which depends on a character's context.
pub uninterp spec fn lowercase(s: Seq<char>) -> Seq<char>;

/// Lower-cases `s` with `str::to_lowercase`; its result is named
/// `lowercase`. Each character maps to one or more characters, so the
/// result is empty exactly when `s` is.
#[verifier::external_body]
pub(crate) fn to_lowercase(s: &str) -> (r: String)
    ensures
        r@ == lowercase(s@),
        s@.len() == 0 ==> r@.len() == 0,
        s@.len() > 0 ==> r@.len() > 0,
{
    s.to_lowercase()
}


// ---------------------------------------------------------------------
// Decimal numbers
// ---------------------------------------------------------------------

/// Whether `c` is an ASCII digit.
pub open spec fn is_digit(c: char) -> bool {
    '0' <= c <= '9'
}

/// The value of the ASCII digits `d`.
pub open spec fn digits_value(d: Seq<char>) -> nat
    decreases d.len(),
{
    if d.len() == 0 {
        0
    } else {
        digits_value(d.drop_last()) * 10 + ((d.last() as u32) - ('0' as u32)) as nat
    }
}

/// `s` without one leading `+`.
pub open spec fn unsigned_body(s: Seq<char>) -> Seq<char> {
    if s.len() > 0 && s[0] == '+' {
        s.drop_first()
    } else {
        s
    }
}

/// Whether every character of `d` is an ASCII digit.
pub open spec fn all_digits(d: Seq<char>) -> bool {
    forall|i: int| 0 <= i < d.len() ==> is_digit(#[trigger] d[i])
}

/// What `str::parse::<usize>` gives for `s`: an optional `+` followed by
/// at least one ASCII digit and nothing else, whose value fits in `usize`.
pub open spec fn parsed_usize(s: Seq<char>) -> Option<usize> {
    let body = unsigned_body(s);
    if body.len() > 0 && all_digits(body) && digits_value(body) <= usize::MAX {
        Some(digits_value(body) as usize)
    } else {
        None
    }
}

proof fn lemma_digits_value_monotone(d: Seq<char>, n: int)
    requires
        0 <= n <= d.len(),
        forall|i: int| 0 <= i < d.len() ==> is_digit(#[trigger] d[i]),
    ensures
        digits_value(d.take(n)) <= digits_value(d),
    decreases d.len() - n,
{
    if n < d.len() {
        lemma_digits_value_monotone(d, n + 1);
        assert(d.take(n + 1).drop_last() =~= d.take(n));
    } else {
        assert(d.take(n) =~= d);
    }
}

/// Parses `s` as `str::parse::<usize>` does.
pub fn parse_usize(s: &str) -> (r: Option<usize>)
    ensures
        r == parsed_usize(s@),
{
    let cs = chars_of(s);
    let start: usize = if cs.len() > 0 && cs[0] == '+' {
        1
    } else {
        0
    };
    let ghost body = cs@.skip(start as int);
    proof {
        if start == 1 {
            assert(body =~= cs@.drop_first());
        } else {
            assert(body =~= cs@);
        }
        assert(body == unsigned_body(s@));
    }
    if start >= cs.len() {
        return None;
    }
    let mut value: usize = 0;
    let mut i = start;
    while i < cs.len()
        invariant
            start <= i <= cs@.len(),
            body == cs@.skip(start as int),
            body == unsigned_body(s@),
            forall|k: int| 0 <= k < i - start ==> is_digit(#[trigger] body[k]),
            value as nat == digits_value(body.take(i - start)),
        decreases cs@.len() - i,
    {
        let c = cs[i];
        proof {
            assert(body[i - start] == c);
        }
        if !('0' <= c && c <= '9') {
            assert(!is_digit(body[i - start]));
            return None;
        }
        let d = (c as u32 - '0' as u32) as usize;
        let ghost n = i - start + 1;
        proof {
            assert(body.take(n).drop_last() =~= body.take(i - start));
            assert(body.take(n).last() == c);
            assert(digits_value(body.take(n)) == value * 10 + d);
        }
        let next = match value.checked_mul(10) {
            Some(m) => m.checked_add(d),
            None => None,
        };
        match next {
            Some(v) => {
                value = v;
            },
            None => {
                proof {
                    if forall|k: int| 0 <= k < body.len() ==> is_digit(#[trigger] body[k]) {
                        lemma_digits_value_monotone(body, n);
                    }
                }
                return None;
            },
        }
        i = i + 1;
    }
    assert(body.take(body.len() as int) =~= body);
    Some(value)
}

/// The decimal digits of `n`.
pub open spec fn decimal(n: nat) -> Seq<char>
    decreases n,
{
    if n < 10 {
        seq![digit_char(n)]
    } else {
        decimal(n / 10).push(digit_char(n % 10))
    }
}

/// The ASCII digit for `d` (below ten).
pub open spec fn digit_char(d: nat) -> char {
    if d == 0 {
        '0'
    } else if d == 1 {
        '1'
    } else if d == 2 {
        '2'
    } else if d == 3 {
        '3'
    } else if d == 4 {
        '4'
    } else if d == 5 {
        '5'
    } else if d == 6 {
        '6'
    } else if d == 7 {
        '7'
    } else if d == 8 {
        '8'
    } else {
        '9'
    }
}

fn digit_char_exec(d: usize) -> (c: char)
    requires
        d < 10,
    ensures
        c == digit_char(d as nat),
{
    if d == 0 {
        '0'
    } else if d == 1 {
        '1'
    } else if d == 2 {
        '2'
    } else if d == 3 {
        '3'
    } else if d == 4 {
        '4'
    } else if d == 5 {
        '5'
    } else if d == 6 {
        '6'
    } else if d == 7 {
        '7'
    } else if d == 8 {
        '8'
    } else {
        '9'
    }
}

/// The decimal digits of `n`, as `format!("{}", n)` writes them.
pub fn decimal_chars(n: usize) -> (r: Vec<char>)
    ensures
        r@ == decimal(n as nat),
    decreases n,
{
    if n < 10 {
        let mut v: Vec<char> = Vec::new();
        v.push(digit_char_exec(n));
        assert(v@ =~= seq![digit_char(n as nat)]);
        v
    } else {
        let mut v = decimal_chars(n / 10);
        v.push(digit_char_exec(n % 10));
        v
    }
}

/// `d` right-aligned in a field of `width` characters, as
/// `format!("{:width$}", n)` lays out the digits `d` of a number.
pub open spec fn pad_left(d: Seq<char>, width: nat) -> Seq<char> {
    if d.len() >= width {
        d
    } else {
        Seq::new((width - d.len()) as nat, |i: int| ' ') + d
    }
}

/// `d` padded on the left with spaces to `width` characters.
pub fn pad_left_chars(d: &[char], width: usize) -> (r: Vec<char>)
    ensures
        r@ == pad_left(d@, width as nat),
{
    let mut out: Vec<char> = Vec::new();
    if d.len() < width {
        let fill = width - d.len();
        let mut i: usize = 0;
        while i < fill
            invariant
                i <= fill,
                out@ == Seq::new(i as nat, |j: int| ' '),
            decreases fill - i,
        {
            out.push(' ');
            i = i + 1;
            assert(out@ =~= Seq::new(i as nat, |j: int| ' '));
        }
    }
    append_chars(&mut out, d);
    assert(d@.len() >= width ==> out@ =~= d@);
    out
}

/// Every character of `decimal(n)` is an ASCII digit.
pub proof fn lemma_decimal_digits(n: nat)
    ensures
        forall|i: int| 0 <= i < decimal(n).len() ==> is_digit(#[trigger] decimal(n)[i]),
        decimal(n).len() >= 1,
    decreases n,
{
    if n >= 10 {
        lemma_decimal_digits(n / 10);
        let d = decimal(n / 10);
        assert forall|i: int| 0 <= i < decimal(n).len() implies is_digit(#[trigger] decimal(n)[i]) by {
            if i < d.len() {
                assert(decimal(n)[i] == d[i]);
            }
        }
    }
}

/// `d` right-aligned in a field of `width` characters, filled with `fill`
/// on the left (`format!("{:0width$}", n)` for a fill of `'0'`).
pub open spec fn pad_left_with(d: Seq<char>, width: nat, fill: char) -> Seq<char> {
    if d.len() >= width {
        d
    } else {
        Seq::new((width - d.len()) as nat, |i: int| fill) + d
    }
}

/// `s` left-aligned in a field of `width` characters, filled with spaces
/// on the right (`format!("{:width$}", s)` for a string).
pub open spec fn pad_right(s: Seq<char>, width: nat) -> Seq<char> {
    if s.len() >= width {
        s
    } else {
        s + Seq::new((width - s.len()) as nat, |i: int| ' ')
    }
}

/// `d` padded on the left with `fill` to `width` characters.
pub fn pad_left_with_chars(d: &[char], width: usize, fill: char) -> (r: Vec<char>)
    ensures
        r@ == pad_left_with(d@, width as nat, fill),
{
    let mut out: Vec<char> = Vec::new();
    if d.len() < width {
        let n = width - d.len();
        let mut i: usize = 0;
        while i < n
            invariant
                i <= n,
                out@ == Seq::new(i as nat, |j: int| fill),
            decreases n - i,
        {
            out.push(fill);
            i = i + 1;
            assert(out@ =~= Seq::new(i as nat, |j: int| fill));
        }
    }
    append_chars(&mut out, d);
    assert(d@.len() >= width ==> out@ =~= d@);
    out
}

/// `s` padded on the right with spaces to `width` characters.
pub fn pad_right_chars(s: &[char], width: usize) -> (r: Vec<char>)
    ensures
        r@ == pad_right(s@, width as nat),
{
    let mut out: Vec<char> = Vec::new();
    append_chars(&mut out, s);
    if s.len() < width {
        let n = width - s.len();
        let mut i: usize = 0;
        while i < n
            invariant
                i <= n,
                out@ == s@ + Seq::new(i as nat, |j: int| ' '),
            decreases n - i,
        {
            out.push(' ');
            i = i + 1;
            assert(out@ =~= s@ + Seq::new(i as nat, |j: int| ' '));
        }
    }
    assert(s@.len() >= width ==> out@ =~= s@);
    out
}

/// The lower-case hexadecimal digit for `d` (below sixteen).
pub open spec fn hex_char(d: nat) -> char {
    if d < 10 {
        digit_char(d)
    } else if d == 10 {
        'a'
    } else if d == 11 {
        'b'
    } else if d == 12 {
        'c'
    } else if d == 13 {
        'd'
    } else if d == 14 {
        'e'
    } else {
        'f'
    }
}

/// The lower-case hexadecimal digits of `n`, as `format!("{:x}", n)`
/// writes them.
pub open spec fn hex(n: nat) -> Seq<char>
    decreases n,
{
    if n < 16 {
        seq![hex_char(n)]
    } else {
        hex(n / 16).push(hex_char(n % 16))
    }
}

fn hex_char_exec(d: u64) -> (c: char)
    requires
        d < 16,
    ensures
        c == hex_char(d as nat),
{
    if d < 10 {
        digit_char_exec(d as usize)
    } else if d == 10 {
        'a'
    } else if d == 11 {
        'b'
    } else if d == 12 {
        'c'
    } else if d == 13 {
        'd'
    } else if d == 14 {
        'e'
    } else {
        'f'
    }
}

/// The lower-case hexadecimal digits of `n`.
pub fn hex_chars(n: u64) -> (r: Vec<char>)
    ensures
        r@ == hex(n as nat),
    decreases n,
{
    if n < 16 {
        let mut v: Vec<char> = Vec::new();
        v.push(hex_char_exec(n));
        assert(v@ =~= seq![hex_char(n as nat)]);
        v
    } else {
        let mut v = hex_chars(n / 16);
        v.push(hex_char_exec(n % 16));
        v
    }
}

} // verus!
