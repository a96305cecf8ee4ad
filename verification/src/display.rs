//! What the reader shows: rows of coloured pieces. The text of the book,
//! with search hits picked out, dressed up as one of the disguises, and
//! the lists and the input line drawn over it.
use vstd::prelude::*;
use crate::text::chars_of;
use crate::text::occurs_at;
use crate::text::occurs_at_exec;
use crate::text::string_of;
use crate::text::string_of_range;
use crate::text::lowercase;
use crate::text::to_lowercase;
use crate::text::decimal;
use crate::text::hex;
use crate::text::pad_left_with;
use crate::text::pad_right;
use crate::text::replace_all;
use crate::text::replace_chars;
use crate::text::append_chars;
use crate::text::decimal_chars;
use crate::app::App;
use crate::app::AppView;
use crate::app::InputMode;
use crate::app::at_least_one;
use crate::app::template_parts;
use crate::app::template_prefix;
use crate::app::template_suffix;
use crate::app::width_left;
use crate::config::DisplayMode;
use crate::bookmark::favorites_of;
use crate::reader::Chapter;
use crate::width::str_width;
use crate::width::str_width_of;

verus! {

broadcast use vstd::string::group_string_axioms;

/// The colour of a piece of a row.
#[derive(Debug, Clone, Copy, PartialEq, Eq, Structural)]
pub enum Tint {
    Default,
    DarkGray,
    Gray,
    Green,
    Cyan,
    Yellow,
    Red,
    Magenta,
}

/// A run of text shown in one colour.
#[derive(Debug, Clone)]
pub struct Piece {
    pub text: String,
    pub tint: Tint,
}

/// The text and colour of each piece of a row.
pub open spec fn pieces_view(ps: Seq<Piece>) -> Seq<(Seq<char>, Tint)> {
    ps.map_values(|p: Piece| (p.text@, p.tint))
}

/// A piece of `text` in `tint`.
fn piece(text: String, tint: Tint) -> (r: Piece)
    ensures
        r.text@ == text@,
        r.tint == tint,
{
    Piece { text, tint }
}

// ---------------------------------------------------------------------
// Search hits
// ---------------------------------------------------------------------

/// The number of bytes UTF-8 takes for `c`.
pub open spec fn utf8_len(c: char) -> nat {
    let n = c as u32;
    if n < 0x80 {
        1
    } else if n < 0x800 {
        2
    } else if n < 0x10000 {
        3
    } else {
        4
    }
}

/// The character of `t` that starts at byte `b` of its UTF-8 form
/// (`t.len()` for the end of the text); `None` when byte `b` falls inside
/// a character or past the end, where `t` cannot be cut.
pub open spec fn char_at_byte(t: Seq<char>, b: int) -> Option<int> {
    if exists|k: int| 0 <= k <= t.len() && byte_len(#[trigger] t.take(k)) == b {
        Some(choose|k: int| 0 <= k <= t.len() && byte_len(#[trigger] t.take(k)) == b)
    } else {
        None
    }
}

/// `ps` put before the pieces `rest`, when there are any.
pub open spec fn prepend(ps: Seq<(Seq<char>, Tint)>, rest: Option<Seq<(Seq<char>, Tint)>>) -> Option<
    Seq<(Seq<char>, Tint)>,
> {
    match rest {
        Some(r) => Some(ps + r),
        None => None,
    }
}

/// The pieces of `text` from character `seg` on, scanning for `q` in
/// `lower` from character `pos` on. Each hit (taken left to right,
/// without overlap) is found in `lower` and cut out of `text` at the same
/// byte offsets: the text before it plain, the hit yellow. `None` when
/// such an offset falls inside a character of `text` or past its end.
pub open spec fn hit_pieces(text: Seq<char>, lower: Seq<char>, q: Seq<char>, pos: int, seg: int) -> Option<
    Seq<(Seq<char>, Tint)>,
>
    decreases lower.len() - pos,
{
    if q.len() == 0 || pos < 0 || pos + q.len() > lower.len() {
        if seg < text.len() {
            Some(seq![(text.subrange(seg, text.len() as int), Tint::Default)])
        } else {
            Some(seq![])
        }
    } else if occurs_at(lower, q, pos) {
        let start = char_at_byte(text, byte_len(lower.take(pos)) as int);
        let end = char_at_byte(text, byte_len(lower.take(pos + q.len())) as int);
        match (start, end) {
            (Some(a), Some(b)) => {
                let before = if a > seg {
                    seq![(text.subrange(seg, a), Tint::Default)]
                } else {
                    seq![]
                };
                prepend(
                    before + seq![(text.subrange(a, b), Tint::Yellow)],
                    hit_pieces(text, lower, q, pos + q.len(), b),
                )
            },
            _ => None,
        }
    } else {
        hit_pieces(text, lower, q, pos + 1, seg)
    }
}

/// `text` in pieces with the hits of the query `q` in `lower` picked out,
/// as `hit_pieces` says; the whole text as one plain piece when the query
/// is empty or that leaves no piece.
pub open spec fn highlighted(text: Seq<char>, lower: Seq<char>, q: Seq<char>) -> Option<
    Seq<(Seq<char>, Tint)>,
> {
    match hit_pieces(text, lower, q, 0, 0) {
        Some(ps) => if q.len() == 0 || ps.len() == 0 {
            Some(seq![(text, Tint::Default)])
        } else {
            Some(ps)
        },
        None => None,
    }
}

/// The bytes UTF-8 takes for `c`.
fn utf8_len_exec(c: char) -> (r: usize)
    ensures
        r == utf8_len(c),
{
    let n = c as u32;
    if n < 0x80 {
        1
    } else if n < 0x800 {
        2
    } else if n < 0x10000 {
        3
    } else {
        4
    }
}

proof fn lemma_byte_len_concat(a: Seq<char>, b: Seq<char>)
    ensures
        byte_len(a + b) == byte_len(a) + byte_len(b),
    decreases b.len(),
{
    if b.len() > 0 {
        assert((a + b).drop_last() =~= a + b.drop_last());
        lemma_byte_len_concat(a, b.drop_last());
    } else {
        assert(a + b =~= a);
    }
}

proof fn lemma_byte_len_at_most(s: Seq<char>)
    ensures
        byte_len(s) <= 4 * s.len(),
    decreases s.len(),
{
    if s.len() > 0 {
        lemma_byte_len_at_most(s.drop_last());
    }
}

/// The bytes UTF-8 takes for `v`.
fn byte_len_exec(v: &[char]) -> (r: u128)
    ensures
        r == byte_len(v@),
{
    let mut bytes: u128 = 0;
    let mut k: usize = 0;
    while k < v.len()
        invariant
            k <= v@.len(),
            bytes == byte_len(v@.take(k as int)),
        decreases v@.len() - k,
    {
        proof {
            lemma_byte_len_take_step(v@, k as int);
            lemma_byte_len_at_most(v@.take(k as int));
        }
        bytes = bytes + utf8_len_exec(v[k]) as u128;
        k = k + 1;
    }
    assert(v@.take(k as int) =~= v@);
    bytes
}

/// The character of `t` that starts at byte `target`, as `char_at_byte`
/// says, looked for from character `k0` on (which starts at byte `b0`).
fn find_char_at_byte(t: &[char], k0: usize, b0: u128, target: u128) -> (r: Option<usize>)
    requires
        k0 <= t@.len(),
        b0 == byte_len(t@.take(k0 as int)),
        b0 <= target,
    ensures
        r matches Some(k) ==> k0 <= k <= t@.len() && char_at_byte(t@, target as int) == Some(k as int),
        r is None ==> char_at_byte(t@, target as int) is None,
{
    let mut bytes = b0;
    let mut k = k0;
    while k < t.len() && bytes < target
        invariant
            k0 <= k <= t@.len(),
            bytes == byte_len(t@.take(k as int)),
            b0 <= target,
            b0 == byte_len(t@.take(k0 as int)),
            k > k0 ==> byte_len(t@.take(k - 1)) < target,
        decreases t@.len() - k,
    {
        proof {
            lemma_byte_len_take_step(t@, k as int);
            lemma_byte_len_at_most(t@.take(k as int));
        }
        bytes = bytes + utf8_len_exec(t[k]) as u128;
        k = k + 1;
    }
    if bytes == target {
        proof {
            assert(byte_len(t@.take(k as int)) == target);
            let c = choose|c: int| 0 <= c <= t@.len() && byte_len(#[trigger] t@.take(c)) == target;
            if c < k {
                lemma_byte_len_take_grows(t@, c, k as int);
            } else if c > k {
                lemma_byte_len_take_grows(t@, k as int, c);
            }
        }
        return Some(k);
    }
    proof {
        assert forall|c: int| 0 <= c <= t@.len() implies byte_len(#[trigger] t@.take(c)) != target by {
            if c < k0 {
                lemma_byte_len_take_grows(t@, c, k0 as int);
            } else if c < k {
                let m = (k - 1) as int;
                if c < m {
                    lemma_byte_len_take_grows(t@, c, m);
                }
            } else if c > k {
                lemma_byte_len_take_grows(t@, k as int, c);
            }
        }
    }
    None
}

/// `text` in pieces, the hits of the query `q` in the lower-case copy
/// `lower` of `text` cut out of `text` at their byte offsets and shown
/// yellow, as `highlighted` says; `None` when an offset cannot cut `text`.
pub fn highlight_with(text: &str, lower: &str, q: &str) -> (r: Option<Vec<Piece>>)
    ensures
        r is Some <==> highlighted(text@, lower@, q@) is Some,
        r matches Some(ps) ==> highlighted(text@, lower@, q@) == Some(pieces_view(ps@)),
{
    let t = chars_of(text);
    let l = chars_of(lower);
    let qc = chars_of(q);
    let mut out: Vec<Piece> = Vec::new();
    if qc.len() == 0 {
        out.push(piece(string_of(&t), Tint::Default));
        proof {
            assert(pieces_view(out@) =~= seq![(text@, Tint::Default)]);
        }
        return Some(out);
    }
    let q_bytes = byte_len_exec(&qc);
    let mut pos: usize = 0;
    let mut seg: usize = 0;
    let mut pos_bytes: u128 = 0;
    let mut seg_bytes: u128 = 0;
    proof {
        assert(pieces_view(out@) + seq![] =~= seq![]);
        assert(lower@.take(0) =~= Seq::<char>::empty());
        assert(text@.take(0) =~= Seq::<char>::empty());
        lemma_byte_len_at_most(q@);
    }
    while pos < l.len() && qc.len() <= l.len() - pos
        invariant
            t@ == text@,
            l@ == lower@,
            qc@ == q@,
            qc@.len() > 0,
            q_bytes == byte_len(q@),
            q_bytes <= 4 * q@.len(),
            pos <= l@.len(),
            seg <= t@.len(),
            pos_bytes == byte_len(lower@.take(pos as int)),
            seg_bytes == byte_len(text@.take(seg as int)),
            seg_bytes <= pos_bytes,
            hit_pieces(text@, lower@, q@, 0, 0) == prepend(
                pieces_view(out@),
                hit_pieces(text@, lower@, q@, pos as int, seg as int),
            ),
        decreases l@.len() - pos,
    {
        let ghost before = pieces_view(out@);
        proof {
            lemma_byte_len_at_most(lower@.take(pos as int));
        }
        if occurs_at_exec(&l, &qc, pos) {
            let end = pos + qc.len();
            let end_bytes = pos_bytes + q_bytes;
            proof {
                assert(lower@.take(end as int) =~= lower@.take(pos as int) + lower@.subrange(
                    pos as int,
                    end as int,
                ));
                lemma_byte_len_concat(lower@.take(pos as int), q@);
            }
            let a = match find_char_at_byte(&t, seg, seg_bytes, pos_bytes) {
                Some(a) => a,
                None => return None,
            };
            proof {
                assert(byte_len(text@.take(a as int)) == pos_bytes);
            }
            let b = match find_char_at_byte(&t, a, pos_bytes, end_bytes) {
                Some(b) => b,
                None => return None,
            };
            proof {
                assert(byte_len(text@.take(b as int)) == end_bytes);
            }
            if a > seg {
                out.push(piece(string_of_range(&t, seg, a), Tint::Default));
            }
            out.push(piece(string_of_range(&t, a, b), Tint::Yellow));
            proof {
                let pre = if a > seg {
                    seq![(text@.subrange(seg as int, a as int), Tint::Default)]
                } else {
                    seq![]
                };
                let hit = seq![(text@.subrange(a as int, b as int), Tint::Yellow)];
                assert(pieces_view(out@) =~= before + (pre + hit));
                let rest = hit_pieces(text@, lower@, q@, end as int, b as int);
                match rest {
                    Some(rs) => {
                        assert(before + ((pre + hit) + rs) =~= (before + (pre + hit)) + rs);
                    },
                    None => {},
                }
            }
            pos = end;
            seg = b;
            pos_bytes = end_bytes;
            seg_bytes = end_bytes;
        } else {
            proof {
                lemma_byte_len_take_step(lower@, pos as int);
            }
            pos_bytes = pos_bytes + utf8_len_exec(l[pos]) as u128;
            pos = pos + 1;
        }
    }
    let ghost before = pieces_view(out@);
    if seg < t.len() {
        out.push(piece(string_of_range(&t, seg, t.len()), Tint::Default));
        proof {
            assert(pieces_view(out@) =~= before + seq![
                (text@.subrange(seg as int, text@.len() as int), Tint::Default),
            ]);
        }
    } else {
        assert(before + seq![] =~= before);
    }
    if out.len() == 0 {
        out.push(piece(string_of(&t), Tint::Default));
        proof {
            assert(pieces_view(out@) =~= seq![(text@, Tint::Default)]);
        }
    }
    Some(out)
}

/// What a row of book text shows while `highlight` is the last query
/// found: its hits picked out, as `highlighted` says of the lower-case
/// copies, or the whole row as one plain piece when there is no query;
/// `None` when a hit cannot be cut out of the row.
pub open spec fn shown_with(text: Seq<char>, highlight: Option<Seq<char>>) -> Option<
    Seq<(Seq<char>, Tint)>,
> {
    match highlight {
        Some(h) => if h.len() > 0 {
            highlighted(text, lowercase(text), lowercase(h))
        } else {
            Some(seq![(text, Tint::Default)])
        },
        None => Some(seq![(text, Tint::Default)]),
    }
}

/// The pieces a row of book text shows, as `shown_with` says (none where
/// it has none).
pub open spec fn shown(text: Seq<char>, highlight: Option<Seq<char>>) -> Seq<(Seq<char>, Tint)> {
    match shown_with(text, highlight) {
        Some(ps) => ps,
        None => seq![],
    }
}

/// `text` in pieces with the hits of `highlight` (compared in lower
/// case) shown yellow, each hit found in the lower-case copy of `text`
/// and cut out of `text` at the same byte offsets; `None` when such an
/// offset falls inside a character of `text` or past its end.
pub fn highlight_spans(text: &str, highlight: Option<&str>) -> (r: Option<Vec<Piece>>)
    ensures
        r is Some <==> shown_with(text@, opt_str_view(highlight)) is Some,
        r matches Some(ps) ==> shown_with(text@, opt_str_view(highlight)) == Some(pieces_view(ps@)),
{
    let h = match highlight {
        Some(h) => h,
        None => {
            let mut out: Vec<Piece> = Vec::new();
            out.push(piece(text.to_owned(), Tint::Default));
            assert(pieces_view(out@) =~= seq![(text@, Tint::Default)]);
            return Some(out);
        },
    };
    if h.is_empty() {
        let mut out: Vec<Piece> = Vec::new();
        out.push(piece(text.to_owned(), Tint::Default));
        assert(pieces_view(out@) =~= seq![(text@, Tint::Default)]);
        return Some(out);
    }
    let lower = to_lowercase(text);
    let q = to_lowercase(h);
    highlight_with(text, lower.as_str(), q.as_str())
}

/// The characters of an optional string slice.
pub open spec fn opt_str_view(s: Option<&str>) -> Option<Seq<char>> {
    match s {
        Some(t) => Some(t@),
        None => None,
    }
}


// ---------------------------------------------------------------------
// The disguises
// ---------------------------------------------------------------------

/// The log levels that the log disguises pick from.
pub open spec fn level_name(i: nat) -> Seq<char> {
    if i == 0 {
        "INFO"@
    } else if i == 1 {
        "DEBUG"@
    } else if i == 2 {
        "TRACE"@
    } else {
        "WARN"@
    }
}

/// The colour of each log level.
pub open spec fn level_tint(i: nat) -> Tint {
    if i == 0 {
        Tint::Green
    } else if i == 1 {
        Tint::Cyan
    } else if i == 2 {
        Tint::Gray
    } else {
        Tint::Yellow
    }
}

/// The module names that the docker disguise and templates pick from.
pub open spec fn module_name(i: nat) -> Seq<char> {
    if i == 0 {
        "app"@
    } else if i == 1 {
        "db"@
    } else if i == 2 {
        "api"@
    } else if i == 3 {
        "worker"@
    } else {
        "cache"@
    }
}

/// The prefixes that the npm disguise cycles through.
pub open spec fn npm_prefix(i: nat) -> Seq<char> {
    if i == 0 {
        "npm info "@
    } else if i == 1 {
        "npm warn "@
    } else if i == 2 {
        "npm ERR "@
    } else {
        "npm ok "@
    }
}

/// The colour of each npm prefix.
pub open spec fn npm_tint(i: nat) -> Tint {
    if i == 0 {
        Tint::Green
    } else if i == 1 {
        Tint::Yellow
    } else if i == 2 {
        Tint::Red
    } else {
        Tint::Cyan
    }
}

/// The level name `i` (of four).
pub fn level_text(i: usize) -> (r: &'static str)
    requires
        i < 4,
    ensures
        r@ == level_name(i as nat),
{
    proof {
        reveal_strlit("INFO");
        reveal_strlit("DEBUG");
        reveal_strlit("TRACE");
        reveal_strlit("WARN");
    }
    if i == 0 {
        "INFO"
    } else if i == 1 {
        "DEBUG"
    } else if i == 2 {
        "TRACE"
    } else {
        "WARN"
    }
}

/// The colour of level `i`.
fn level_color(i: usize) -> (r: Tint)
    ensures
        r == level_tint(i as nat),
{
    if i == 0 {
        Tint::Green
    } else if i == 1 {
        Tint::Cyan
    } else if i == 2 {
        Tint::Gray
    } else {
        Tint::Yellow
    }
}

/// The module name `i` (of five).
pub fn module_text(i: usize) -> (r: &'static str)
    requires
        i < 5,
    ensures
        r@ == module_name(i as nat),
{
    proof {
        reveal_strlit("app");
        reveal_strlit("db");
        reveal_strlit("api");
        reveal_strlit("worker");
        reveal_strlit("cache");
    }
    if i == 0 {
        "app"
    } else if i == 1 {
        "db"
    } else if i == 2 {
        "api"
    } else if i == 3 {
        "worker"
    } else {
        "cache"
    }
}

/// `[` + `s` + `] `.
pub open spec fn bracketed(s: Seq<char>) -> Seq<char> {
    seq!['['] + s + seq![']', ' ']
}

/// A level as the log disguises show it: left-aligned in five columns,
/// then a space.
pub open spec fn level_field(i: nat) -> Seq<char> {
    pad_right(level_name(i), 5) + seq![' ']
}

/// A server-log row: the time stamp, the level, the text.
pub open spec fn log_row(stamp: Seq<char>, level: nat, text: Seq<(Seq<char>, Tint)>) -> Seq<
    (Seq<char>, Tint),
> {
    seq![(bracketed(stamp), Tint::DarkGray), (level_field(level), level_tint(level))] + text
}

/// A docker-logs row: the time stamp, the module, the level, the text.
pub open spec fn docker_row(
    stamp: Seq<char>,
    module: nat,
    level: nat,
    text: Seq<(Seq<char>, Tint)>,
) -> Seq<(Seq<char>, Tint)> {
    seq![
        (bracketed(stamp), Tint::DarkGray),
        (bracketed(module_name(module)), Tint::Magenta),
        (level_field(level), level_tint(level)),
    ] + text
}

/// A kubectl-logs row: the time stamp, the level, the pod, the text.
pub open spec fn kubectl_row(stamp: Seq<char>, level: nat, pod: nat, text: Seq<(Seq<char>, Tint)>) -> Seq<
    (Seq<char>, Tint),
> {
    seq![
        (stamp + seq![' '], Tint::DarkGray),
        (level_field(level), level_tint(level)),
        (bracketed("pod-"@ + pad_left_with(hex(pod), 4, '0')), Tint::Magenta),
    ] + text
}

/// A git-log row: a seven-digit hash, a bar, the text.
pub open spec fn git_row(hash: nat, text: Seq<(Seq<char>, Tint)>) -> Seq<(Seq<char>, Tint)> {
    seq![(pad_left_with(hex(hash), 7, '0') + " | "@, Tint::DarkGray)] + text
}

/// Row `i` of the npm disguise: the prefixes taken in turn, the text.
pub open spec fn npm_row(i: nat, text: Seq<(Seq<char>, Tint)>) -> Seq<(Seq<char>, Tint)> {
    seq![(npm_prefix(i % 4), npm_tint(i % 4))] + text
}

/// A pytest row: the test file, a test number in three digits, the
/// outcome, the text.
pub open spec fn pytest_row(test: nat, passed: bool, text: Seq<(Seq<char>, Tint)>) -> Seq<
    (Seq<char>, Tint),
> {
    seq![
        ("test_app.py::"@, Tint::DarkGray),
        ("test_"@ + pad_left_with(decimal(test), 3, '0') + seq![' '], Tint::Default),
        (if passed {
            "PASSED "@
        } else {
            "FAILED "@
        }, if passed {
            Tint::Green
        } else {
            Tint::Red
        }),
    ] + text
}

/// `front` followed by `rest`.
fn joined(front: Vec<Piece>, rest: Vec<Piece>) -> (r: Vec<Piece>)
    ensures
        pieces_view(r@) == pieces_view(front@) + pieces_view(rest@),
{
    let mut front = front;
    let mut rest = rest;
    let ghost a = front@;
    let ghost b = rest@;
    front.append(&mut rest);
    assert(pieces_view(front@) =~= pieces_view(a) + pieces_view(b));
    front
}

/// `[stamp] `.
fn bracketed_text(s: &str) -> (r: String)
    ensures
        r@ == bracketed(s@),
{
    proof {
        reveal_strlit("[");
        reveal_strlit("] ");
    }
    let mut out = "[".to_owned();
    out.push_str(s);
    out.push_str("] ");
    assert(out@ =~= bracketed(s@));
    out
}

/// The level field of level `i`.
fn level_field_text(i: usize) -> (r: String)
    requires
        i < 4,
    ensures
        r@ == level_field(i as nat),
{
    let name = chars_of(level_text(i));
    let mut out = crate::text::pad_right_chars(&name, 5);
    out.push(' ');
    string_of(&out)
}

/// A number in `width` lower-case hexadecimal digits, zero-filled.
fn hex_field(n: u64, width: usize) -> (r: Vec<char>)
    ensures
        r@ == pad_left_with(hex(n as nat), width as nat, '0'),
{
    let d = crate::text::hex_chars(n);
    crate::text::pad_left_with_chars(&d, width, '0')
}

/// A server-log row for `text`, stamped `stamp`, at level `level`.
pub fn log_pieces(stamp: &str, level: usize, text: Vec<Piece>) -> (r: Vec<Piece>)
    requires
        level < 4,
    ensures
        pieces_view(r@) == log_row(stamp@, level as nat, pieces_view(text@)),
{
    let mut front: Vec<Piece> = Vec::new();
    front.push(piece(bracketed_text(stamp), Tint::DarkGray));
    front.push(piece(level_field_text(level), level_color(level)));
    let r = joined(front, text);
    assert(pieces_view(r@) =~= log_row(stamp@, level as nat, pieces_view(text@)));
    r
}

/// A docker-logs row for `text`.
pub fn docker_pieces(stamp: &str, module: usize, level: usize, text: Vec<Piece>) -> (r: Vec<Piece>)
    requires
        module < 5,
        level < 4,
    ensures
        pieces_view(r@) == docker_row(stamp@, module as nat, level as nat, pieces_view(text@)),
{
    let mut front: Vec<Piece> = Vec::new();
    front.push(piece(bracketed_text(stamp), Tint::DarkGray));
    front.push(piece(bracketed_text(module_text(module)), Tint::Magenta));
    front.push(piece(level_field_text(level), level_color(level)));
    let r = joined(front, text);
    assert(pieces_view(r@) =~= docker_row(stamp@, module as nat, level as nat, pieces_view(text@)));
    r
}

/// A kubectl-logs row for `text`.
pub fn kubectl_pieces(stamp: &str, level: usize, pod: u16, text: Vec<Piece>) -> (r: Vec<Piece>)
    requires
        level < 4,
    ensures
        pieces_view(r@) == kubectl_row(stamp@, level as nat, pod as nat, pieces_view(text@)),
{
    proof {
        reveal_strlit("pod-");
    }
    let mut first = stamp.to_owned();
    first.push(' ');
    let mut pod_name: Vec<char> = chars_of("pod-");
    let digits = hex_field(pod as u64, 4);
    crate::text::append_chars(&mut pod_name, &digits);
    let pod_text = string_of(&pod_name);
    assert(first@ =~= stamp@ + seq![' ']);
    assert(pod_text@ =~= "pod-"@ + pad_left_with(hex(pod as nat), 4, '0'));
    let mut front: Vec<Piece> = Vec::new();
    front.push(piece(first, Tint::DarkGray));
    front.push(piece(level_field_text(level), level_color(level)));
    front.push(piece(bracketed_text(pod_text.as_str()), Tint::Magenta));
    let r = joined(front, text);
    assert(pieces_view(r@) =~= kubectl_row(stamp@, level as nat, pod as nat, pieces_view(text@)));
    r
}

/// A git-log row for `text`, with the hash `hash`.
pub fn git_pieces(hash: u32, text: Vec<Piece>) -> (r: Vec<Piece>)
    ensures
        pieces_view(r@) == git_row(hash as nat, pieces_view(text@)),
{
    proof {
        reveal_strlit(" | ");
    }
    let mut h = hex_field(hash as u64, 7);
    let bar = chars_of(" | ");
    crate::text::append_chars(&mut h, &bar);
    let mut front: Vec<Piece> = Vec::new();
    front.push(piece(string_of(&h), Tint::DarkGray));
    let r = joined(front, text);
    assert(pieces_view(r@) =~= git_row(hash as nat, pieces_view(text@)));
    r
}

/// Row `i` of the npm disguise for `text`.
pub fn npm_pieces(i: usize, text: Vec<Piece>) -> (r: Vec<Piece>)
    ensures
        pieces_view(r@) == npm_row(i as nat, pieces_view(text@)),
{
    proof {
        reveal_strlit("npm info ");
        reveal_strlit("npm warn ");
        reveal_strlit("npm ERR ");
        reveal_strlit("npm ok ");
    }
    let k = i % 4;
    let (p, t) = if k == 0 {
        ("npm info ", Tint::Green)
    } else if k == 1 {
        ("npm warn ", Tint::Yellow)
    } else if k == 2 {
        ("npm ERR ", Tint::Red)
    } else {
        ("npm ok ", Tint::Cyan)
    };
    let mut front: Vec<Piece> = Vec::new();
    front.push(piece(p.to_owned(), t));
    let r = joined(front, text);
    assert(pieces_view(r@) =~= npm_row(i as nat, pieces_view(text@)));
    r
}

/// A pytest row for `text`: test number `test`, passed or failed.
pub fn pytest_pieces(test: usize, passed: bool, text: Vec<Piece>) -> (r: Vec<Piece>)
    ensures
        pieces_view(r@) == pytest_row(test as nat, passed, pieces_view(text@)),
{
    proof {
        reveal_strlit("test_app.py::");
        reveal_strlit("test_");
        reveal_strlit("PASSED ");
        reveal_strlit("FAILED ");
    }
    let mut name: Vec<char> = chars_of("test_");
    let digits = crate::text::decimal_chars(test);
    let padded = crate::text::pad_left_with_chars(&digits, 3, '0');
    crate::text::append_chars(&mut name, &padded);
    name.push(' ');
    assert(name@ =~= "test_"@ + pad_left_with(decimal(test as nat), 3, '0') + seq![' ']);
    let mut front: Vec<Piece> = Vec::new();
    front.push(piece("test_app.py::".to_owned(), Tint::DarkGray));
    front.push(piece(string_of(&name), Tint::Default));
    if passed {
        front.push(piece("PASSED ".to_owned(), Tint::Green));
    } else {
        front.push(piece("FAILED ".to_owned(), Tint::Red));
    }
    let r = joined(front, text);
    assert(pieces_view(r@) =~= pytest_row(test as nat, passed, pieces_view(text@)));
    r
}

/// A template part with its placeholders filled in: `{time}`, `{level}`,
/// `{module}` and `{trace_id}` (eight hexadecimal digits), replaced in
/// that order.
pub open spec fn expand_template(part: Seq<char>, stamp: Seq<char>, level: nat, module: nat, trace: nat) -> Seq<
    char,
> {
    let a = replace_all(part, "{time}"@, stamp);
    let b = replace_all(a, "{level}"@, level_name(level));
    let c = replace_all(b, "{module}"@, module_name(module));
    replace_all(c, "{trace_id}"@, pad_left_with(hex(trace), 8, '0'))
}

/// A row of a custom template: its part before the text, the text, its
/// part after the text, each part filled in.
pub open spec fn template_row(
    prefix: Seq<char>,
    suffix: Seq<char>,
    stamp: Seq<char>,
    level: nat,
    module: nat,
    trace: nat,
    text: Seq<(Seq<char>, Tint)>,
) -> Seq<(Seq<char>, Tint)> {
    seq![(expand_template(prefix, stamp, level, module, trace), Tint::Default)] + text + seq![
        (expand_template(suffix, stamp, level, module, trace), Tint::Default),
    ]
}

/// `part` filled in as `expand_template` says.
pub fn expand_template_text(part: &str, stamp: &str, level: usize, module: usize, trace: u32) -> (r: String)
    requires
        level < 4,
        module < 5,
    ensures
        r@ == expand_template(part@, stamp@, level as nat, module as nat, trace as nat),
{
    proof {
        reveal_strlit("{time}");
        reveal_strlit("{level}");
        reveal_strlit("{module}");
        reveal_strlit("{trace_id}");
    }
    let p = chars_of(part);
    let a = replace_chars(&p, &chars_of("{time}"), &chars_of(stamp));
    let b = replace_chars(&a, &chars_of("{level}"), &chars_of(level_text(level)));
    let c = replace_chars(&b, &chars_of("{module}"), &chars_of(module_text(module)));
    let d = replace_chars(&c, &chars_of("{trace_id}"), &hex_field(trace as u64, 8));
    string_of(&d)
}

/// A custom-template row for `text`.
pub fn template_pieces(
    prefix: &str,
    suffix: &str,
    stamp: &str,
    level: usize,
    module: usize,
    trace: u32,
    text: Vec<Piece>,
) -> (r: Vec<Piece>)
    requires
        level < 4,
        module < 5,
    ensures
        pieces_view(r@) == template_row(
            prefix@,
            suffix@,
            stamp@,
            level as nat,
            module as nat,
            trace as nat,
            pieces_view(text@),
        ),
{
    let mut front: Vec<Piece> = Vec::new();
    front.push(piece(expand_template_text(prefix, stamp, level, module, trace), Tint::Default));
    let mut back: Vec<Piece> = Vec::new();
    back.push(piece(expand_template_text(suffix, stamp, level, module, trace), Tint::Default));
    let r = joined(joined(front, text), back);
    assert(pieces_view(r@) =~= template_row(
        prefix@,
        suffix@,
        stamp@,
        level as nat,
        module as nat,
        trace as nat,
        pieces_view(text@),
    ));
    r
}

/// The pieces of each row.
pub open spec fn rows_view(rs: Seq<Vec<Piece>>) -> Seq<Seq<(Seq<char>, Tint)>> {
    rs.map_values(|r: Vec<Piece>| pieces_view(r@))
}

/// The progress counter of the minimal disguise, ` [line/lines]`.
pub open spec fn minimal_counter(current: nat, total: nat) -> Seq<char> {
    " ["@ + decimal(current) + seq!['/'] + decimal(total) + seq![']']
}

/// The rows of the minimal disguise: the text rows, the last one followed
/// by the progress counter.
pub open spec fn minimal_rows(rows: Seq<Seq<(Seq<char>, Tint)>>, current: nat, total: nat) -> Seq<
    Seq<(Seq<char>, Tint)>,
> {
    if rows.len() == 0 {
        rows
    } else {
        rows.update(
            rows.len() - 1,
            rows.last() + seq![(minimal_counter(current, total), Tint::DarkGray)],
        )
    }
}

/// The rows of the comment disguise, `lines` of them at least: each text
/// row after `// `, rows of `//` alone to fill up, and row `lines - 1`,
/// the last one drawn, followed by `suffix`.
pub open spec fn comment_rows(rows: Seq<Seq<(Seq<char>, Tint)>>, suffix: Seq<char>, lines: nat) -> Seq<
    Seq<(Seq<char>, Tint)>,
> {
    let last = if lines > 0 {
        lines - 1
    } else {
        0
    };
    let text_rows = Seq::new(
        rows.len(),
        |i: int|
            seq![("// "@, Tint::DarkGray)] + rows[i] + if i == last {
                seq![(suffix, Tint::DarkGray)]
            } else {
                seq![]
            },
    );
    if rows.len() >= lines {
        text_rows
    } else {
        text_rows + Seq::new(
            (lines - rows.len()) as nat,
            |i: int|
                seq![("//"@, Tint::DarkGray)] + if rows.len() + i == last {
                    seq![(suffix, Tint::DarkGray)]
                } else {
                    seq![]
                },
        )
    }
}

/// The progress counter ` [line/lines]`.
fn minimal_counter_text(current: usize, total: usize) -> (r: String)
    ensures
        r@ == minimal_counter(current as nat, total as nat),
{
    proof {
        reveal_strlit(" [");
    }
    let mut out: Vec<char> = chars_of(" [");
    append_chars(&mut out, &decimal_chars(current));
    out.push('/');
    append_chars(&mut out, &decimal_chars(total));
    out.push(']');
    assert(out@ =~= minimal_counter(current as nat, total as nat));
    string_of(&out)
}

/// The rows of the minimal disguise, as `minimal_rows` says.
pub fn minimal_pieces(rows: Vec<Vec<Piece>>, current: usize, total: usize) -> (r: Vec<Vec<Piece>>)
    ensures
        rows_view(r@) == minimal_rows(rows_view(rows@), current as nat, total as nat),
{
    let mut rows = rows;
    let ghost before = rows@;
    match rows.pop() {
        Some(last) => {
            let mut tail: Vec<Piece> = Vec::new();
            tail.push(piece(minimal_counter_text(current, total), Tint::DarkGray));
            assert(pieces_view(tail@) =~= seq![(minimal_counter(current as nat, total as nat), Tint::DarkGray)]);
            assert(last == before.last());
            assert(pieces_view(last@) == rows_view(before)[before.len() - 1]);
            let row = joined(last, tail);
            rows.push(row);
            assert(rows@.len() == before.len());
            assert forall|k: int| 0 <= k < before.len() - 1 implies rows_view(rows@)[k] == rows_view(before)[k] by {
                assert(rows@[k] == before[k]);
            }
            assert(rows_view(rows@)[before.len() - 1] == pieces_view(row@));
            assert(rows_view(rows@) =~= minimal_rows(rows_view(before), current as nat, total as nat));
        },
        None => {
            assert(rows_view(rows@) =~= minimal_rows(rows_view(before), current as nat, total as nat));
        },
    }
    rows
}

/// The rows of the comment disguise, as `comment_rows` says.
pub fn comment_pieces(rows: Vec<Vec<Piece>>, suffix: &str, lines: usize) -> (r: Vec<Vec<Piece>>)
    ensures
        rows_view(r@) == comment_rows(rows_view(rows@), suffix@, lines as nat),
{
    proof {
        reveal_strlit("// ");
        reveal_strlit("//");
    }
    let last: usize = if lines > 0 {
        lines - 1
    } else {
        0
    };
    let ghost rv = rows_view(rows@);
    let ghost want = comment_rows(rv, suffix@, lines as nat);
    let n = rows.len();
    let mut out: Vec<Vec<Piece>> = Vec::new();
    let mut rest = rows;
    let mut i: usize = 0;
    assert(want.len() >= n);
    while i < n
        invariant
            i <= n,
            n == rv.len(),
            rest@.len() == n - i,
            forall|k: int| 0 <= k < n - i ==> #[trigger] pieces_view(rest@[k]@) == rv[i + k],
            rows_view(out@) == want.take(i as int),
            out@.len() == i,
            want.len() >= n,
            want == comment_rows(rv, suffix@, lines as nat),
            last == (if lines > 0 {
                lines - 1
            } else {
                0
            }),
        decreases n - i,
    {
        let ghost old_rest = rest@;
        let row = rest.remove(0);
        assert(pieces_view(old_rest[0]@) == rv[i + 0]);
        assert(pieces_view(row@) == rv[i as int]);
        let mut front: Vec<Piece> = Vec::new();
        front.push(piece("// ".to_owned(), Tint::DarkGray));
        let mut back: Vec<Piece> = Vec::new();
        if i == last {
            back.push(piece(suffix.to_owned(), Tint::DarkGray));
        }
        let full = joined(joined(front, row), back);
        let ghost old_out = out@;
        out.push(full);
        proof {
            assert(want[i as int] == pieces_view(full@));
            assert forall|k: int| 0 <= k < i implies rows_view(out@)[k] == want[k] by {
                assert(out@[k] == old_out[k]);
                assert(rows_view(old_out)[k] == want.take(i as int)[k]);
            }
            assert(rows_view(out@) =~= want.take(i + 1));
            assert forall|k: int| 0 <= k < n - (i + 1) implies #[trigger] pieces_view(rest@[k]@) == rv[(i + 1) + k] by {
                assert(rest@[k] == old_rest[k + 1]);
                assert(pieces_view(old_rest[k + 1]@) == rv[i + (k + 1)]);
            }
        }
        i = i + 1;
    }
    while out.len() < lines
        invariant
            n <= out@.len(),
            out@.len() <= lines || out@.len() == n,
            rows_view(out@) == want.take(out@.len() as int),
            want == comment_rows(rv, suffix@, lines as nat),
            n == rv.len(),
            last == (if lines > 0 {
                lines - 1
            } else {
                0
            }),
        decreases lines - out@.len(),
    {
        let mut filler: Vec<Piece> = Vec::new();
        filler.push(piece("//".to_owned(), Tint::DarkGray));
        if out.len() == last {
            filler.push(piece(suffix.to_owned(), Tint::DarkGray));
        }
        let ghost k = out@.len();
        let ghost prev = out@;
        out.push(filler);
        proof {
            assert(want[k as int] == pieces_view(filler@));
            assert forall|j: int| 0 <= j < k implies rows_view(out@)[j] == want[j] by {
                assert(out@[j] == prev[j]);
                assert(rows_view(prev)[j] == want.take(k as int)[j]);
            }
            assert(rows_view(out@) =~= want.take(k + 1int));
        }
    }
    assert(want.take(out@.len() as int) =~= want);
    out
}

// ---------------------------------------------------------------------
// Drawing a disguise
// ---------------------------------------------------------------------

/// The time-stamp layout of the server-log and docker disguises.
pub const STAMP_LAYOUT: &'static str = "%Y-%m-%d %H:%M:%S";

/// The time-stamp layout of the kubectl disguise.
pub const ISO_STAMP_LAYOUT: &'static str = "%Y-%m-%dT%H:%M:%SZ";

/// What chrono writes for the instant `utc_secs` seconds after the Unix
/// epoch, seen at the fixed offset `offset_secs` from UTC, in `layout`:
/// `DateTime::from_timestamp`, `with_timezone` to that `FixedOffset`,
/// then `format`; empty when chrono cannot represent the instant.
pub uninterp spec fn stamp_outcome(utc_secs: i64, offset_secs: i32, layout: Seq<char>) -> Seq<char>;

/// The current time from `chrono::Local::now`, in whole seconds since
/// the Unix epoch. Nothing is claimed of it: it is the clock's.
#[verifier::external_body]
fn local_now_secs() -> (r: i64) {
    chrono::Local::now().timestamp()
}

/// The machine's offset from UTC, in seconds, at the instant `utc_secs`
/// seconds after the Unix epoch: chrono's `DateTime::from_timestamp`,
/// `with_timezone(&Local)`, then the `FixedOffset`'s `local_minus_utc`,
/// which chrono keeps within a day either way (none when chrono cannot
/// represent the instant). It depends on the machine's time zone, so
/// nothing more is claimed.
#[verifier::external_body]
fn local_offset_at(utc_secs: i64) -> (r: i32)
    ensures
        -86_400 < r < 86_400,
{
    match chrono::DateTime::from_timestamp(utc_secs, 0) {
        Some(t) => t.with_timezone(&chrono::Local).offset().local_minus_utc(),
        None => 0,
    }
}

/// Writes the instant `utc_secs` at the offset `offset_secs` in `layout`
/// with chrono (`FixedOffset::east_opt`, `DateTime::from_timestamp`,
/// `with_timezone`, `format`). The result is named `stamp_outcome`.
#[verifier::external_body]
fn format_stamp(utc_secs: i64, offset_secs: i32, layout: &str) -> (r: String)
    requires
        -86_400 < offset_secs < 86_400,
        layout@ == STAMP_LAYOUT@ || layout@ == ISO_STAMP_LAYOUT@,
    ensures
        r@ == stamp_outcome(utc_secs, offset_secs, layout@),
{
    match (chrono::FixedOffset::east_opt(offset_secs), chrono::DateTime::from_timestamp(utc_secs, 0)) {
        (Some(o), Some(t)) => t.with_timezone(&o).format(layout).to_string(),
        _ => String::new(),
    }
}

/// `rand::Rng::gen_range(0..n)` on the thread's generator: a number
/// below `n` drawn at random.
#[verifier::external_body]
fn random_below(n: usize) -> (r: usize)
    requires
        n > 0,
    ensures
        r < n,
{
    rand::Rng::gen_range(&mut rand::thread_rng(), 0..n)
}

/// `rand::Rng::gen::<u32>()` on the thread's generator.
#[verifier::external_body]
fn random_u32() -> (r: u32) {
    rand::Rng::gen::<u32>(&mut rand::thread_rng())
}

/// `rand::Rng::gen::<u16>()` on the thread's generator.
#[verifier::external_body]
fn random_u16() -> (r: u16) {
    rand::Rng::gen::<u16>(&mut rand::thread_rng())
}

/// `rand::seq::SliceRandom::choose` on the thread's generator: one of
/// `items`, drawn at random.
#[verifier::external_body]
fn random_pick(items: &[&str]) -> (r: String)
    requires
        items@.len() > 0,
    ensures
        items@.map_values(|s: &str| s@).contains(r@),
{
    match rand::seq::SliceRandom::choose(items, &mut rand::thread_rng()) {
        Some(s) => s.to_string(),
        None => String::new(),
    }
}

/// A module name drawn at random from `module_name`'s five.
fn random_module() -> (r: usize)
    ensures
        r < 5,
{
    proof {
        reveal_strlit("app");
        reveal_strlit("db");
        reveal_strlit("api");
        reveal_strlit("worker");
        reveal_strlit("cache");
    }
    let names: [&'static str; 5] = ["app", "db", "api", "worker", "cache"];
    let picked = random_pick(&names);
    let mut i: usize = 0;
    while i < 4
        invariant
            i <= 4,
        decreases 4 - i,
    {
        if crate::text::str_eq(picked.as_str(), names[i]) {
            return i;
        }
        i = i + 1;
    }
    4
}

/// The width of the text column when the reader draws a terminal of
/// `v.terminal_width` columns, once the disguise's decoration is taken
/// off; the comment disguise's progress suffix is `suffix_width` wide.
pub open spec fn render_width(v: AppView, suffix_width: nat) -> nat {
    let width = v.terminal_width as int;
    match v.custom_template {
        Some(t) => at_least_one(
            width - (str_width_of(template_prefix(t)) + str_width_of(template_suffix(t))),
        ),
        None => at_least_one(
            width - match v.mode {
                DisplayMode::Log => 29,
                DisplayMode::Minimal => minimal_counter(
                    v.current_line as nat,
                    v.book.lines@.len(),
                ).len() as int,
                DisplayMode::Comment => 3 + suffix_width as int,
                DisplayMode::GitLog => 14,
                DisplayMode::NpmInstall => 9,
                DisplayMode::Pytest => 31,
                DisplayMode::DockerLogs => 38,
                DisplayMode::KubectlLogs => 42,
            },
        ),
    }
}

/// Whether every character of `s` is printable ASCII.
pub open spec fn printable_ascii(s: Seq<char>) -> bool {
    forall|i: int| 0 <= i < s.len() ==> 0x20 <= #[trigger] s[i] as u32 && (s[i] as u32) < 0x7F
}

/// The display width of a string of printable ASCII characters.
fn ascii_width(s: &str) -> (r: usize)
    requires
        printable_ascii(s@),
    ensures
        r == s@.len(),
{
    str_width(s)
}

/// The widest of the npm disguise's prefixes.
fn npm_prefix_width() -> (r: usize)
    ensures
        r == 9,
{
    proof {
        reveal_strlit("npm info ");
        reveal_strlit("npm warn ");
        reveal_strlit("npm ERR ");
        reveal_strlit("npm ok ");
    }
    let a = ascii_width("npm info ");
    let b = ascii_width("npm warn ");
    let c = ascii_width("npm ERR ");
    let d = ascii_width("npm ok ");
    let mut w = a;
    if b > w {
        w = b;
    }
    if c > w {
        w = c;
    }
    if d > w {
        w = d;
    }
    w
}

impl App {
    /// The width of the text column for drawing, as `render_width` says;
    /// `comment_suffix_width` is the width of the comment disguise's
    /// progress suffix.
    pub fn render_content_width(&self, comment_suffix_width: usize) -> (r: usize)
        ensures
            r == render_width(self@, comment_suffix_width as nat),
    {
        let width = self.terminal_width as usize;
        match &self.custom_template {
            Some(tmpl) => {
                let (prefix, suffix) = template_parts(tmpl.as_str());
                let pw = str_width(prefix.as_str());
                let sw = str_width(suffix.as_str());
                width_left(width, pw, sw)
            },
            None => match self.mode {
                DisplayMode::Log => width_left(width, 29, 0),
                DisplayMode::Minimal => {
                    let counter = minimal_counter_text(self.current_line, self.book.lines.len());
                    proof {
                        reveal_strlit(" [");
                        crate::text::lemma_decimal_digits(self.current_line as nat);
                        crate::text::lemma_decimal_digits(self.book.lines@.len());
                        let c = minimal_counter(self.current_line as nat, self.book.lines@.len());
                        let a = decimal(self.current_line as nat);
                        let b = decimal(self.book.lines@.len());
                        assert forall|i: int| 0 <= i < c.len() implies 0x20 <= #[trigger] c[i] as u32
                            && (c[i] as u32) < 0x7F by {
                            if 2 <= i < 2 + a.len() {
                                assert(c[i] == a[i - 2]);
                                assert(crate::text::is_digit(a[i - 2]));
                            } else if 3 + a.len() <= i < 3 + a.len() + b.len() {
                                assert(c[i] == b[i - 3 - a.len()]);
                                assert(crate::text::is_digit(b[i - 3 - a.len()]));
                            }
                        }
                    }
                    width_left(width, ascii_width(counter.as_str()), 0)
                },
                DisplayMode::Comment => {
                    proof {
                        reveal_strlit("// ");
                    }
                    width_left(width, ascii_width("// "), comment_suffix_width)
                },
                DisplayMode::GitLog => width_left(width, 14, 0),
                DisplayMode::NpmInstall => width_left(width, npm_prefix_width(), 0),
                DisplayMode::Pytest => {
                    proof {
                        reveal_strlit("test_read.py::test_1234 PASSED ");
                    }
                    width_left(width, ascii_width("test_read.py::test_1234 PASSED "), 0)
                },
                DisplayMode::DockerLogs => width_left(width, 38, 0),
                DisplayMode::KubectlLogs => width_left(width, 42, 0),
            },
        }
    }
}

/// The instant of row `i`'s time stamp: one second per row after `now`
/// (held at the last second an `i64` holds).
pub open spec fn row_stamp_secs(now: i64, i: nat) -> i64 {
    if now + i <= i64::MAX {
        (now + i) as i64
    } else {
        i64::MAX
    }
}

/// Whether `row` is what the disguise of `v` draws for the text row
/// `text`, the `i`-th on screen, from book line `line`, when the clock
/// read `now` at the offset `offset` (in the disguises that decorate each
/// row on its own): its time stamp is `now` plus `i` seconds, the server
/// log's level is the line number modulo four, and what a disguise draws
/// at random (a level, a module, a hash, a pod, a test) is left open
/// within its range.
pub open spec fn disguise_row_ok(
    v: AppView,
    i: nat,
    line: usize,
    now: i64,
    offset: i32,
    text: Seq<char>,
    row: Seq<(Seq<char>, Tint)>,
) -> bool {
    let body = shown(text, v.search_highlight);
    let stamp = stamp_outcome(row_stamp_secs(now, i), offset, STAMP_LAYOUT@);
    let iso_stamp = stamp_outcome(row_stamp_secs(now, i), offset, ISO_STAMP_LAYOUT@);
    match v.custom_template {
        Some(t) => exists|level: nat, module: nat, trace: nat|
            level < 4 && module < 5 && trace <= u32::MAX && row == #[trigger] template_row(
                template_prefix(t),
                template_suffix(t),
                stamp,
                level,
                module,
                trace,
                body,
            ),
        None => match v.mode {
            DisplayMode::Log => row == log_row(stamp, (line % 4) as nat, body),
            DisplayMode::GitLog => exists|hash: nat|
                hash <= u32::MAX && row == #[trigger] git_row(hash, body),
            DisplayMode::NpmInstall => row == npm_row(i, body),
            DisplayMode::Pytest => exists|test: nat, passed: bool|
                test < 1000 && row == #[trigger] pytest_row(test, passed, body),
            DisplayMode::DockerLogs => exists|module: nat, level: nat|
                module < 5 && level < 4 && row == #[trigger] docker_row(stamp, module, level, body),
            DisplayMode::KubectlLogs => exists|level: nat, pod: nat|
                level < 4 && pod <= u16::MAX && row == #[trigger] kubectl_row(iso_stamp, level, pod, body),
            _ => row == body,
        },
    }
}

/// Whether `r` is what the disguise of `v` draws for the text rows `rows`
/// from the book lines `lines`, the clock having read `now`, row `i`'s
/// instant seen at the offset `offsets[i]`: the minimal disguise adds the
/// progress counter to the last
/// row, the comment disguise comments each row, adds `comment_suffix` to
/// the last display line and fills up to them, and the others decorate
/// each row as `disguise_row_ok` says.
pub open spec fn disguised_at(
    v: AppView,
    rows: Seq<Seq<char>>,
    lines: Seq<usize>,
    comment_suffix: Seq<char>,
    now: i64,
    offsets: Seq<i32>,
    r: Seq<Seq<(Seq<char>, Tint)>>,
) -> bool {
    &&& v.custom_template is None && v.mode == DisplayMode::Minimal ==> r == minimal_rows(
        shown_rows(rows, v.search_highlight),
        v.current_line as nat,
        v.book.lines@.len(),
    )
    &&& v.custom_template is None && v.mode == DisplayMode::Comment ==> r == comment_rows(
        shown_rows(rows, v.search_highlight),
        comment_suffix,
        v.display_lines as nat,
    )
    &&& decorates_each_row(v) ==> {
        &&& r.len() == rows.len()
        &&& forall|i: int|
            0 <= i < rows.len() ==> disguise_row_ok(
                v,
                i as nat,
                lines[i],
                now,
                offsets[i],
                #[trigger] rows[i],
                r[i],
            )
    }
}

/// Whether the search hits can be cut out of each of the text rows.
pub open spec fn all_shown(rows: Seq<Seq<char>>, highlight: Option<Seq<char>>) -> bool {
    forall|i: int| 0 <= i < rows.len() ==> (#[trigger] shown_with(rows[i], highlight)) is Some
}

/// The text rows with their search hits picked out.
pub open spec fn shown_rows(rows: Seq<Seq<char>>, highlight: Option<Seq<char>>) -> Seq<
    Seq<(Seq<char>, Tint)>,
> {
    Seq::new(rows.len(), |i: int| shown(rows[i], highlight))
}

/// Whether the disguise of `v` decorates each row on its own (the minimal
/// and comment disguises decorate the rows as a whole).
pub open spec fn decorates_each_row(v: AppView) -> bool {
    v.custom_template is Some || (v.mode != DisplayMode::Minimal && v.mode != DisplayMode::Comment)
}

/// The characters of each string.
pub open spec fn strings_view(v: Seq<String>) -> Seq<Seq<char>> {
    v.map_values(|s: String| s@)
}

impl App {
    /// The search query to pick out, as a string slice.
    fn highlight_query(&self) -> (r: Option<&str>)
        ensures
            opt_str_view(r) == self@.search_highlight,
    {
        match &self.search_highlight {
            Some(h) => Some(h.as_str()),
            None => None,
        }
    }

    /// The text rows `rows`, from the book lines `row_lines`, dressed up
    /// in the current disguise at the clock reading `now` (seconds since
    /// the Unix epoch), row `i`'s instant seen at `offsets[i]` seconds from
    /// UTC, as `disguised_at` says; `None` when a search hit cannot be cut
    /// out of one of the rows.
    pub fn disguised_rows_at(
        &self,
        rows: Vec<String>,
        row_lines: &[usize],
        comment_suffix: &str,
        now: i64,
        offsets: &[i32],
    ) -> (r: Option<Vec<Vec<Piece>>>)
        requires
            row_lines@.len() == rows@.len(),
            offsets@.len() == rows@.len(),
            forall|i: int| 0 <= i < offsets@.len() ==> -86_400 < #[trigger] offsets@[i] < 86_400,
        ensures
            r is Some <==> all_shown(strings_view(rows@), self@.search_highlight),
            r matches Some(out) ==> disguised_at(
                self@,
                strings_view(rows@),
                row_lines@,
                comment_suffix@,
                now,
                offsets@,
                rows_view(out@),
            ),
    {
        let h = self.highlight_query();
        let ghost v = self@;
        let mut out: Vec<Vec<Piece>> = Vec::new();
        let mut stamp_secs = now;
        let (prefix, suffix) = match &self.custom_template {
            Some(t) => template_parts(t.as_str()),
            None => (String::new(), String::new()),
        };
        let templated = self.custom_template.is_some();
        let n = rows.len();
        let mut i: usize = 0;
        while i < n
            invariant
                i <= n,
                n == rows@.len(),
                row_lines@.len() == n,
                offsets@.len() == n,
                forall|j: int| 0 <= j < offsets@.len() ==> -86_400 < #[trigger] offsets@[j] < 86_400,
                out@.len() == i,
                v == self@,
                stamp_secs == row_stamp_secs(now, i as nat),
                opt_str_view(h) == v.search_highlight,
                templated == v.custom_template is Some,
                v.custom_template matches Some(t) ==> prefix@ == template_prefix(t) && suffix@
                    == template_suffix(t),
                forall|k: int|
                    0 <= k < i ==> if decorates_each_row(v) {
                        disguise_row_ok(
                            v,
                            k as nat,
                            row_lines@[k],
                            now,
                            offsets@[k],
                            #[trigger] rows@[k]@,
                            pieces_view(out@[k]@),
                        )
                    } else {
                        pieces_view(out@[k]@) == shown(rows@[k]@, v.search_highlight)
                    },
                forall|k: int| 0 <= k < i ==> (#[trigger] shown_with(rows@[k]@, v.search_highlight)) is Some,
            decreases n - i,
        {
            let text = match highlight_spans(rows[i].as_str(), h) {
                Some(ps) => ps,
                None => {
                    proof {
                        assert(strings_view(rows@)[i as int] == rows@[i as int]@);
                    }
                    return None;
                },
            };
            let ghost body = pieces_view(text@);
            assert(shown_with(rows@[i as int]@, v.search_highlight) == Some(body));
            assert(shown(rows@[i as int]@, v.search_highlight) == body);
            proof {
                reveal_strlit("%Y-%m-%d %H:%M:%S");
                reveal_strlit("%Y-%m-%dT%H:%M:%SZ");
            }
            let row = if templated {
                let stamp = format_stamp(stamp_secs, offsets[i], STAMP_LAYOUT);
                let level = random_below(4);
                let module = random_module();
                let trace = random_u32();
                let r = template_pieces(prefix.as_str(), suffix.as_str(), stamp.as_str(), level, module, trace, text);
                assert(pieces_view(r@) == template_row(
                    prefix@,
                    suffix@,
                    stamp@,
                    level as nat,
                    module as nat,
                    trace as nat,
                    body,
                ));
                r
            } else {
                match self.mode {
                    DisplayMode::Log => {
                        let stamp = format_stamp(stamp_secs, offsets[i], STAMP_LAYOUT);
                        let level = row_lines[i] % 4;
                        let r = log_pieces(stamp.as_str(), level, text);
                        assert(pieces_view(r@) == log_row(stamp@, level as nat, body));
                        r
                    },
                    DisplayMode::GitLog => {
                        let hash = random_u32();
                        let r = git_pieces(hash, text);
                        assert(pieces_view(r@) == git_row(hash as nat, body));
                        r
                    },
                    DisplayMode::NpmInstall => npm_pieces(i, text),
                    DisplayMode::Pytest => {
                        let test = random_below(1000);
                        let passed = random_below(2) == 0;
                        let r = pytest_pieces(test, passed, text);
                        assert(pieces_view(r@) == pytest_row(test as nat, passed, body));
                        r
                    },
                    DisplayMode::DockerLogs => {
                        let stamp = format_stamp(stamp_secs, offsets[i], STAMP_LAYOUT);
                        let level = random_below(4);
                        let module = random_module();
                        let r = docker_pieces(stamp.as_str(), module, level, text);
                        assert(pieces_view(r@) == docker_row(stamp@, module as nat, level as nat, body));
                        r
                    },
                    DisplayMode::KubectlLogs => {
                        let stamp = format_stamp(stamp_secs, offsets[i], ISO_STAMP_LAYOUT);
                        let level = random_below(4);
                        let pod = random_u16();
                        let r = kubectl_pieces(stamp.as_str(), level, pod, text);
                        assert(pieces_view(r@) == kubectl_row(stamp@, level as nat, pod as nat, body));
                        r
                    },
                    _ => text,
                }
            };
            let ghost old_out = out@;
            out.push(row);
            if stamp_secs < i64::MAX {
                stamp_secs = stamp_secs + 1;
            }
            proof {
                assert forall|k: int|
                    0 <= k < i + 1 implies if decorates_each_row(v) {
                        disguise_row_ok(
                            v,
                            k as nat,
                            row_lines@[k],
                            now,
                            offsets@[k],
                            #[trigger] rows@[k]@,
                            pieces_view(out@[k]@),
                        )
                    } else {
                        pieces_view(out@[k]@) == shown(rows@[k]@, v.search_highlight)
                    } by {
                    if k < i {
                        assert(out@[k] == old_out[k]);
                    }
                }
            }
            i = i + 1;
        }
        let ghost plain = shown_rows(strings_view(rows@), v.search_highlight);
        proof {
            assert forall|k: int| 0 <= k < n implies (#[trigger] shown_with(
                strings_view(rows@)[k],
                v.search_highlight,
            )) is Some by {
                assert(strings_view(rows@)[k] == rows@[k]@);
            }
        }
        if !templated {
            match self.mode {
                DisplayMode::Minimal => {
                    proof {
                        assert(rows_view(out@) =~= plain);
                    }
                    return Some(minimal_pieces(out, self.current_line, self.book.lines.len()));
                },
                DisplayMode::Comment => {
                    proof {
                        assert(rows_view(out@) =~= plain);
                    }
                    return Some(comment_pieces(out, comment_suffix, self.display_lines));
                },
                _ => {},
            }
        }
        proof {
            assert forall|k: int| 0 <= k < n implies disguise_row_ok(
                v,
                k as nat,
                row_lines@[k],
                now,
                offsets@[k],
                #[trigger] strings_view(rows@)[k],
                rows_view(out@)[k],
            ) by {
                assert(strings_view(rows@)[k] == rows@[k]@);
            }
        }
        Some(out)
    }

    /// The text rows `rows`, from the book lines `row_lines`, dressed up
    /// in the current disguise at the current time, each row's instant
    /// seen at the machine's offset from UTC then, as `disguised_at` says
    /// for some clock reading and offsets; `None` when a search hit cannot
    /// be cut out of one of the rows.
    pub fn disguised_rows(&self, rows: Vec<String>, row_lines: &[usize], comment_suffix: &str) -> (r: Option<Vec<Vec<Piece>>>)
        requires
            row_lines@.len() == rows@.len(),
        ensures
            r is Some <==> all_shown(strings_view(rows@), self@.search_highlight),
            r matches Some(out) ==> exists|now: i64, offsets: Seq<i32>|
                #![trigger disguised_at(self@, strings_view(rows@), row_lines@, comment_suffix@, now, offsets, rows_view(out@))]
                offsets.len() == rows@.len() && (forall|i: int|
                    0 <= i < offsets.len() ==> -86_400 < #[trigger] offsets[i] < 86_400)
                    && disguised_at(
                    self@,
                    strings_view(rows@),
                    row_lines@,
                    comment_suffix@,
                    now,
                    offsets,
                    rows_view(out@),
                ),
    {
        let now = local_now_secs();
        let mut offsets: Vec<i32> = Vec::new();
        let mut secs = now;
        let mut i: usize = 0;
        while i < rows.len()
            invariant
                i <= rows@.len(),
                offsets@.len() == i,
                forall|j: int| 0 <= j < offsets@.len() ==> -86_400 < #[trigger] offsets@[j] < 86_400,
            decreases rows@.len() - i,
        {
            offsets.push(local_offset_at(secs));
            if secs < i64::MAX {
                secs = secs + 1;
            }
            i = i + 1;
        }
        self.disguised_rows_at(rows, row_lines, comment_suffix, now, &offsets)
    }
}

// ---------------------------------------------------------------------
// Screens, lists and the input line
// ---------------------------------------------------------------------

/// What the reader draws.
#[derive(Debug, Clone, Copy, PartialEq, Eq, Structural)]
pub enum Screen {
    /// Blank rows: the reader is hidden.
    Blank,
    /// The list of chapters.
    Chapters,
    /// The list of favourite lines.
    Favorites,
    /// The text in its disguise, with the input line over it.
    Text,
}

/// The screen for the state `v`.
pub open spec fn screen_of(v: AppView) -> Screen {
    if v.hidden {
        Screen::Blank
    } else {
        match v.input_mode {
            InputMode::ChapterList => Screen::Chapters,
            InputMode::FavoriteList => Screen::Favorites,
            _ => Screen::Text,
        }
    }
}

/// The row drawn over the last row of the text: the query being typed,
/// the percentage being typed, or the status message.
pub open spec fn bottom_row(v: AppView) -> Option<Seq<(Seq<char>, Tint)>> {
    if v.input_mode == InputMode::Search {
        Some(seq![("/"@, Tint::Yellow), (v.search_input, Tint::Default), ("_"@, Tint::Yellow)])
    } else if v.input_mode == InputMode::GotoPercent {
        Some(seq![(":"@, Tint::Yellow), (v.goto_input, Tint::Default), ("_"@, Tint::Yellow)])
    } else {
        match v.status_message {
            Some(m) => Some(seq![(m, Tint::Yellow)]),
            None => None,
        }
    }
}

/// `a - b`, but not below zero.
pub open spec fn minus(a: int, b: int) -> nat {
    if a > b {
        (a - b) as nat
    } else {
        0
    }
}

/// The entries `(start, end)` of a list of `total` entries that a list of
/// `visible` rows shows, the cursor kept about in the middle.
pub open spec fn list_window(cursor: nat, visible: nat, total: nat) -> (nat, nat) {
    let first = minus(cursor as int, minus(visible as int, 1) as int / 2);
    let end = if first + visible <= total {
        first + visible
    } else {
        total
    };
    (minus(end as int, visible as int), end)
}

/// The list window always shows the entry under the cursor, and as many
/// entries as fit: a cursor on an entry of a list that has rows stays in
/// view, and the window is `visible` entries long or the whole list.
pub proof fn lemma_list_window_shows_cursor(cursor: nat, visible: nat, total: nat)
    requires
        cursor < total,
        visible > 0,
    ensures
        ({
            let (start, end) = list_window(cursor, visible, total);
            &&& start <= cursor < end <= total
            &&& end - start == if visible < total {
                visible
            } else {
                total
            }
        }),
{
}

/// The row of list entry `index` showing `item`: `> ` before the entry
/// under the cursor, two spaces before the others.
pub open spec fn list_row(item: Seq<char>, index: nat, cursor: nat) -> Seq<(Seq<char>, Tint)> {
    if index == cursor {
        seq![("> "@, Tint::Yellow), (item, Tint::Default)]
    } else {
        seq![("  "@, Tint::Default), (item, Tint::Default)]
    }
}

/// The rows that a list of `visible` rows shows of `items`.
pub open spec fn list_rows(items: Seq<Seq<char>>, cursor: nat, visible: nat) -> Seq<
    Seq<(Seq<char>, Tint)>,
> {
    let (start, end) = list_window(cursor, visible, items.len());
    Seq::new(
        (end - start) as nat,
        |k: int| list_row(items[start + k], (start + k) as nat, cursor),
    )
}

/// The rows of a list of `visible` rows showing `items` with the cursor
/// at `cursor`, as `list_rows` says.
pub fn list_pieces(items: &[String], cursor: usize, visible: usize) -> (r: Vec<Vec<Piece>>)
    requires
        cursor + visible <= usize::MAX,
    ensures
        rows_view(r@) == list_rows(strings_view(items@), cursor as nat, visible as nat),
{
    proof {
        reveal_strlit("> ");
        reveal_strlit("  ");
    }
    let total = items.len();
    let half = visible.saturating_sub(1) / 2;
    let first = cursor.saturating_sub(half);
    let end = if first + visible <= total {
        first + visible
    } else {
        total
    };
    let start = end.saturating_sub(visible);
    let ghost want = list_rows(strings_view(items@), cursor as nat, visible as nat);
    assert(list_window(cursor as nat, visible as nat, total as nat) == (start as nat, end as nat));
    let mut out: Vec<Vec<Piece>> = Vec::new();
    let mut k = start;
    while k < end
        invariant
            start <= k <= end,
            end <= items@.len(),
            want == list_rows(strings_view(items@), cursor as nat, visible as nat),
            want.len() == end - start,
            rows_view(out@) == want.take(k - start),
            out@.len() == k - start,
            list_window(cursor as nat, visible as nat, items@.len()) == (start as nat, end as nat),
        decreases end - k,
    {
        let mut row: Vec<Piece> = Vec::new();
        if k == cursor {
            row.push(piece("> ".to_owned(), Tint::Yellow));
        } else {
            row.push(piece("  ".to_owned(), Tint::Default));
        }
        row.push(piece(items[k].clone(), Tint::Default));
        let ghost old_out = out@;
        out.push(row);
        proof {
            assert(want[k - start] == list_row(items@[k as int]@, k as nat, cursor as nat));
            assert(pieces_view(row@) =~= want[k - start]);
            assert forall|j: int| 0 <= j < k - start implies rows_view(out@)[j] == want[j] by {
                assert(out@[j] == old_out[j]);
                assert(rows_view(old_out)[j] == want.take(k - start)[j]);
            }
            assert(rows_view(out@) =~= want.take(k + 1 - start));
        }
        k = k + 1;
    }
    assert(want.take(end - start) =~= want);
    out
}

/// The bytes UTF-8 takes for the characters `s`.
pub open spec fn byte_len(s: Seq<char>) -> nat
    decreases s.len(),
{
    if s.len() == 0 {
        0
    } else {
        byte_len(s.drop_last()) + utf8_len(s.last())
    }
}

/// The label of a favourite line of text `t`: the text itself up to 40
/// bytes, else its first 40 bytes and `...`; `None` when the 40th byte
/// falls inside a character, where the text cannot be cut.
pub open spec fn favorite_label(t: Seq<char>) -> Option<Seq<char>> {
    if byte_len(t) <= 40 {
        Some(t)
    } else if exists|k: int| 0 <= k <= t.len() && byte_len(#[trigger] t.take(k)) == 40 {
        let k = choose|k: int| 0 <= k <= t.len() && byte_len(#[trigger] t.take(k)) == 40;
        Some(t.take(k) + "..."@)
    } else {
        None
    }
}

/// The entry for favourite line `line` (from zero) whose text is `t`:
/// `第{line + 1}行: ` and the label.
pub open spec fn favorite_entry(line: nat, t: Seq<char>) -> Option<Seq<char>> {
    match favorite_label(t) {
        Some(label) => Some("第"@ + decimal(line + 1) + "行: "@ + label),
        None => None,
    }
}

proof fn lemma_byte_len_take_step(s: Seq<char>, k: int)
    requires
        0 <= k < s.len(),
    ensures
        byte_len(s.take(k + 1)) == byte_len(s.take(k)) + utf8_len(s[k]),
        utf8_len(s[k]) >= 1,
{
    assert(s.take(k + 1).drop_last() =~= s.take(k));
}

proof fn lemma_byte_len_take_grows(s: Seq<char>, i: int, j: int)
    requires
        0 <= i < j <= s.len(),
    ensures
        byte_len(s.take(i)) < byte_len(s.take(j)),
    decreases j - i,
{
    lemma_byte_len_take_step(s, j - 1);
    if i < j - 1 {
        lemma_byte_len_take_grows(s, i, j - 1);
    }
}

/// The label of a favourite line, as `favorite_label` says.
fn favorite_label_text(t: &str) -> (r: Option<String>)
    ensures
        r matches Some(l) ==> favorite_label(t@) == Some(l@),
        r is None ==> favorite_label(t@) is None,
{
    proof {
        reveal_strlit("...");
    }
    let cs = chars_of(t);
    let mut bytes: usize = 0;
    let mut k: usize = 0;
    while k < cs.len() && bytes < 40
        invariant
            k <= cs@.len(),
            cs@ == t@,
            bytes == byte_len(t@.take(k as int)),
            bytes <= 43,
            k > 0 ==> byte_len(t@.take(k - 1)) < 40,
        decreases cs@.len() - k,
    {
        proof {
            lemma_byte_len_take_step(t@, k as int);
        }
        bytes = bytes + utf8_len_exec(cs[k]);
        k = k + 1;
    }
    if k == cs.len() && bytes <= 40 {
        assert(t@.take(k as int) =~= t@);
        return Some(t.to_owned());
    }
    if bytes == 40 {
        proof {
            assert(byte_len(t@.take(k as int)) == 40);
            if k == cs@.len() {
                assert(t@.take(k as int) =~= t@);
            } else {
                lemma_byte_len_take_grows(t@, k as int, t@.len() as int);
                assert(t@.take(t@.len() as int) =~= t@);
            }
            let c = choose|c: int| 0 <= c <= t@.len() && byte_len(#[trigger] t@.take(c)) == 40;
            if c < k {
                lemma_byte_len_take_grows(t@, c, k as int);
            } else if c > k {
                lemma_byte_len_take_grows(t@, k as int, c);
            }
        }
        let mut out = string_of_range(&cs, 0, k);
        out.push_str("...");
        proof {
            assert(cs@.subrange(0, k as int) =~= t@.take(k as int));
        }
        return Some(out);
    }
    proof {
        assert(bytes > 40);
        if k < cs@.len() {
            lemma_byte_len_take_grows(t@, k as int, t@.len() as int);
            assert(t@.take(t@.len() as int) =~= t@);
        } else {
            assert(t@.take(k as int) =~= t@);
        }
        assert forall|c: int| 0 <= c <= t@.len() implies byte_len(#[trigger] t@.take(c)) != 40 by {
            if c < k {
                let m = (k - 1) as int;
                assert(byte_len(t@.take(m)) < 40);
                if c < m {
                    lemma_byte_len_take_grows(t@, c, m);
                }
            } else if c > k {
                lemma_byte_len_take_grows(t@, k as int, c);
            }
        }
    }
    None
}

/// The entry for favourite line `line` whose text is `t`, as
/// `favorite_entry` says.
pub fn favorite_entry_text(line: usize, t: &str) -> (r: Option<String>)
    requires
        line < usize::MAX,
    ensures
        r matches Some(e) ==> favorite_entry(line as nat, t@) == Some(e@),
        r is None ==> favorite_entry(line as nat, t@) is None,
{
    proof {
        reveal_strlit("第");
        reveal_strlit("行: ");
    }
    match favorite_label_text(t) {
        Some(label) => {
            let mut out: Vec<char> = chars_of("第");
            append_chars(&mut out, &decimal_chars(line + 1));
            append_chars(&mut out, &chars_of("行: "));
            append_chars(&mut out, &chars_of(label.as_str()));
            assert(out@ =~= "第"@ + decimal((line + 1) as nat) + "行: "@ + label@);
            Some(string_of(&out))
        },
        None => None,
    }
}

/// The titles of the chapters `cs`.
pub open spec fn chapter_titles(cs: Seq<Chapter>) -> Seq<Seq<char>> {
    cs.map_values(|c: Chapter| c.title@)
}

/// The text of line `line` of `lines`, empty past the end.
pub open spec fn line_or_empty(lines: Seq<String>, line: usize) -> Seq<char> {
    if line < lines.len() {
        lines[line as int]@
    } else {
        seq![]
    }
}

/// Whether every favourite line in `favs` can be listed: its number plus
/// one fits and its text can be cut for the label.
pub open spec fn favorites_listable(favs: Seq<usize>, lines: Seq<String>) -> bool {
    forall|k: int|
        0 <= k < favs.len() ==> #[trigger] favs[k] < usize::MAX && favorite_entry(
            favs[k] as nat,
            line_or_empty(lines, favs[k]),
        ) is Some
}

impl App {
    /// What to draw, as `screen_of` says.
    pub fn screen(&self) -> (r: Screen)
        ensures
            r == screen_of(self@),
    {
        if self.hidden {
            Screen::Blank
        } else {
            match self.input_mode {
                InputMode::ChapterList => Screen::Chapters,
                InputMode::FavoriteList => Screen::Favorites,
                _ => Screen::Text,
            }
        }
    }

    /// The row drawn over the last row of the text, as `bottom_row` says.
    pub fn bottom_pieces(&self) -> (r: Option<Vec<Piece>>)
        ensures
            r is Some <==> bottom_row(self@) is Some,
            r matches Some(ps) ==> bottom_row(self@) == Some(pieces_view(ps@)),
    {
        proof {
            reveal_strlit("/");
            reveal_strlit(":");
            reveal_strlit("_");
        }
        let mut out: Vec<Piece> = Vec::new();
        match self.input_mode {
            InputMode::Search => {
                out.push(piece("/".to_owned(), Tint::Yellow));
                out.push(piece(self.search_input.clone(), Tint::Default));
                out.push(piece("_".to_owned(), Tint::Yellow));
                assert(pieces_view(out@) =~= bottom_row(self@)->0);
                Some(out)
            },
            InputMode::GotoPercent => {
                out.push(piece(":".to_owned(), Tint::Yellow));
                out.push(piece(self.goto_input.clone(), Tint::Default));
                out.push(piece("_".to_owned(), Tint::Yellow));
                assert(pieces_view(out@) =~= bottom_row(self@)->0);
                Some(out)
            },
            _ => match &self.status_message {
                Some(m) => {
                    out.push(piece(m.clone(), Tint::Yellow));
                    assert(pieces_view(out@) =~= bottom_row(self@)->0);
                    Some(out)
                },
                None => None,
            },
        }
    }

    /// The entries of the chapter list: the chapter titles.
    pub fn chapter_items(&self) -> (r: Vec<String>)
        ensures
            strings_view(r@) == chapter_titles(self.book.chapters@),
    {
        let mut out: Vec<String> = Vec::new();
        let mut i: usize = 0;
        while i < self.book.chapters.len()
            invariant
                i <= self.book.chapters@.len(),
                out@.len() == i,
                strings_view(out@) == chapter_titles(self.book.chapters@).take(i as int),
            decreases self.book.chapters@.len() - i,
        {
            let ghost prev = out@;
            out.push(self.book.chapters[i].title.clone());
            proof {
                assert forall|k: int| 0 <= k < i implies strings_view(out@)[k] == chapter_titles(
                    self.book.chapters@,
                )[k] by {
                    assert(out@[k] == prev[k]);
                    assert(strings_view(prev)[k] == chapter_titles(self.book.chapters@).take(
                        i as int,
                    )[k]);
                }
                assert(strings_view(out@) =~= chapter_titles(self.book.chapters@).take(i + 1));
            }
            i = i + 1;
        }
        assert(chapter_titles(self.book.chapters@).take(i as int) =~= chapter_titles(
            self.book.chapters@,
        ));
        out
    }

    /// The entries of the list of favourite lines of the current book:
    /// `第n行: ` and the start of the line, as `favorite_entry` says; `None`
    /// when a line's text cannot be cut for its label (or its number does
    /// not fit).
    pub fn favorite_items(&self) -> (r: Option<Vec<String>>)
        ensures
            ({
                let favs = favorites_of(self@.favorites, self.book.file_path@);
                &&& r is Some <==> favorites_listable(favs, self.book.lines@)
                &&& r matches Some(items) ==> {
                    &&& items@.len() == favs.len()
                    &&& forall|k: int|
                        0 <= k < favs.len() ==> favorite_entry(
                            favs[k] as nat,
                            line_or_empty(self.book.lines@, favs[k]),
                        ) == Some(#[trigger] items@[k]@)
                }
            }),
    {
        let favs = self.bookmarks.favorites(self.book.file_path.as_str());
        let ghost fv = favorites_of(self@.favorites, self.book.file_path@);
        assert(favs@ == fv);
        let mut out: Vec<String> = Vec::new();
        let mut i: usize = 0;
        while i < favs.len()
            invariant
                i <= favs@.len(),
                favs@ == fv,
                fv == favorites_of(self@.favorites, self.book.file_path@),
                out@.len() == i,
                forall|k: int|
                    0 <= k < i ==> #[trigger] fv[k] < usize::MAX && favorite_entry(
                        fv[k] as nat,
                        line_or_empty(self.book.lines@, fv[k]),
                    ) == Some(out@[k]@),
            decreases favs@.len() - i,
        {
            let line = favs[i];
            if line == usize::MAX {
                return None;
            }
            let text: &str = if line < self.book.lines.len() {
                self.book.lines[line].as_str()
            } else {
                ""
            };
            proof {
                if line >= self.book.lines@.len() {
                    reveal_strlit("");
                }
            }
            assert(text@ == line_or_empty(self.book.lines@, line));
            match favorite_entry_text(line, text) {
                Some(e) => {
                    let ghost prev = out@;
                    out.push(e);
                    proof {
                        assert forall|k: int| 0 <= k < i + 1 implies #[trigger] fv[k] < usize::MAX
                            && favorite_entry(
                            fv[k] as nat,
                            line_or_empty(self.book.lines@, fv[k]),
                        ) == Some(out@[k]@) by {
                            if k < i {
                                assert(out@[k] == prev[k]);
                            }
                        }
                    }
                },
                None => {
                    return None;
                },
            }
            i = i + 1;
        }
        Some(out)
    }
}

} // verus!
