//! Reading positions and favourite lines, kept per book file.
use vstd::prelude::*;
use crate::config::DisplayMode;
use crate::text::str_eq;
use crate::text::append_chars;
use crate::text::chars_of;
use crate::text::decimal;
use crate::text::decimal_chars;
use crate::text::parse_usize;
use crate::text::parsed_usize;
use crate::text::string_of;
use crate::text::string_of_range;
use crate::text::trim;
use crate::text::trim_bounds;
use crate::paths::file_name_of;
use crate::paths::file_name_outcome;

verus! {

broadcast use vstd::string::group_string_axioms;

/// Where a book was left, and in which disguise.
#[derive(Debug, Clone, Copy, PartialEq, Eq, Structural)]
pub struct BookmarkEntry {
    pub line_index: usize,
    pub sub_offset: usize,
    pub mode: DisplayMode,
    /// When the book was last left, in milliseconds since the Unix epoch.
    pub last_accessed: Option<u64>,
}

/// The bookmarks of all books, keyed by file path: one reading position
/// per file, and per file a list of favourite line numbers.
pub struct Bookmarks {
    entries: Vec<(String, BookmarkEntry)>,
    favorites: Vec<(String, Vec<usize>)>,
}

/// Whether no key occurs twice in the list `l`.
pub open spec fn keys_distinct<V>(l: Seq<(String, V)>) -> bool {
    forall|i: int, j: int| 0 <= i < j < l.len() ==> #[trigger] l[i].0@ != #[trigger] l[j].0@
}

/// Whether `k` is a key of the list `l`.
pub open spec fn has_key<V>(l: Seq<(String, V)>, k: Seq<char>) -> bool {
    exists|i: int| 0 <= i < l.len() && #[trigger] l[i].0@ == k
}

/// The position of the key `k` in the list `l`.
pub open spec fn key_position<V>(l: Seq<(String, V)>, k: Seq<char>) -> int {
    choose|i: int| 0 <= i < l.len() && #[trigger] l[i].0@ == k
}

/// The association list of entries as a map from file path to entry.
pub open spec fn entry_map(l: Seq<(String, BookmarkEntry)>) -> Map<Seq<char>, BookmarkEntry> {
    Map::new(|k: Seq<char>| has_key(l, k), |k: Seq<char>| l[key_position(l, k)].1)
}

/// The association list of favourites as a map from file path to lines.
pub open spec fn favorite_map(l: Seq<(String, Vec<usize>)>) -> Map<Seq<char>, Seq<usize>> {
    Map::new(|k: Seq<char>| has_key(l, k), |k: Seq<char>| l[key_position(l, k)].1@)
}

/// The position of `k` in a list whose keys are distinct is the one
/// place where `k` stands.
proof fn lemma_key_position<V>(l: Seq<(String, V)>, i: int)
    requires
        keys_distinct(l),
        0 <= i < l.len(),
    ensures
        has_key(l, l[i].0@),
        key_position(l, l[i].0@) == i,
{
    assert(has_key(l, l[i].0@));
    let j = key_position(l, l[i].0@);
    if j != i {
        if j < i {
            assert(l[j].0@ != l[i].0@);
        } else {
            assert(l[i].0@ != l[j].0@);
        }
    }
}

/// The position of `k` in `l`, if `k` is a key of `l`.
fn find_key<V>(l: &Vec<(String, V)>, k: &str) -> (r: Option<usize>)
    ensures
        r matches Some(i) ==> i < l@.len() && l@[i as int].0@ == k@,
        r is None ==> !has_key(l@, k@),
{
    let mut i: usize = 0;
    while i < l.len()
        invariant
            i <= l@.len(),
            forall|j: int| 0 <= j < i ==> #[trigger] l@[j].0@ != k@,
        decreases l@.len() - i,
    {
        if str_eq(l[i].0.as_str(), k) {
            return Some(i);
        }
        i = i + 1;
    }
    None
}

/// The list `l` with the value of key `k` replaced by `v`, or `(k, v)`
/// added at the end when `k` is new.
fn put<V>(l: &mut Vec<(String, V)>, k: &str, v: V)
    requires
        keys_distinct(old(l)@),
    ensures
        keys_distinct(final(l)@),
        has_key(final(l)@, k@),
        final(l)@[key_position(final(l)@, k@)].1 == v,
        forall|k2: Seq<char>|
            k2 != k@ ==> (#[trigger] has_key(final(l)@, k2) <==> has_key(old(l)@, k2)),
        forall|k2: Seq<char>|
            k2 != k@ && #[trigger] has_key(old(l)@, k2) ==> final(l)@[key_position(
                final(l)@,
                k2,
            )] == old(l)@[key_position(old(l)@, k2)],
{
    let ghost before = l@;
    match find_key(l, k) {
        Some(i) => {
            l.set(i, (k.to_owned(), v));
            proof {
                assert(keys_distinct(l@)) by {
                    assert forall|a: int, b: int| 0 <= a < b < l@.len() implies #[trigger] l@[a].0@
                        != #[trigger] l@[b].0@ by {
                        assert(before[a].0@ != before[b].0@);
                    }
                }
                lemma_key_position(l@, i as int);
                assert forall|k2: Seq<char>|
                    k2 != k@ implies (#[trigger] has_key(l@, k2) <==> has_key(before, k2)) by {
                    if has_key(l@, k2) {
                        let j = choose|j: int| 0 <= j < l@.len() && #[trigger] l@[j].0@ == k2;
                        assert(before[j].0@ == k2);
                    }
                    if has_key(before, k2) {
                        let j = choose|j: int| 0 <= j < before.len() && #[trigger] before[j].0@ == k2;
                        assert(l@[j].0@ == k2);
                    }
                }
                assert forall|k2: Seq<char>|
                    k2 != k@ && #[trigger] has_key(before, k2) implies l@[key_position(
                        l@,
                        k2,
                    )] == before[key_position(before, k2)] by {
                    let j = key_position(before, k2);
                    lemma_key_position(before, j);
                    assert(l@[j] == before[j]);
                    lemma_key_position(l@, j);
                }
            }
        },
        None => {
            l.push((k.to_owned(), v));
            proof {
                let n = before.len() as int;
                assert(keys_distinct(l@)) by {
                    assert forall|a: int, b: int| 0 <= a < b < l@.len() implies #[trigger] l@[a].0@
                        != #[trigger] l@[b].0@ by {
                        if b == n {
                            assert(l@[a] == before[a]);
                        } else {
                            assert(before[a].0@ != before[b].0@);
                        }
                    }
                }
                lemma_key_position(l@, n);
                assert forall|k2: Seq<char>|
                    k2 != k@ implies (#[trigger] has_key(l@, k2) <==> has_key(before, k2)) by {
                    if has_key(l@, k2) {
                        let j = choose|j: int| 0 <= j < l@.len() && #[trigger] l@[j].0@ == k2;
                        assert(j < n);
                        assert(before[j].0@ == k2);
                    }
                    if has_key(before, k2) {
                        let j = choose|j: int| 0 <= j < before.len() && #[trigger] before[j].0@ == k2;
                        assert(l@[j].0@ == k2);
                    }
                }
                assert forall|k2: Seq<char>|
                    k2 != k@ && #[trigger] has_key(before, k2) implies l@[key_position(
                        l@,
                        k2,
                    )] == before[key_position(before, k2)] by {
                    let j = key_position(before, k2);
                    lemma_key_position(before, j);
                    assert(l@[j] == before[j]);
                    lemma_key_position(l@, j);
                }
            }
        },
    }
}

/// The current time in milliseconds since the Unix epoch, from
/// `SystemTime::now`. Nothing is claimed of the value: it is the clock's.
#[verifier::external_body]
pub(crate) fn unix_time_millis() -> (r: u64) {
    std::time::SystemTime::now().duration_since(std::time::UNIX_EPOCH).unwrap_or_default().as_millis() as u64
}

impl Bookmarks {
    #[verifier::type_invariant]
    spec fn keys_unique(self) -> bool {
        &&& keys_distinct(self.entries@)
        &&& keys_distinct(self.favorites@)
    }

    /// The reading position of each file.
    pub closed spec fn entries_view(&self) -> Map<Seq<char>, BookmarkEntry> {
        entry_map(self.entries@)
    }

    /// The favourite lines of each file.
    pub closed spec fn favorites_view(&self) -> Map<Seq<char>, Seq<usize>> {
        favorite_map(self.favorites@)
    }

    /// No bookmarks at all.
    pub fn new() -> (r: Self)
        ensures
            r.entries_view() == Map::<Seq<char>, BookmarkEntry>::empty(),
            r.favorites_view() == Map::<Seq<char>, Seq<usize>>::empty(),
    {
        let r = Bookmarks { entries: Vec::new(), favorites: Vec::new() };
        assert(r.entries_view() =~= Map::<Seq<char>, BookmarkEntry>::empty());
        assert(r.favorites_view() =~= Map::<Seq<char>, Seq<usize>>::empty());
        r
    }

    /// The reading position saved for `file_path`, if any.
    pub fn get(&self, file_path: &str) -> (r: Option<&BookmarkEntry>)
        ensures
            r is Some <==> self.entries_view().contains_key(file_path@),
            r matches Some(e) ==> *e == self.entries_view()[file_path@],
    {
        proof {
            use_type_invariant(self);
        }
        match find_key(&self.entries, file_path) {
            Some(i) => {
                proof {
                    lemma_key_position(self.entries@, i as int);
                }
                Some(&self.entries[i].1)
            },
            None => None,
        }
    }

    /// Saves `entry` for `file_path`, stamped as left at `now`
    /// (milliseconds since the Unix epoch); other files keep theirs.
    pub fn set_at(&mut self, file_path: &str, entry: BookmarkEntry, now: u64)
        ensures
            final(self).entries_view() == old(self).entries_view().insert(
                file_path@,
                BookmarkEntry { last_accessed: Some(now), ..entry },
            ),
            final(self).favorites_view() == old(self).favorites_view(),
    {
        proof {
            use_type_invariant(&*self);
        }
        let stamped = BookmarkEntry { last_accessed: Some(now), ..entry };
        let ghost before = self.entries@;
        let mut entries: Vec<(String, BookmarkEntry)> = Vec::new();
        std::mem::swap(&mut entries, &mut self.entries);
        put(&mut entries, file_path, stamped);
        self.entries = entries;
        proof {
            assert(self.entries_view() =~= entry_map(before).insert(file_path@, stamped));
        }
    }

    /// Saves `entry` for `file_path`, stamped with the current time in
    /// milliseconds since the Unix epoch.
    pub fn set(&mut self, file_path: &str, entry: BookmarkEntry)
        ensures
            exists|now: u64|
                final(self).entries_view() == #[trigger] old(self).entries_view().insert(
                    file_path@,
                    BookmarkEntry { last_accessed: Some(now), ..entry },
                ),
            final(self).favorites_view() == old(self).favorites_view(),
    {
        let now = unix_time_millis();
        self.set_at(file_path, entry, now);
    }
}


// ---------------------------------------------------------------------
// Favourite lines
// ---------------------------------------------------------------------

/// Whether `s` is in ascending order.
pub open spec fn ascending(s: Seq<usize>) -> bool {
    forall|i: int, j: int| 0 <= i < j < s.len() ==> s[i] <= s[j]
}

/// The position of the first `x` in `s` (its length when there is none).
pub open spec fn first_index(s: Seq<usize>, x: usize) -> int
    decreases s.len(),
{
    if s.len() == 0 {
        0
    } else if s[0] == x {
        0
    } else {
        1 + first_index(s.drop_first(), x)
    }
}

proof fn lemma_first_index(s: Seq<usize>, x: usize, i: int)
    requires
        0 <= i <= s.len(),
        forall|j: int| 0 <= j < i ==> #[trigger] s[j] != x,
        i == s.len() || s[i] == x,
    ensures
        first_index(s, x) == i,
    decreases i,
{
    if i > 0 {
        assert forall|j: int| 0 <= j < i - 1 implies #[trigger] s.drop_first()[j] != x by {
            assert(s.drop_first()[j] == s[j + 1]);
        }
        lemma_first_index(s.drop_first(), x, i - 1);
    }
}

/// `a <= b` as a relation, for sorting line numbers.
pub open spec fn line_order() -> spec_fn(usize, usize) -> bool {
    |a: usize, b: usize| a <= b
}

/// The list of favourite lines after toggling `x`: its first occurrence
/// removed if it is there, else `x` added and the list sorted.
pub open spec fn toggled(list: Seq<usize>, x: usize) -> Seq<usize> {
    if list.contains(x) {
        list.remove(first_index(list, x))
    } else {
        list.push(x).sort_by(line_order())
    }
}

/// An ascending list holding the same lines as `l` is `l` sorted.
proof fn lemma_ascending_is_sorted(a: Seq<usize>, l: Seq<usize>)
    requires
        ascending(a),
        a.to_multiset() == l.to_multiset(),
    ensures
        a == l.sort_by(line_order()),
{
    let leq = line_order();
    assert(vstd::relations::total_ordering(leq));
    l.lemma_sort_by_ensures(leq);
    assert(vstd::relations::sorted_by(a, leq));
    vstd::seq_lib::lemma_sorted_unique(a, l.sort_by(leq), leq);
}

/// Whether `s` is strictly ascending: in order, and no line twice.
pub open spec fn strictly_ascending(s: Seq<usize>) -> bool {
    forall|i: int, j: int| 0 <= i < j < s.len() ==> s[i] < s[j]
}

proof fn lemma_first_index_found(s: Seq<usize>, x: usize)
    requires
        s.contains(x),
    ensures
        0 <= first_index(s, x) < s.len(),
        s[first_index(s, x)] == x,
    decreases s.len(),
{
    if s[0] != x {
        let k = choose|k: int| 0 <= k < s.len() && s[k] == x;
        assert(s.drop_first()[k - 1] == x);
        lemma_first_index_found(s.drop_first(), x);
    }
}

proof fn lemma_strictly_ascending_no_duplicates(s: Seq<usize>)
    requires
        strictly_ascending(s),
    ensures
        s.no_duplicates(),
        ascending(s),
{
}

proof fn lemma_remove_keeps_order(s: Seq<usize>, i: int)
    requires
        0 <= i < s.len(),
        ascending(s),
    ensures
        ascending(s.remove(i)),
        strictly_ascending(s) ==> strictly_ascending(s.remove(i)),
{
    let r = s.remove(i);
    assert forall|a: int, b: int| 0 <= a < b < r.len() implies r[a] <= r[b] && (
    strictly_ascending(s) ==> r[a] < r[b]) by {
        let sa = if a < i {
            a
        } else {
            a + 1
        };
        let sb = if b < i {
            b
        } else {
            b + 1
        };
        assert(r[a] == s[sa] && r[b] == s[sb]);
    }
}

/// `l` with `x` added and sorted, for `x` not in a strictly ascending `l`:
/// strictly ascending again, and holding `x`.
proof fn lemma_add_keeps_order(l: Seq<usize>, x: usize)
    requires
        strictly_ascending(l),
        !l.contains(x),
    ensures
        strictly_ascending(l.push(x).sort_by(line_order())),
        l.push(x).sort_by(line_order()).contains(x),
        l.push(x).sort_by(line_order()).to_multiset() == l.to_multiset().insert(x),
{
    broadcast use vstd::seq_lib::group_to_multiset_ensures;

    let leq = line_order();
    let p = l.push(x);
    let s = p.sort_by(leq);
    assert(vstd::relations::total_ordering(leq));
    p.lemma_sort_by_ensures(leq);
    assert(p.no_duplicates()) by {
        assert forall|i: int, j: int| 0 <= i < p.len() && 0 <= j < p.len() && i != j implies p[i]
            != p[j] by {
            if i < l.len() && j < l.len() {
                assert(p[i] == l[i] && p[j] == l[j]);
            } else if i < l.len() {
                assert(p[i] == l[i]);
            } else {
                assert(p[j] == l[j]);
            }
        }
    }
    p.lemma_multiset_has_no_duplicates();
    s.lemma_multiset_has_no_duplicates_conv();
    assert(p[l.len() as int] == x);
    assert(p.to_multiset().count(x) > 0);
    assert(s.contains(x));
    assert forall|i: int, j: int| 0 <= i < j < s.len() implies s[i] < s[j] by {
        assert(vstd::relations::sorted_by(s, leq));
        assert(leq(s[i], s[j]));
    }
}

/// Toggling a line keeps a strictly ascending list of favourite lines
/// strictly ascending.
pub proof fn lemma_toggle_keeps_order(l: Seq<usize>, x: usize)
    requires
        strictly_ascending(l),
    ensures
        strictly_ascending(toggled(l, x)),
{
    if l.contains(x) {
        lemma_first_index_found(l, x);
        lemma_remove_keeps_order(l, first_index(l, x));
    } else {
        lemma_add_keeps_order(l, x);
    }
}

/// Toggling the same line twice leaves a strictly ascending list of
/// favourite lines as it was: a mark is undone by the next toggle, and so
/// is an unmark.
pub proof fn lemma_toggle_twice(l: Seq<usize>, x: usize)
    requires
        strictly_ascending(l),
    ensures
        toggled(toggled(l, x), x) == l,
{
    broadcast use vstd::seq_lib::group_to_multiset_ensures;

    lemma_strictly_ascending_no_duplicates(l);
    if l.contains(x) {
        lemma_first_index_found(l, x);
        let i = first_index(l, x);
        let l1 = l.remove(i);
        lemma_remove_keeps_order(l, i);
        assert(!l1.contains(x)) by {
            if l1.contains(x) {
                let k = choose|k: int| 0 <= k < l1.len() && l1[k] == x;
                if k < i {
                    assert(l1[k] == l[k]);
                } else {
                    assert(l1[k] == l[k + 1]);
                }
            }
        }
        assert(l1.push(x).to_multiset() =~= l.to_multiset());
        lemma_ascending_is_sorted(l, l1.push(x));
    } else {
        lemma_add_keeps_order(l, x);
        let l1 = l.push(x).sort_by(line_order());
        lemma_first_index_found(l1, x);
        let j = first_index(l1, x);
        lemma_remove_keeps_order(l1, j);
        let r = l1.remove(j);
        assert(r.to_multiset() =~= l.to_multiset());
        lemma_ascending_is_sorted(r, l);
        lemma_ascending_is_sorted(l, l);
    }
}

/// The favourites of `k` in the map `m`: none when `k` has no entry.
pub open spec fn favorites_of(m: Map<Seq<char>, Seq<usize>>, k: Seq<char>) -> Seq<usize> {
    if m.contains_key(k) {
        m[k]
    } else {
        seq![]
    }
}

/// A copy of `v`.
fn copy_usizes(v: &Vec<usize>) -> (r: Vec<usize>)
    ensures
        r@ == v@,
{
    let mut out: Vec<usize> = Vec::new();
    let mut i: usize = 0;
    while i < v.len()
        invariant
            i <= v@.len(),
            out@ == v@.take(i as int),
        decreases v@.len() - i,
    {
        out.push(v[i]);
        i = i + 1;
        assert(out@ =~= v@.take(i as int));
    }
    assert(v@.take(v@.len() as int) =~= v@);
    out
}

/// The elements of `v` in ascending order.
fn sorted_usizes(v: &Vec<usize>) -> (r: Vec<usize>)
    ensures
        ascending(r@),
        r@.to_multiset() == v@.to_multiset(),
{
    broadcast use vstd::seq_lib::group_to_multiset_ensures;

    let mut out: Vec<usize> = Vec::new();
    let mut i: usize = 0;
    while i < v.len()
        invariant
            i <= v@.len(),
            ascending(out@),
            out@.to_multiset() == v@.take(i as int).to_multiset(),
        decreases v@.len() - i,
    {
        let x = v[i];
        let mut p: usize = 0;
        while p < out.len() && out[p] <= x
            invariant
                p <= out@.len(),
                forall|j: int| 0 <= j < p ==> out@[j] <= x,
            decreases out@.len() - p,
        {
            p = p + 1;
        }
        let ghost before = out@;
        out.insert(p, x);
        proof {
            assert(out@ == before.insert(p as int, x));
            assert forall|a: int, b: int| 0 <= a < b < out@.len() implies out@[a] <= out@[b] by {
                if b < p {
                } else if b == p {
                    assert(out@[a] == before[a]);
                } else if a == p {
                    assert(out@[b] == before[b - 1]);
                    assert(before[p as int] > x);
                    if b - 1 > p {
                        assert(before[p as int] <= before[b - 1]);
                    }
                } else if a < p {
                    assert(out@[a] == before[a]);
                    assert(out@[b] == before[b - 1]);
                } else {
                    assert(out@[a] == before[a - 1]);
                    assert(out@[b] == before[b - 1]);
                }
            }
            assert(v@.take(i + 1) =~= v@.take(i as int).push(x));
            vstd::seq_lib::to_multiset_insert(before, p as int, x);
            vstd::seq_lib::to_multiset_build(v@.take(i as int), x);
        }
        i = i + 1;
    }
    assert(v@.take(v@.len() as int) =~= v@);
    out
}

impl Bookmarks {
    /// Marks line `line_index` of `file_path` as a favourite, or unmarks
    /// it when it already is one; says whether it was added. An added line
    /// leaves the list in ascending order; a removed one takes out its
    /// first occurrence.
    pub fn toggle_favorite(&mut self, file_path: &str, line_index: usize) -> (r: bool)
        ensures
            ({
                let before = favorites_of(old(self).favorites_view(), file_path@);
                let after = final(self).favorites_view()[file_path@];
                &&& final(self).favorites_view().contains_key(file_path@)
                &&& final(self).favorites_view() == old(self).favorites_view().insert(
                    file_path@,
                    after,
                )
                &&& r == !before.contains(line_index)
                &&& after == toggled(before, line_index)
                &&& r ==> ascending(after)
            }),
            final(self).entries_view() == old(self).entries_view(),
    {
        proof {
            use_type_invariant(&*self);
        }
        let mut favs: Vec<(String, Vec<usize>)> = Vec::new();
        std::mem::swap(&mut favs, &mut self.favorites);
        let ghost old_favs = favs@;
        let ghost before = favorites_of(favorite_map(favs@), file_path@);
        let list = match find_key(&favs, file_path) {
            Some(i) => {
                proof {
                    lemma_key_position(favs@, i as int);
                }
                copy_usizes(&favs[i].1)
            },
            None => Vec::new(),
        };
        assert(list@ == before);
        let mut pos: usize = 0;
        while pos < list.len() && list[pos] != line_index
            invariant
                pos <= list@.len(),
                forall|j: int| 0 <= j < pos ==> #[trigger] list@[j] != line_index,
            decreases list@.len() - pos,
        {
            pos = pos + 1;
        }
        proof {
            lemma_first_index(list@, line_index, pos as int);
        }
        let added;
        let new_list;
        if pos < list.len() {
            let mut l = list;
            l.remove(pos);
            new_list = l;
            added = false;
            assert(list@.contains(line_index)) by {
                assert(list@[pos as int] == line_index);
            }
        } else {
            let mut l = list;
            l.push(line_index);
            new_list = sorted_usizes(&l);
            added = true;
            assert(!before.contains(line_index));
            proof {
                lemma_ascending_is_sorted(new_list@, before.push(line_index));
            }
        }
        let ghost nl = new_list@;
        put(&mut favs, file_path, new_list);
        self.favorites = favs;
        proof {
            assert(self.favorites_view() =~= favorite_map(old_favs).insert(file_path@, nl));
        }
        added
    }

    /// The favourite lines of `file_path`, none when it has no list.
    pub fn favorites(&self, file_path: &str) -> (r: Vec<usize>)
        ensures
            r@ == favorites_of(self.favorites_view(), file_path@),
    {
        proof {
            use_type_invariant(self);
        }
        match find_key(&self.favorites, file_path) {
            Some(i) => {
                proof {
                    lemma_key_position(self.favorites@, i as int);
                }
                copy_usizes(&self.favorites[i].1)
            },
            None => Vec::new(),
        }
    }
}


// ---------------------------------------------------------------------
// Most recently read
// ---------------------------------------------------------------------

/// How recently an entry was left: never-stamped entries come last.
pub open spec fn recency(e: BookmarkEntry) -> int {
    match e.last_accessed {
        Some(t) => t as int,
        None => -1,
    }
}

/// Whether `a` was left more recently than `b`.
fn more_recent(a: &BookmarkEntry, b: &BookmarkEntry) -> (r: bool)
    ensures
        r == (recency(*a) > recency(*b)),
{
    match (a.last_accessed, b.last_accessed) {
        (Some(x), Some(y)) => x > y,
        (Some(_), None) => true,
        _ => false,
    }
}

impl Bookmarks {
    /// Up to `n` bookmarked files, most recently left first: every one a
    /// saved entry, none twice, and no file left out that was left more
    /// recently than the last one listed; fewer than `n` only when all are
    /// listed.
    pub fn recent(&self, n: usize) -> (r: Vec<(String, BookmarkEntry)>)
        ensures
            r@.len() <= n,
            forall|i: int|
                0 <= i < r@.len() ==> {
                    &&& self.entries_view().contains_key(#[trigger] r@[i].0@)
                    &&& r@[i].1 == self.entries_view()[r@[i].0@]
                },
            forall|i: int, j: int| 0 <= i < j < r@.len() ==> #[trigger] r@[i].0@ != #[trigger] r@[j].0@,
            forall|i: int, j: int|
                0 <= i < j < r@.len() ==> recency(#[trigger] r@[i].1) >= recency(#[trigger] r@[j].1),
            r@.len() < n ==> forall|k: Seq<char>|
                #[trigger] self.entries_view().contains_key(k) ==> exists|i: int|
                    0 <= i < r@.len() && r@[i].0@ == k,
            forall|k: Seq<char>|
                #[trigger] self.entries_view().contains_key(k) && r@.len() > 0 && (forall|i: int|
                    0 <= i < r@.len() ==> r@[i].0@ != k) ==> recency(self.entries_view()[k])
                    <= recency(r@[r@.len() - 1].1),
    {
        proof {
            use_type_invariant(self);
        }
        let ghost l = self.entries@;
        let len = self.entries.len();
        let mut chosen: Vec<bool> = Vec::new();
        let mut z: usize = 0;
        while z < len
            invariant
                z <= len,
                chosen@.len() == z,
                forall|j: int| 0 <= j < z ==> !#[trigger] chosen@[j],
            decreases len - z,
        {
            chosen.push(false);
            z = z + 1;
        }
        let mut out: Vec<(String, BookmarkEntry)> = Vec::new();
        let ghost mut picks: Seq<int> = seq![];
        while out.len() < n
            invariant
                l == self.entries@,
                len == l.len(),
                keys_distinct(l),
                chosen@.len() == len,
                out@.len() <= n,
                picks.len() == out@.len(),
                forall|k: int|
                    0 <= k < picks.len() ==> 0 <= #[trigger] picks[k] < len && out@[k].0@
                        == l[picks[k]].0@ && out@[k].1 == l[picks[k]].1,
                forall|a: int, b: int| 0 <= a < b < picks.len() ==> #[trigger] picks[a] != #[trigger] picks[b],
                forall|j: int| 0 <= j < len ==> (#[trigger] chosen@[j] <==> picks.contains(j)),
                forall|a: int, b: int|
                    0 <= a < b < out@.len() ==> recency(#[trigger] out@[a].1) >= recency(
                        #[trigger] out@[b].1,
                    ),
                out@.len() > 0 ==> forall|j: int|
                    0 <= j < len && !#[trigger] chosen@[j] ==> recency(l[j].1) <= recency(
                        out@[out@.len() - 1].1,
                    ),
            ensures
                out@.len() < n ==> forall|j: int| 0 <= j < len ==> #[trigger] chosen@[j],
            decreases n - out@.len(),
        {
            let mut best: Option<usize> = None;
            let mut j: usize = 0;
            while j < len
                invariant
                    j <= len,
                    len == l.len(),
                    l == self.entries@,
                    chosen@.len() == len,
                    best matches Some(b) ==> b < j && !chosen@[b as int] && forall|t: int|
                        0 <= t < j && !#[trigger] chosen@[t] ==> recency(l[t].1) <= recency(
                            l[b as int].1,
                        ),
                    best is None ==> forall|t: int| 0 <= t < j ==> #[trigger] chosen@[t],
                decreases len - j,
            {
                if !chosen[j] {
                    match best {
                        None => {
                            best = Some(j);
                        },
                        Some(b) => {
                            if more_recent(&self.entries[j].1, &self.entries[b].1) {
                                best = Some(j);
                            }
                        },
                    }
                }
                j = j + 1;
            }
            match best {
                None => {
                    break;
                },
                Some(b) => {
                    proof {
                        if picks.len() > 0 {
                            assert(!chosen@[b as int]);
                        }
                        assert(!picks.contains(b as int));
                    }
                    chosen.set(b, true);
                    let key = self.entries[b].0.clone();
                    let e = self.entries[b].1;
                    out.push((key, e));
                    proof {
                        let old_picks = picks;
                        picks = picks.push(b as int);
                        assert forall|t: int| 0 <= t < len implies (#[trigger] chosen@[t]
                            <==> picks.contains(t)) by {
                            if t == b {
                                assert(picks[picks.len() - 1] == t);
                            } else if picks.contains(t) {
                                let w = choose|w: int| 0 <= w < picks.len() && picks[w] == t;
                                assert(old_picks[w] == t);
                            } else if old_picks.contains(t) {
                                let w = choose|w: int| 0 <= w < old_picks.len() && old_picks[w] == t;
                                assert(picks[w] == t);
                            }
                        }
                        assert forall|a: int, c: int| 0 <= a < c < picks.len() implies #[trigger] picks[a]
                            != #[trigger] picks[c] by {
                            if c == picks.len() - 1 {
                                assert(old_picks.contains(picks[a]));
                            } else {
                                assert(old_picks[a] != old_picks[c]);
                            }
                        }
                    }
                },
            }
        }
        proof {
            lemma_recent_result(l, out@, picks, chosen@, n as int);
        }
        out
    }
}

proof fn lemma_recent_result(
    l: Seq<(String, BookmarkEntry)>,
    out: Seq<(String, BookmarkEntry)>,
    picks: Seq<int>,
    chosen: Seq<bool>,
    n: int,
)
    requires
        keys_distinct(l),
        chosen.len() == l.len(),
        out.len() <= n,
        picks.len() == out.len(),
        forall|k: int|
            0 <= k < picks.len() ==> 0 <= #[trigger] picks[k] < l.len() && out[k].0@
                == l[picks[k]].0@ && out[k].1 == l[picks[k]].1,
        forall|a: int, b: int| 0 <= a < b < picks.len() ==> #[trigger] picks[a] != #[trigger] picks[b],
        forall|j: int| 0 <= j < l.len() ==> (#[trigger] chosen[j] <==> picks.contains(j)),
        out.len() > 0 ==> forall|j: int|
            0 <= j < l.len() && !#[trigger] chosen[j] ==> recency(l[j].1) <= recency(
                out[out.len() - 1].1,
            ),
        out.len() < n ==> forall|j: int| 0 <= j < l.len() ==> #[trigger] chosen[j],
    ensures
        forall|i: int|
            0 <= i < out.len() ==> {
                &&& entry_map(l).contains_key(#[trigger] out[i].0@)
                &&& out[i].1 == entry_map(l)[out[i].0@]
            },
        forall|i: int, j: int| 0 <= i < j < out.len() ==> #[trigger] out[i].0@ != #[trigger] out[j].0@,
        out.len() < n ==> forall|k: Seq<char>|
            #[trigger] entry_map(l).contains_key(k) ==> exists|i: int| 0 <= i < out.len() && out[i].0@ == k,
        forall|k: Seq<char>|
            #[trigger] entry_map(l).contains_key(k) && out.len() > 0 && (forall|i: int|
                0 <= i < out.len() ==> out[i].0@ != k) ==> recency(entry_map(l)[k]) <= recency(
                out[out.len() - 1].1,
            ),
{
    assert forall|i: int| 0 <= i < out.len() implies {
        &&& entry_map(l).contains_key(#[trigger] out[i].0@)
        &&& out[i].1 == entry_map(l)[out[i].0@]
    } by {
        lemma_key_position(l, picks[i]);
    }
    assert forall|i: int, j: int| 0 <= i < j < out.len() implies #[trigger] out[i].0@ != #[trigger] out[j].0@ by {
        let a = picks[i];
        let b = picks[j];
        assert(a != b);
        if a < b {
            assert(l[a].0@ != l[b].0@);
        } else {
            assert(l[b].0@ != l[a].0@);
        }
    }
    assert forall|k: Seq<char>|
        #[trigger] entry_map(l).contains_key(k) && out.len() > 0 && (forall|i: int|
            0 <= i < out.len() ==> out[i].0@ != k) implies recency(entry_map(l)[k]) <= recency(
        out[out.len() - 1].1,
    ) by {
        let p = key_position(l, k);
        lemma_key_position(l, p);
        if chosen[p] {
            let w = choose|w: int| 0 <= w < picks.len() && picks[w] == p;
            assert(out[w].0@ == k);
        }
    }
    if out.len() < n {
        assert forall|k: Seq<char>| #[trigger] entry_map(l).contains_key(k) implies exists|i: int|
            0 <= i < out.len() && out[i].0@ == k by {
            let p = key_position(l, k);
            assert(chosen[p]);
            let w = choose|w: int| 0 <= w < picks.len() && picks[w] == p;
            assert(out[w].0@ == k);
        }
    }
}


// ---------------------------------------------------------------------
// Moving bookmarks in and out
// ---------------------------------------------------------------------

/// The reading positions of an association list, a later entry for a
/// file replacing an earlier one.
pub open spec fn entries_last_wins(l: Seq<(String, BookmarkEntry)>) -> Map<
    Seq<char>,
    BookmarkEntry,
>
    decreases l.len(),
{
    if l.len() == 0 {
        Map::empty()
    } else {
        entries_last_wins(l.drop_last()).insert(l.last().0@, l.last().1)
    }
}

/// The favourites of an association list, a later list for a file
/// replacing an earlier one.
pub open spec fn favorites_last_wins(l: Seq<(String, Vec<usize>)>) -> Map<Seq<char>, Seq<usize>>
    decreases l.len(),
{
    if l.len() == 0 {
        Map::empty()
    } else {
        favorites_last_wins(l.drop_last()).insert(l.last().0@, l.last().1@)
    }
}

proof fn lemma_entry_map_push(l: Seq<(String, BookmarkEntry)>)
    requires
        keys_distinct(l),
        l.len() > 0,
    ensures
        keys_distinct(l.drop_last()),
        entry_map(l) == entry_map(l.drop_last()).insert(l.last().0@, l.last().1),
{
    let p = l.drop_last();
    let n = l.len() - 1;
    assert(keys_distinct(p)) by {
        assert forall|a: int, b: int| 0 <= a < b < p.len() implies #[trigger] p[a].0@ != #[trigger] p[b].0@ by {
            assert(p[a] == l[a] && p[b] == l[b]);
        }
    }
    lemma_key_position(l, n);
    assert forall|k: Seq<char>| #[trigger] has_key(l, k) == (has_key(p, k) || k == l.last().0@) by {
        if has_key(l, k) && k != l.last().0@ {
            let i = choose|i: int| 0 <= i < l.len() && #[trigger] l[i].0@ == k;
            assert(p[i] == l[i]);
        }
        if has_key(p, k) {
            let i = choose|i: int| 0 <= i < p.len() && #[trigger] p[i].0@ == k;
            assert(l[i] == p[i]);
        }
    }
    assert forall|k: Seq<char>| has_key(p, k) && k != l.last().0@ implies #[trigger] l[key_position(l, k)].1
        == p[key_position(p, k)].1 by {
        let i = key_position(p, k);
        lemma_key_position(p, i);
        assert(l[i] == p[i]);
        lemma_key_position(l, i);
    }
    assert(entry_map(l) =~= entry_map(p).insert(l.last().0@, l.last().1));
}

proof fn lemma_favorite_map_push(l: Seq<(String, Vec<usize>)>)
    requires
        keys_distinct(l),
        l.len() > 0,
    ensures
        keys_distinct(l.drop_last()),
        favorite_map(l) == favorite_map(l.drop_last()).insert(l.last().0@, l.last().1@),
{
    let p = l.drop_last();
    let n = l.len() - 1;
    assert(keys_distinct(p)) by {
        assert forall|a: int, b: int| 0 <= a < b < p.len() implies #[trigger] p[a].0@ != #[trigger] p[b].0@ by {
            assert(p[a] == l[a] && p[b] == l[b]);
        }
    }
    lemma_key_position(l, n);
    assert forall|k: Seq<char>| #[trigger] has_key(l, k) == (has_key(p, k) || k == l.last().0@) by {
        if has_key(l, k) && k != l.last().0@ {
            let i = choose|i: int| 0 <= i < l.len() && #[trigger] l[i].0@ == k;
            assert(p[i] == l[i]);
        }
        if has_key(p, k) {
            let i = choose|i: int| 0 <= i < p.len() && #[trigger] p[i].0@ == k;
            assert(l[i] == p[i]);
        }
    }
    assert forall|k: Seq<char>| has_key(p, k) && k != l.last().0@ implies #[trigger] l[key_position(l, k)].1@
        == p[key_position(p, k)].1@ by {
        let i = key_position(p, k);
        lemma_key_position(p, i);
        assert(l[i] == p[i]);
        lemma_key_position(l, i);
    }
    assert(favorite_map(l) =~= favorite_map(p).insert(l.last().0@, l.last().1@));
}

/// Bookmarks written out as lists and read back are the same bookmarks:
/// for lists in which no path occurs twice (as `entry_list` and
/// `favorite_list` give them), reading them with later entries winning
/// gives the lists' own maps.
pub proof fn lemma_lists_read_back(
    es: Seq<(String, BookmarkEntry)>,
    fs: Seq<(String, Vec<usize>)>,
)
    requires
        keys_distinct(es),
        keys_distinct(fs),
    ensures
        entries_last_wins(es) == entry_map(es),
        favorites_last_wins(fs) == favorite_map(fs),
    decreases es.len() + fs.len(),
{
    if es.len() > 0 {
        lemma_entry_map_push(es);
        lemma_lists_read_back(es.drop_last(), fs);
    } else {
        assert(entry_map(es) =~= Map::<Seq<char>, BookmarkEntry>::empty());
    }
    if fs.len() > 0 {
        lemma_favorite_map_push(fs);
        lemma_lists_read_back(es, fs.drop_last());
    } else {
        assert(favorite_map(fs) =~= Map::<Seq<char>, Seq<usize>>::empty());
    }
}

impl Default for Bookmarks {
    fn default() -> (r: Self)
        ensures
            r.entries_view() == Map::<Seq<char>, BookmarkEntry>::empty(),
            r.favorites_view() == Map::<Seq<char>, Seq<usize>>::empty(),
    {
        Self::new()
    }
}

impl Bookmarks {
    /// The bookmarks given as association lists (as a saved file holds
    /// them), a later entry for a file replacing an earlier one.
    pub fn from_parts(entries: Vec<(String, BookmarkEntry)>, favorites: Vec<(String, Vec<usize>)>) -> (r: Self)
        ensures
            r.entries_view() == entries_last_wins(entries@),
            r.favorites_view() == favorites_last_wins(favorites@),
    {
        let mut es: Vec<(String, BookmarkEntry)> = Vec::new();
        let mut i: usize = 0;
        assert(entry_map(es@) =~= Map::<Seq<char>, BookmarkEntry>::empty());
        while i < entries.len()
            invariant
                i <= entries@.len(),
                keys_distinct(es@),
                entry_map(es@) == entries_last_wins(entries@.take(i as int)),
            decreases entries@.len() - i,
        {
            let ghost before = es@;
            put(&mut es, entries[i].0.as_str(), entries[i].1);
            proof {
                assert(entries@.take(i + 1).drop_last() =~= entries@.take(i as int));
                assert(entry_map(es@) =~= entry_map(before).insert(entries@[i as int].0@, entries@[i as int].1));
            }
            i = i + 1;
        }
        assert(entries@.take(entries@.len() as int) =~= entries@);
        let mut fs: Vec<(String, Vec<usize>)> = Vec::new();
        let mut j: usize = 0;
        assert(favorite_map(fs@) =~= Map::<Seq<char>, Seq<usize>>::empty());
        while j < favorites.len()
            invariant
                j <= favorites@.len(),
                keys_distinct(fs@),
                favorite_map(fs@) == favorites_last_wins(favorites@.take(j as int)),
            decreases favorites@.len() - j,
        {
            let ghost before = fs@;
            let list = copy_usizes(&favorites[j].1);
            let ghost lv = list@;
            put(&mut fs, favorites[j].0.as_str(), list);
            proof {
                assert(favorites@.take(j + 1).drop_last() =~= favorites@.take(j as int));
                assert(favorite_map(fs@) =~= favorite_map(before).insert(favorites@[j as int].0@, lv));
            }
            j = j + 1;
        }
        assert(favorites@.take(favorites@.len() as int) =~= favorites@);
        Bookmarks { entries: es, favorites: fs }
    }

    /// The reading positions as an association list with no file twice.
    pub fn entry_list(&self) -> (r: Vec<(String, BookmarkEntry)>)
        ensures
            keys_distinct(r@),
            entry_map(r@) == self.entries_view(),
    {
        proof {
            use_type_invariant(self);
        }
        let mut out: Vec<(String, BookmarkEntry)> = Vec::new();
        let mut i: usize = 0;
        while i < self.entries.len()
            invariant
                i <= self.entries@.len(),
                keys_distinct(self.entries@),
                out@.len() == i,
                forall|k: int|
                    0 <= k < i ==> #[trigger] out@[k].0@ == self.entries@[k].0@ && out@[k].1
                        == self.entries@[k].1,
            decreases self.entries@.len() - i,
        {
            let key = self.entries[i].0.clone();
            out.push((key, self.entries[i].1));
            i = i + 1;
        }
        proof {
            let l = self.entries@;
            assert(keys_distinct(out@)) by {
                assert forall|a: int, b: int| 0 <= a < b < out@.len() implies #[trigger] out@[a].0@
                    != #[trigger] out@[b].0@ by {
                    assert(l[a].0@ != l[b].0@);
                }
            }
            assert forall|k: Seq<char>| has_key(out@, k) <==> has_key(l, k) by {
                if has_key(out@, k) {
                    let w = choose|w: int| 0 <= w < out@.len() && #[trigger] out@[w].0@ == k;
                    assert(l[w].0@ == k);
                }
                if has_key(l, k) {
                    let w = choose|w: int| 0 <= w < l.len() && #[trigger] l[w].0@ == k;
                    assert(out@[w].0@ == k);
                }
            }
            assert forall|k: Seq<char>| #[trigger] has_key(l, k) implies out@[key_position(out@, k)].1
                == l[key_position(l, k)].1 by {
                let p = key_position(l, k);
                lemma_key_position(l, p);
                assert(out@[p].0@ == k);
                lemma_key_position(out@, p);
            }
            assert(entry_map(out@) =~= entry_map(l));
        }
        out
    }

    /// The favourite lists as an association list with no file twice.
    pub fn favorite_list(&self) -> (r: Vec<(String, Vec<usize>)>)
        ensures
            keys_distinct(r@),
            favorite_map(r@) == self.favorites_view(),
    {
        proof {
            use_type_invariant(self);
        }
        let mut out: Vec<(String, Vec<usize>)> = Vec::new();
        let mut i: usize = 0;
        while i < self.favorites.len()
            invariant
                i <= self.favorites@.len(),
                keys_distinct(self.favorites@),
                out@.len() == i,
                forall|k: int|
                    0 <= k < i ==> #[trigger] out@[k].0@ == self.favorites@[k].0@ && out@[k].1@
                        == self.favorites@[k].1@,
            decreases self.favorites@.len() - i,
        {
            let key = self.favorites[i].0.clone();
            let list = copy_usizes(&self.favorites[i].1);
            out.push((key, list));
            i = i + 1;
        }
        proof {
            let l = self.favorites@;
            assert(keys_distinct(out@)) by {
                assert forall|a: int, b: int| 0 <= a < b < out@.len() implies #[trigger] out@[a].0@
                    != #[trigger] out@[b].0@ by {
                    assert(l[a].0@ != l[b].0@);
                }
            }
            assert forall|k: Seq<char>| has_key(out@, k) <==> has_key(l, k) by {
                if has_key(out@, k) {
                    let w = choose|w: int| 0 <= w < out@.len() && #[trigger] out@[w].0@ == k;
                    assert(l[w].0@ == k);
                }
                if has_key(l, k) {
                    let w = choose|w: int| 0 <= w < l.len() && #[trigger] l[w].0@ == k;
                    assert(out@[w].0@ == k);
                }
            }
            assert forall|k: Seq<char>| #[trigger] has_key(l, k) implies out@[key_position(out@, k)].1@
                == l[key_position(l, k)].1@ by {
                let p = key_position(l, k);
                lemma_key_position(l, p);
                assert(out@[p].0@ == k);
                lemma_key_position(out@, p);
            }
            assert(favorite_map(out@) =~= favorite_map(l));
        }
        out
    }
}


// ---------------------------------------------------------------------
// The list of recently read books
// ---------------------------------------------------------------------

/// How the list of recent books names a file: by its file name, or by
/// the whole path when it has none.
pub open spec fn shown_name(path: Seq<char>) -> Seq<char> {
    match file_name_outcome(path) {
        Some(n) => n,
        None => path,
    }
}

/// Line `i` (from zero) of the list of recent books, for the book at
/// `path` left at line `line`: `  {i + 1}. {name}  [第 {line} 行]`.
pub open spec fn recent_line(i: nat, path: Seq<char>, line: nat) -> Seq<char> {
    "  "@ + decimal(i + 1) + ". "@ + shown_name(path) + "  [第 "@ + decimal(line) + " 行]"@
}

/// The lines of the list of recent books `recent`.
pub open spec fn recent_lines_view(recent: Seq<(String, BookmarkEntry)>) -> Seq<Seq<char>> {
    Seq::new(
        recent.len(),
        |i: int| recent_line(i as nat, recent[i].0@, recent[i].1.line_index as nat),
    )
}

/// The lines of the list of recent books `recent`, as `recent_line` says.
pub fn recent_lines(recent: &[(String, BookmarkEntry)]) -> (r: Vec<String>)
    requires
        recent@.len() < usize::MAX,
    ensures
        r@.len() == recent@.len(),
        forall|i: int| 0 <= i < recent@.len() ==> #[trigger] r@[i]@ == recent_lines_view(recent@)[i],
{
    proof {
        reveal_strlit("  ");
        reveal_strlit(". ");
        reveal_strlit("  [第 ");
        reveal_strlit(" 行]");
    }
    let mut out: Vec<String> = Vec::new();
    let mut i: usize = 0;
    while i < recent.len()
        invariant
            i <= recent@.len(),
            recent@.len() < usize::MAX,
            out@.len() == i,
            forall|k: int| 0 <= k < i ==> #[trigger] out@[k]@ == recent_lines_view(recent@)[k],
        decreases recent@.len() - i,
    {
        let (path, entry) = &recent[i];
        let name = match file_name_of(path.as_str()) {
            Some(n) => n,
            None => path.clone(),
        };
        let mut line: Vec<char> = chars_of("  ");
        append_chars(&mut line, &decimal_chars(i + 1));
        append_chars(&mut line, &chars_of(". "));
        append_chars(&mut line, &chars_of(name.as_str()));
        append_chars(&mut line, &chars_of("  [第 "));
        append_chars(&mut line, &decimal_chars(entry.line_index));
        append_chars(&mut line, &chars_of(" 行]"));
        let text = string_of(&line);
        proof {
            assert(text@ =~= recent_line(i as nat, path@, entry.line_index as nat));
        }
        let ghost prev = out@;
        out.push(text);
        proof {
            assert forall|k: int| 0 <= k < i + 1 implies #[trigger] out@[k]@ == recent_lines_view(
                recent@,
            )[k] by {
                if k < i {
                    assert(out@[k] == prev[k]);
                }
            }
        }
        i = i + 1;
    }
    out
}

/// The book picked from a list of `count` recent books by the typed
/// `input`: trimmed, it is a number, and the book is the one with that
/// number (counting from one, zero taken as one); `None` when the input
/// is empty, not a number, or past the list.
pub open spec fn recent_pick(input: Seq<char>, count: nat) -> Option<nat> {
    let t = trim(input);
    if t.len() == 0 {
        None
    } else {
        match parsed_usize(t) {
            Some(n) => {
                let k = if n > 0 {
                    (n - 1) as nat
                } else {
                    0
                };
                if k < count {
                    Some(k)
                } else {
                    None
                }
            },
            None => None,
        }
    }
}

/// The index of the recent book that `input` picks, as `recent_pick`
/// says.
pub fn recent_choice(input: &str, count: usize) -> (r: Option<usize>)
    ensures
        r matches Some(k) ==> recent_pick(input@, count as nat) == Some(k as nat),
        r is None ==> recent_pick(input@, count as nat) is None,
{
    let cs = chars_of(input);
    let (a, b) = trim_bounds(&cs, 0, cs.len());
    assert(cs@.subrange(0, cs@.len() as int) =~= input@);
    let t = string_of_range(&cs, a, b);
    if t.as_str().is_empty() {
        return None;
    }
    match parse_usize(t.as_str()) {
        Some(n) => {
            let k = n.saturating_sub(1);
            if k < count {
                Some(k)
            } else {
                None
            }
        },
        None => None,
    }
}
} // verus!
