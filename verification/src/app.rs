//! The reader's state and how each key and terminal event changes it.
use vstd::prelude::*;
use crate::bookmark::favorites_of;
use crate::bookmark::toggled;
use crate::bookmark::BookmarkEntry;
use crate::bookmark::Bookmarks;
use crate::config::next_spec;
use crate::config::DisplayMode;
use crate::reader::wrapped_rows;
use crate::reader::Book;
use crate::reader::Chapter;
use crate::text::append_chars;
use crate::text::chars_of;
use crate::text::decimal;
use crate::text::decimal_chars;
use crate::text::occurs_at;
use crate::text::occurs_at_exec;
use crate::text::pad_left;
use crate::text::pad_left_chars;
use crate::text::parse_usize;
use crate::text::parsed_usize;
use crate::text::string_of;
use crate::text::string_of_range;
use crate::width::str_width;
use crate::width::str_width_of;

verus! {

broadcast use vstd::string::group_string_axioms;

/// What the keys are being read for.
#[derive(Debug, Clone, Copy, PartialEq, Eq, Structural)]
pub enum InputMode {
    /// Reading.
    Normal,
    /// Typing a search query.
    Search,
    /// Choosing a chapter.
    ChapterList,
    /// Typing a percentage to jump to.
    GotoPercent,
    /// Choosing a favourite line.
    FavoriteList,
}

/// A key, as the reader tells keys apart.
#[derive(Debug, Clone, Copy, PartialEq, Eq, Structural)]
pub enum Key {
    Char(char),
    Enter,
    Esc,
    Backspace,
    Up,
    Down,
    PageUp,
    PageDown,
    Home,
    End,
    Other,
}

/// A key press, with whether Control was held.
#[derive(Debug, Clone, Copy, PartialEq, Eq, Structural)]
pub struct KeyInput {
    pub code: Key,
    pub ctrl: bool,
}

/// What the terminal reports.
#[derive(Debug, Clone, Copy, PartialEq, Eq, Structural)]
pub enum AppEvent {
    Key(KeyInput),
    Resize(u16, u16),
    Other,
}

/// The reader's state.
pub struct App {
    pub book: Book,
    pub bookmarks: Bookmarks,
    pub current_line: usize,
    pub sub_offset: usize,
    pub display_lines: usize,
    pub terminal_width: u16,
    pub mode: DisplayMode,
    pub input_mode: InputMode,
    pub search_input: String,
    pub last_search: String,
    pub search_highlight: Option<String>,
    pub goto_input: String,
    pub chapter_cursor: usize,
    pub favorite_cursor: usize,
    pub should_quit: bool,
    pub boss_key: bool,
    pub hidden: bool,
    pub status_message: Option<String>,
    /// When the status message goes, in milliseconds since the Unix epoch.
    pub status_until: Option<u64>,
    pub custom_template: Option<String>,
}

/// The reader's state as the contracts see it: strings as characters,
/// bookmarks as maps.
pub ghost struct AppView {
    pub book: Book,
    pub entries: Map<Seq<char>, BookmarkEntry>,
    pub favorites: Map<Seq<char>, Seq<usize>>,
    pub current_line: usize,
    pub sub_offset: usize,
    pub display_lines: usize,
    pub terminal_width: u16,
    pub mode: DisplayMode,
    pub input_mode: InputMode,
    pub search_input: Seq<char>,
    pub last_search: Seq<char>,
    pub search_highlight: Option<Seq<char>>,
    pub goto_input: Seq<char>,
    pub chapter_cursor: usize,
    pub favorite_cursor: usize,
    pub should_quit: bool,
    pub boss_key: bool,
    pub hidden: bool,
    pub status_message: Option<Seq<char>>,
    pub status_until: Option<u64>,
    pub custom_template: Option<Seq<char>>,
}

/// The characters of an optional string.
pub open spec fn opt_view(s: Option<String>) -> Option<Seq<char>> {
    match s {
        Some(t) => Some(t@),
        None => None,
    }
}

impl View for App {
    type V = AppView;

    open spec fn view(&self) -> AppView {
        AppView {
            book: self.book,
            entries: self.bookmarks.entries_view(),
            favorites: self.bookmarks.favorites_view(),
            current_line: self.current_line,
            sub_offset: self.sub_offset,
            display_lines: self.display_lines,
            terminal_width: self.terminal_width,
            mode: self.mode,
            input_mode: self.input_mode,
            search_input: self.search_input@,
            last_search: self.last_search@,
            search_highlight: opt_view(self.search_highlight),
            goto_input: self.goto_input@,
            chapter_cursor: self.chapter_cursor,
            favorite_cursor: self.favorite_cursor,
            should_quit: self.should_quit,
            boss_key: self.boss_key,
            hidden: self.hidden,
            status_message: opt_view(self.status_message),
            status_until: self.status_until,
            custom_template: opt_view(self.custom_template),
        }
    }
}

// ---------------------------------------------------------------------
// Moving through the rows
// ---------------------------------------------------------------------

/// The number of rows line `line` wraps into at `cw` columns.
pub open spec fn rows_in(lines: Seq<Seq<char>>, line: int, cw: nat) -> nat {
    wrapped_rows(lines[line], cw).len()
}

/// One row down: the next row of the line, else the first row of the next
/// line; no move at the last row, or from past the end.
pub open spec fn next_position(lines: Seq<Seq<char>>, pos: (nat, nat), cw: nat) -> (nat, nat) {
    if pos.0 >= lines.len() {
        pos
    } else if pos.1 + 1 < rows_in(lines, pos.0 as int, cw) {
        (pos.0, pos.1 + 1)
    } else if pos.0 + 1 < lines.len() {
        (pos.0 + 1, 0)
    } else {
        pos
    }
}

/// One row up: the previous row of the line, else the last row of the
/// previous line; no move at the first row.
pub open spec fn prev_position(lines: Seq<Seq<char>>, pos: (nat, nat), cw: nat) -> (nat, nat) {
    if pos.1 > 0 {
        (pos.0, (pos.1 - 1) as nat)
    } else if pos.0 > 0 {
        ((pos.0 - 1) as nat, (rows_in(lines, pos.0 - 1, cw) - 1) as nat)
    } else {
        pos
    }
}

/// `n` rows down.
pub open spec fn forward_n(lines: Seq<Seq<char>>, pos: (nat, nat), n: nat, cw: nat) -> (nat, nat)
    decreases n,
{
    if n == 0 {
        pos
    } else {
        next_position(lines, forward_n(lines, pos, (n - 1) as nat, cw), cw)
    }
}

/// `n` rows up.
pub open spec fn back_n(lines: Seq<Seq<char>>, pos: (nat, nat), n: nat, cw: nat) -> (nat, nat)
    decreases n,
{
    if n == 0 {
        pos
    } else {
        prev_position(lines, back_n(lines, pos, (n - 1) as nat, cw), cw)
    }
}

/// Whether `pos` is a row of a line of the book at `cw` columns.
pub open spec fn is_row(lines: Seq<Seq<char>>, pos: (nat, nat), cw: nat) -> bool {
    pos.0 < lines.len() && pos.1 < rows_in(lines, pos.0 as int, cw)
}

/// Moving a row down and then a row up comes back to the row one started
/// from, whenever the move down moved; and moving a row up and then a row
/// down comes back too, whenever the move up moved.
pub proof fn lemma_row_moves_undo(lines: Seq<Seq<char>>, pos: (nat, nat), cw: nat)
    requires
        is_row(lines, pos, cw),
    ensures
        next_position(lines, pos, cw) != pos ==> prev_position(
            lines,
            next_position(lines, pos, cw),
            cw,
        ) == pos,
        prev_position(lines, pos, cw) != pos ==> next_position(
            lines,
            prev_position(lines, pos, cw),
            cw,
        ) == pos,
        is_row(lines, next_position(lines, pos, cw), cw),
        is_row(lines, prev_position(lines, pos, cw), cw),
{
    crate::reader::lemma_wrapped_rows_wrap(lines[pos.0 as int], cw);
    if pos.0 + 1 < lines.len() {
        crate::reader::lemma_wrapped_rows_wrap(lines[pos.0 + 1int], cw);
    }
    if pos.0 > 0 {
        crate::reader::lemma_wrapped_rows_wrap(lines[pos.0 - 1], cw);
    }
}

/// Whether moving `n` rows up from `pos` stays on lines of the book:
/// moving to a previous line from past the end reads a line that is not
/// there.
pub open spec fn can_move_back(lines: Seq<Seq<char>>, pos: (nat, nat), n: nat) -> bool {
    n <= pos.1 || pos.0 <= lines.len()
}

/// `v` at the row position `pos`.
pub open spec fn at_position(v: AppView, pos: (nat, nat)) -> AppView {
    AppView { current_line: pos.0 as usize, sub_offset: pos.1 as usize, ..v }
}

/// `v` after `n` rows down.
pub open spec fn moved_forward(v: AppView, n: nat, cw: nat) -> AppView {
    at_position(
        v,
        forward_n(v.book.lines.deep_view(), (v.current_line as nat, v.sub_offset as nat), n, cw),
    )
}

/// `v` after `n` rows up.
pub open spec fn moved_back(v: AppView, n: nat, cw: nat) -> AppView {
    at_position(
        v,
        back_n(v.book.lines.deep_view(), (v.current_line as nat, v.sub_offset as nat), n, cw),
    )
}

impl App {
    /// One row down at `content_width` columns.
    fn next_display_line(&mut self, content_width: usize)
        ensures
            (final(self).current_line as nat, final(self).sub_offset as nat) == next_position(
                old(self).book.lines.deep_view(),
                (old(self).current_line as nat, old(self).sub_offset as nat),
                content_width as nat,
            ),
            final(self)@ == at_position(
                old(self)@,
                (final(self).current_line as nat, final(self).sub_offset as nat),
            ),
            final(self).status_until == old(self).status_until,
    {
        if self.current_line >= self.book.lines.len() {
            return;
        }
        let wrapped = Book::wrap_line(self.book.lines[self.current_line].as_str(), content_width);
        proof {
            crate::reader::lemma_wrapped_rows_wrap(self.book.lines@[self.current_line as int]@, content_width as nat);
            assert(self.book.lines.deep_view()[self.current_line as int] == self.book.lines@[self.current_line as int]@);
        }
        if self.sub_offset < wrapped.len() - 1 {
            self.sub_offset = self.sub_offset + 1;
        } else if self.current_line + 1 < self.book.lines.len() {
            self.current_line = self.current_line + 1;
            self.sub_offset = 0;
        }
    }

    /// One row up at `content_width` columns.
    fn prev_display_line(&mut self, content_width: usize)
        requires
            can_move_back(
                old(self).book.lines.deep_view(),
                (old(self).current_line as nat, old(self).sub_offset as nat),
                1,
            ),
        ensures
            (final(self).current_line as nat, final(self).sub_offset as nat) == prev_position(
                old(self).book.lines.deep_view(),
                (old(self).current_line as nat, old(self).sub_offset as nat),
                content_width as nat,
            ),
            final(self)@ == at_position(
                old(self)@,
                (final(self).current_line as nat, final(self).sub_offset as nat),
            ),
            final(self).status_until == old(self).status_until,
    {
        if self.sub_offset > 0 {
            self.sub_offset = self.sub_offset - 1;
        } else if self.current_line > 0 {
            self.current_line = self.current_line - 1;
            let wrapped = Book::wrap_line(self.book.lines[self.current_line].as_str(), content_width);
            proof {
                crate::reader::lemma_wrapped_rows_wrap(self.book.lines@[self.current_line as int]@, content_width as nat);
                assert(self.book.lines.deep_view()[self.current_line as int] == self.book.lines@[self.current_line as int]@);
            }
            self.sub_offset = wrapped.len() - 1;
        }
    }

    /// `n` rows down at `content_width` columns.
    fn next_lines(&mut self, n: usize, content_width: usize)
        ensures
            final(self)@ == moved_forward(old(self)@, n as nat, content_width as nat),
            final(self).status_until == old(self).status_until,
    {
        let ghost start = self@;
        let ghost lines = self.book.lines.deep_view();
        let mut i: usize = 0;
        while i < n
            invariant
                i <= n,
                lines == self.book.lines.deep_view(),
                lines == start.book.lines.deep_view(),
                (self.current_line as nat, self.sub_offset as nat) == forward_n(
                    lines,
                    (start.current_line as nat, start.sub_offset as nat),
                    i as nat,
                    content_width as nat,
                ),
                self@ == at_position(start, (self.current_line as nat, self.sub_offset as nat)),
                self.status_until == old(self).status_until,
            decreases n - i,
        {
            self.next_display_line(content_width);
            i = i + 1;
        }
    }

    /// `n` rows up at `content_width` columns.
    fn prev_lines(&mut self, n: usize, content_width: usize)
        requires
            can_move_back(
                old(self).book.lines.deep_view(),
                (old(self).current_line as nat, old(self).sub_offset as nat),
                n as nat,
            ),
        ensures
            final(self)@ == moved_back(old(self)@, n as nat, content_width as nat),
            final(self).status_until == old(self).status_until,
    {
        let ghost start = self@;
        let ghost lines = self.book.lines.deep_view();
        let mut i: usize = 0;
        while i < n
            invariant
                i <= n,
                lines == self.book.lines.deep_view(),
                lines == start.book.lines.deep_view(),
                (self.current_line as nat, self.sub_offset as nat) == back_n(
                    lines,
                    (start.current_line as nat, start.sub_offset as nat),
                    i as nat,
                    content_width as nat,
                ),
                self@ == at_position(start, (self.current_line as nat, self.sub_offset as nat)),
                can_move_back(lines, (self.current_line as nat, self.sub_offset as nat), (n - i) as nat),
                self.status_until == old(self).status_until,
            decreases n - i,
        {
            self.prev_display_line(content_width);
            i = i + 1;
        }
    }
}


// ---------------------------------------------------------------------
// Width of the text column
// ---------------------------------------------------------------------

/// The first position at or after `i` where `q` occurs in `s`.
pub open spec fn find_from(s: Seq<char>, q: Seq<char>, i: int) -> Option<int>
    decreases s.len() + 1 - i,
{
    if i < 0 || i + q.len() > s.len() {
        None
    } else if occurs_at(s, q, i) {
        Some(i)
    } else {
        find_from(s, q, i + 1)
    }
}

/// Where a template puts the text.
pub open spec fn text_marker() -> Seq<char> {
    "{text}"@
}

/// What a template shows before the text: the part before the first
/// `{text}` (all of it when there is none).
pub open spec fn template_prefix(t: Seq<char>) -> Seq<char> {
    match find_from(t, text_marker(), 0) {
        Some(i) => t.take(i),
        None => t,
    }
}

/// What a template shows after the text: the part between the first and
/// the second `{text}` (or the end); nothing when there is no `{text}`.
pub open spec fn template_suffix(t: Seq<char>) -> Seq<char> {
    match find_from(t, text_marker(), 0) {
        Some(i) => {
            let rest = t.skip(i + text_marker().len());
            match find_from(rest, text_marker(), 0) {
                Some(j) => rest.take(j),
                None => rest,
            }
        },
        None => seq![],
    }
}

/// The progress counter of the minimal disguises: `[{:5}/{:5}]` of the
/// current line and the number of lines.
pub open spec fn progress_counter(current: nat, total: nat) -> Seq<char> {
    seq!['['] + pad_left(decimal(current), 5) + seq!['/'] + pad_left(decimal(total), 5) + seq![']']
}

/// `x`, but at least one.
pub open spec fn at_least_one(x: int) -> nat {
    if x < 1 {
        1
    } else {
        x as nat
    }
}

/// The width of the column left for the text in a terminal of `width`
/// columns, once the disguise's decoration is taken off. The comment
/// disguise's progress suffix is measured by the caller.
pub open spec fn content_width(v: AppView, comment_suffix_width: nat) -> nat {
    let width = v.terminal_width as int;
    match v.custom_template {
        Some(t) => at_least_one(
            width - (str_width_of(template_prefix(t)) + str_width_of(template_suffix(t))),
        ),
        None => match v.mode {
            DisplayMode::Log | DisplayMode::DockerLogs | DisplayMode::KubectlLogs => at_least_one(
                width - 29,
            ),
            DisplayMode::Minimal | DisplayMode::NpmInstall | DisplayMode::Pytest => at_least_one(
                width - str_width_of(
                    progress_counter(v.current_line as nat, v.book.lines@.len()),
                ),
            ),
            DisplayMode::Comment => at_least_one(
                width - (str_width_of("// "@) + comment_suffix_width),
            ),
            DisplayMode::GitLog => at_least_one(width - 14),
        },
    }
}

/// The first position at or after `from` where `q` occurs in `v`.
fn find_chars_from(v: &[char], q: &[char], from: usize) -> (r: Option<usize>)
    ensures
        r is None <==> find_from(v@, q@, from as int) is None,
        r matches Some(i) ==> find_from(v@, q@, from as int) == Some(i as int) && i + q@.len()
            <= v@.len(),
    decreases v@.len() - from,
{
    if q.len() > v.len() || from > v.len() - q.len() {
        return None;
    }
    if occurs_at_exec(v, q, from) {
        return Some(from);
    }
    if from == v.len() - q.len() {
        assert(find_from(v@, q@, from + 1) == None::<int>);
        return None;
    }
    find_chars_from(v, q, from + 1)
}

/// The parts of template `t` before and after the text, as
/// `template_prefix` and `template_suffix` say.
pub(crate) fn template_parts(tmpl: &str) -> (r: (String, String))
    ensures
        r.0@ == template_prefix(tmpl@),
        r.1@ == template_suffix(tmpl@),
{
    let t = chars_of(tmpl);
    let n = t.len();
    let marker = chars_of("{text}");
    proof {
        reveal_strlit("{text}");
    }
    let (prefix, suffix) = match find_chars_from(&t, &marker, 0) {
        Some(i) => {
            let start = i + marker.len();
            let rest = string_of_range(&t, start, n);
            let rc = chars_of(rest.as_str());
            assert(rc@ =~= t@.skip(start as int));
            let suffix = match find_chars_from(&rc, &marker, 0) {
                Some(j) => string_of_range(&rc, 0, j),
                None => rest,
            };
            proof {
                assert(rc@.subrange(0, 0) =~= rc@.take(0));
                if let Some(j) = find_from(rc@, marker@, 0) {
                    assert(rc@.subrange(0, j) =~= rc@.take(j));
                }
            }
            (string_of_range(&t, 0, i), suffix)
        },
        None => (string_of(&t), String::new()),
    };
    proof {
        if let Some(i) = find_from(t@, marker@, 0) {
            assert(t@.subrange(0, i) =~= t@.take(i));
        }
    }
    (prefix, suffix)
}

/// `x - a - b`, but at least one (`x.saturating_sub(a + b).max(1)`
/// without the sum overflowing).
pub(crate) fn width_left(x: usize, a: usize, b: usize) -> (r: usize)
    ensures
        r == at_least_one(x - (a + b)),
{
    let w = x.saturating_sub(a).saturating_sub(b);
    if w < 1 {
        1
    } else {
        w
    }
}

/// The progress counter `[{:5}/{:5}]`.
pub(crate) fn progress_counter_text(current: usize, total: usize) -> (r: String)
    ensures
        r@ == progress_counter(current as nat, total as nat),
{
    let mut out: Vec<char> = Vec::new();
    out.push('[');
    let a = pad_left_chars(&decimal_chars(current), 5);
    append_chars(&mut out, &a);
    out.push('/');
    let b = pad_left_chars(&decimal_chars(total), 5);
    append_chars(&mut out, &b);
    out.push(']');
    assert(out@ =~= progress_counter(current as nat, total as nat));
    string_of(&out)
}

/// The last position in `xs` whose value is at most `line`.
pub open spec fn last_at_or_before(xs: Seq<usize>, line: usize) -> Option<nat>
    decreases xs.len(),
{
    if xs.len() == 0 {
        None
    } else if xs.last() <= line {
        Some((xs.len() - 1) as nat)
    } else {
        last_at_or_before(xs.drop_last(), line)
    }
}

/// The line numbers of the chapters.
pub open spec fn chapter_lines(cs: Seq<Chapter>) -> Seq<usize> {
    cs.map_values(|c: Chapter| c.line_index)
}

/// The cursor put on the last entry at or before `line`, else the first.
pub open spec fn cursor_at(xs: Seq<usize>, line: usize) -> usize {
    match last_at_or_before(xs, line) {
        Some(i) => i as usize,
        None => 0,
    }
}

/// The last position in `xs` whose value is at most `line`.
fn last_index_at_or_before(xs: &[usize], line: usize) -> (r: Option<usize>)
    ensures
        r is None <==> last_at_or_before(xs@, line) is None,
        r matches Some(i) ==> last_at_or_before(xs@, line) == Some(i as nat) && i < xs@.len(),
{
    let mut i = xs.len();
    assert(xs@.take(i as int) =~= xs@);
    while i > 0
        invariant
            i <= xs@.len(),
            last_at_or_before(xs@, line) == last_at_or_before(xs@.take(i as int), line),
        decreases i,
    {
        proof {
            assert(xs@.take(i as int).drop_last() =~= xs@.take(i - 1));
            assert(xs@.take(i as int).last() == xs@[i - 1]);
        }
        if xs[i - 1] <= line {
            assert(last_at_or_before(xs@.take(i as int), line) == Some((i - 1) as nat));
            return Some(i - 1);
        }
        i = i - 1;
    }
    None
}

/// The line numbers of `cs`.
fn chapter_line_numbers(cs: &Vec<Chapter>) -> (r: Vec<usize>)
    ensures
        r@ == chapter_lines(cs@),
{
    let mut out: Vec<usize> = Vec::new();
    let mut i: usize = 0;
    while i < cs.len()
        invariant
            i <= cs@.len(),
            out@ == chapter_lines(cs@).take(i as int),
        decreases cs@.len() - i,
    {
        out.push(cs[i].line_index);
        i = i + 1;
        assert(out@ =~= chapter_lines(cs@).take(i as int));
    }
    assert(chapter_lines(cs@).take(cs@.len() as int) =~= chapter_lines(cs@));
    out
}

/// The reading position restored from a bookmark, or the beginning.
pub open spec fn restored_view(
    book: Book,
    mode: DisplayMode,
    display_lines: usize,
    entries: Map<Seq<char>, BookmarkEntry>,
    favorites: Map<Seq<char>, Seq<usize>>,
) -> AppView {
    let saved = entries.contains_key(book.file_path@);
    let e = entries[book.file_path@];
    let last = if book.lines@.len() > 0 {
        book.lines@.len() - 1
    } else {
        0
    };
    AppView {
        book,
        entries,
        favorites,
        current_line: if saved {
            if e.line_index <= last {
                e.line_index
            } else {
                last as usize
            }
        } else {
            0
        },
        sub_offset: if saved {
            e.sub_offset
        } else {
            0
        },
        display_lines: if display_lines < 1 {
            1
        } else if display_lines > 3 {
            3
        } else {
            display_lines
        },
        terminal_width: 80,
        mode: if saved {
            e.mode
        } else {
            mode
        },
        input_mode: InputMode::Normal,
        search_input: seq![],
        last_search: seq![],
        search_highlight: None,
        goto_input: seq![],
        chapter_cursor: 0,
        favorite_cursor: 0,
        should_quit: false,
        boss_key: false,
        hidden: false,
        status_message: None,
        status_until: None,
        custom_template: None,
    }
}

/// `v` with its reading position and disguise saved for its file,
/// stamped `now`.
pub open spec fn bookmark_recorded(v: AppView, now: u64) -> AppView {
    AppView {
        entries: v.entries.insert(
            v.book.file_path@,
            BookmarkEntry {
                line_index: v.current_line,
                sub_offset: v.sub_offset,
                mode: v.mode,
                last_accessed: Some(now),
            },
        ),
        ..v
    }
}

/// Reopening a book whose position was just recorded resumes there: the
/// same line, row and disguise, whatever mode the reader is started in.
pub proof fn lemma_reopen_resumes(
    v: AppView,
    now: u64,
    mode: DisplayMode,
    display_lines: usize,
)
    requires
        v.current_line < v.book.lines@.len() || v.current_line == 0,
    ensures
        ({
            let saved = bookmark_recorded(v, now);
            let r = restored_view(v.book, mode, display_lines, saved.entries, saved.favorites);
            &&& r.current_line == v.current_line
            &&& r.sub_offset == v.sub_offset
            &&& r.mode == v.mode
            &&& r.entries == saved.entries
        }),
{
}

/// `v` with no status message.
pub open spec fn without_status(v: AppView) -> AppView {
    AppView { status_message: None, status_until: None, ..v }
}

/// The moment `secs` seconds after `now` (both in milliseconds since the
/// Unix epoch), or the last moment a `u64` holds.
pub open spec fn status_deadline(now: u64, secs: u64) -> u64 {
    if now + secs * 1000 <= u64::MAX {
        (now + secs * 1000) as u64
    } else {
        u64::MAX
    }
}

/// `v` showing the status message `msg` for `secs` seconds from `now`.
pub open spec fn with_status_for(v: AppView, msg: Seq<char>, now: u64, secs: u64) -> AppView {
    AppView { status_message: Some(msg), status_until: Some(status_deadline(now, secs)), ..v }
}

/// `v` showing the status message `msg` for two seconds from `now`, as
/// the keys' messages show.
pub open spec fn with_status(v: AppView, msg: Seq<char>, now: u64) -> AppView {
    with_status_for(v, msg, now, 2)
}

/// `v` at `now`: its status message gone once its deadline is reached.
pub open spec fn status_cleared_at(v: AppView, now: u64) -> AppView {
    match v.status_until {
        Some(u) => if now >= u {
            without_status(v)
        } else {
            v
        },
        None => v,
    }
}

/// A status message set at `now` for `secs` seconds stays until its
/// deadline and goes when it is reached: clearing at any moment before
/// `now + secs` seconds keeps it, at or after that moment removes it.
pub proof fn lemma_status_shows_for_its_seconds(v: AppView, msg: Seq<char>, now: u64, secs: u64, t: u64)
    requires
        now + secs * 1000 <= u64::MAX,
    ensures
        ({
            let shown = with_status_for(v, msg, now, secs);
            let later = status_cleared_at(shown, t);
            &&& t < now + secs * 1000 ==> later == shown && later.status_message == Some(msg)
            &&& t >= now + secs * 1000 ==> later.status_message is None && later.status_until is None
        }),
{
}

/// The current time in milliseconds since the Unix epoch.
fn clock_millis() -> (r: u64) {
    crate::bookmark::unix_time_millis()
}

impl App {
    /// The reader for `book`, resuming where the bookmark of its file left
    /// off (line clamped to the book, row and disguise restored), else at
    /// the start in `mode`; between one and three display lines.
    pub fn new(book: Book, mode: DisplayMode, display_lines: usize, bookmarks: Bookmarks) -> (r: Self)
        ensures
            r@ == restored_view(
                book,
                mode,
                display_lines,
                bookmarks.entries_view(),
                bookmarks.favorites_view(),
            ),
            r.status_until is None,
    {
        let mut current_line: usize = 0;
        let mut sub_offset: usize = 0;
        let mut current_mode = mode;
        match bookmarks.get(book.file_path.as_str()) {
            Some(entry) => {
                let last = book.lines.len().saturating_sub(1);
                current_line = if entry.line_index <= last {
                    entry.line_index
                } else {
                    last
                };
                sub_offset = entry.sub_offset;
                current_mode = entry.mode;
            },
            None => {},
        }
        let dl = if display_lines < 1 {
            1
        } else if display_lines > 3 {
            3
        } else {
            display_lines
        };
        let app = App {
            book,
            bookmarks,
            current_line,
            sub_offset,
            display_lines: dl,
            terminal_width: 80,
            mode: current_mode,
            input_mode: InputMode::Normal,
            search_input: String::new(),
            last_search: String::new(),
            search_highlight: None,
            goto_input: String::new(),
            chapter_cursor: 0,
            favorite_cursor: 0,
            should_quit: false,
            boss_key: false,
            hidden: false,
            status_message: None,
            status_until: None,
            custom_template: None,
        };
        assert(app@ =~= restored_view(
            app.book,
            mode,
            display_lines,
            app.bookmarks.entries_view(),
            app.bookmarks.favorites_view(),
        ));
        app
    }

    /// Shows `msg` for `duration_secs` seconds from `now` (milliseconds
    /// since the Unix epoch).
    pub fn set_status_at(&mut self, msg: String, now: u64, duration_secs: u64)
        ensures
            final(self)@ == with_status_for(old(self)@, msg@, now, duration_secs),
    {
        let until = match duration_secs.checked_mul(1000) {
            Some(ms) => now.saturating_add(ms),
            None => u64::MAX,
        };
        proof {
            if duration_secs * 1000 > u64::MAX {
                assert(now + duration_secs * 1000 > u64::MAX);
            }
        }
        self.status_message = Some(msg);
        self.status_until = Some(until);
    }

    /// Shows `msg` for `duration_secs` seconds from the current time.
    pub fn set_status(&mut self, msg: String, duration_secs: u64)
        ensures
            exists|now: u64|
                final(self)@ == #[trigger] with_status_for(old(self)@, msg@, now, duration_secs),
    {
        let now = clock_millis();
        self.set_status_at(msg, now, duration_secs);
    }

    /// Takes the status message away if its deadline is reached at `now`
    /// (milliseconds since the Unix epoch).
    pub fn clear_status_at(&mut self, now: u64)
        ensures
            final(self)@ == status_cleared_at(old(self)@, now),
    {
        let expired = match self.status_until {
            Some(until) => now >= until,
            None => false,
        };
        if expired {
            self.status_message = None;
            self.status_until = None;
        }
    }

    /// Takes the status message away once its time is up, by the current
    /// time.
    pub fn clear_status_if_expired(&mut self)
        ensures
            exists|now: u64| final(self)@ == #[trigger] status_cleared_at(old(self)@, now),
            old(self).status_until is None ==> final(self)@ == old(self)@,
    {
        let now = clock_millis();
        self.clear_status_at(now);
    }

    /// Records the reading position and disguise in the bookmarks,
    /// stamped `now` (milliseconds since the Unix epoch).
    pub fn record_bookmark_at(&mut self, now: u64)
        ensures
            final(self)@ == bookmark_recorded(old(self)@, now),
    {
        let entry = BookmarkEntry {
            line_index: self.current_line,
            sub_offset: self.sub_offset,
            mode: self.mode,
            last_accessed: None,
        };
        let ghost before = self@;
        self.bookmarks.set_at(self.book.file_path.as_str(), entry, now);
        assert(self@ == bookmark_recorded(before, now));
    }

    /// Records the reading position and disguise in the bookmarks,
    /// stamped with the current time in milliseconds.
    pub fn record_bookmark(&mut self)
        ensures
            exists|now: u64| final(self)@ == #[trigger] bookmark_recorded(old(self)@, now),
    {
        let now = clock_millis();
        self.record_bookmark_at(now);
    }

    /// The width of the text column; `comment_suffix_width` is the width
    /// of the comment disguise's progress suffix.
    pub fn estimate_content_width(&self, comment_suffix_width: usize) -> (r: usize)
        ensures
            r == content_width(self@, comment_suffix_width as nat),
    {
        let width = self.terminal_width as usize;
        match &self.custom_template {
            Some(tmpl) => {
                let (prefix, suffix) = template_parts(tmpl.as_str());
                let pw = str_width(prefix.as_str());
                let sw = str_width(suffix.as_str());
                width_left(width, pw, sw)
            },
            None => match self.mode {
                DisplayMode::Log | DisplayMode::DockerLogs | DisplayMode::KubectlLogs => width_left(
                    width,
                    29,
                    0,
                ),
                DisplayMode::Minimal | DisplayMode::NpmInstall | DisplayMode::Pytest => {
                    let counter = progress_counter_text(self.current_line, self.book.lines.len());
                    width_left(width, str_width(counter.as_str()), 0)
                },
                DisplayMode::Comment => width_left(width, str_width("// "), comment_suffix_width),
                DisplayMode::GitLog => width_left(width, 14, 0),
            },
        }
    }

    /// The number (from one) of the chapter the current line is in, or
    /// zero before the first chapter.
    pub fn current_chapter_number(&self) -> (r: usize)
        ensures
            r == (match last_at_or_before(chapter_lines(self.book.chapters@), self.current_line) {
                Some(i) => i + 1,
                None => 0,
            }),
    {
        let lines = chapter_line_numbers(&self.book.chapters);
        let n = lines.len();
        match last_index_at_or_before(&lines, self.current_line) {
            Some(i) => i + 1,
            None => 0,
        }
    }
}

proof fn lemma_last_at_or_before_bound(xs: Seq<usize>, line: usize)
    ensures
        last_at_or_before(xs, line) matches Some(i) ==> i < xs.len() && xs[i as int] <= line,
    decreases xs.len(),
{
    if xs.len() > 0 {
        lemma_last_at_or_before_bound(xs.drop_last(), line);
    }
}


// ---------------------------------------------------------------------
// Keys
// ---------------------------------------------------------------------

/// The status message for a query that matched no line.
pub open spec fn not_found_message(q: Seq<char>) -> Seq<char> {
    "未找到: "@ + q
}

/// `v` after a search for `q` that gave `found`: at the start of the line
/// found with `q` highlighted, or showing that nothing was found.
pub open spec fn after_search(v: AppView, found: Option<usize>, q: Seq<char>, now: u64) -> AppView {
    match found {
        Some(idx) => AppView { current_line: idx, sub_offset: 0, search_highlight: Some(q), ..v },
        None => with_status(v, not_found_message(q), now),
    }
}

/// Whether searching from the current line can be done: every line has a
/// lower-case copy, and counting past the current line does not overflow.
pub open spec fn searchable(v: AppView) -> bool {
    v.book.lines@.len() <= v.book.lowercase_lines@.len() && v.current_line + v.book.lines@.len()
        <= usize::MAX
}

/// The current row position.
pub open spec fn position(v: AppView) -> (nat, nat) {
    (v.current_line as nat, v.sub_offset as nat)
}

/// Whether `key` can be handled while reading without reading past the
/// book (moving up from past its end) or overflowing (searching).
pub open spec fn normal_key_allowed(v: AppView, key: KeyInput) -> bool {
    let lines = v.book.lines.deep_view();
    match key.code {
        Key::Char(c) => {
            &&& c == 'k' ==> can_move_back(lines, position(v), 1)
            &&& c == 'b' ==> can_move_back(lines, position(v), v.display_lines as nat)
            &&& (c == 'n' || c == 'N') && v.last_search.len() > 0 ==> searchable(v)
        },
        Key::Up => can_move_back(lines, position(v), 1),
        Key::PageUp => can_move_back(lines, position(v), v.display_lines as nat),
        _ => true,
    }
}

/// What a key does while reading, with the text column `cw` wide.
pub open spec fn normal_key_view(v: AppView, key: KeyInput, cw: nat, now: u64) -> AppView {
    let len = v.book.lines@.len();
    let file = v.book.file_path@;
    match key.code {
        Key::Char(c) => {
            if c == 'q' {
                AppView { should_quit: true, ..v }
            } else if c == 'c' && key.ctrl {
                AppView { should_quit: true, ..v }
            } else if c == 'h' {
                AppView { hidden: true, ..v }
            } else if c == 'j' {
                moved_forward(v, 1, cw)
            } else if c == 'k' {
                moved_back(v, 1, cw)
            } else if c == ' ' {
                moved_forward(v, v.display_lines as nat, cw)
            } else if c == 'b' {
                moved_back(v, v.display_lines as nat, cw)
            } else if c == 't' {
                AppView { mode: next_spec(v.mode), ..v }
            } else if c == '/' {
                AppView { input_mode: InputMode::Search, search_input: seq![], ..v }
            } else if c == 'p' || c == ':' {
                AppView { input_mode: InputMode::GotoPercent, goto_input: seq![], ..v }
            } else if c == 'n' && v.last_search.len() > 0 {
                after_search(
                    v,
                    v.book.scan_forward(v.current_line as int, v.last_search, 1),
                    v.last_search,
                    now,
                )
            } else if c == 'N' && v.last_search.len() > 0 {
                after_search(
                    v,
                    v.book.scan_backward(v.current_line as int, v.last_search, 1),
                    v.last_search,
                    now,
                )
            } else if c == 'g' {
                if v.book.chapters@.len() == 0 {
                    with_status(v, "无章节"@, now)
                } else {
                    AppView {
                        input_mode: InputMode::ChapterList,
                        chapter_cursor: cursor_at(chapter_lines(v.book.chapters@), v.current_line),
                        ..v
                    }
                }
            } else if c == 'm' {
                let before = favorites_of(v.favorites, file);
                let added = !before.contains(v.current_line);
                with_status(
                    AppView {
                        favorites: v.favorites.insert(file, toggled(before, v.current_line)),
                        ..v
                    },
                    if added {
                        "已收藏"@
                    } else {
                        "已取消收藏"@
                    },
                    now,
                )
            } else if c == 'M' {
                let favs = favorites_of(v.favorites, file);
                if favs.len() == 0 {
                    with_status(v, "无收藏"@, now)
                } else {
                    AppView {
                        input_mode: InputMode::FavoriteList,
                        favorite_cursor: cursor_at(favs, v.current_line),
                        ..v
                    }
                }
            } else {
                v
            }
        },
        Key::Esc => AppView { boss_key: true, ..v },
        Key::Down | Key::Enter => moved_forward(v, 1, cw),
        Key::Up => moved_back(v, 1, cw),
        Key::PageDown => moved_forward(v, v.display_lines as nat, cw),
        Key::PageUp => moved_back(v, v.display_lines as nat, cw),
        Key::Home => AppView { current_line: 0, sub_offset: 0, ..v },
        Key::End => AppView {
            current_line: if len > 0 {
                (len - 1) as usize
            } else {
                0
            },
            sub_offset: 0,
            ..v
        },
        _ => v,
    }
}

impl App {
    /// Shows that `query` matched nothing, for two seconds.
    fn report_not_found(&mut self, query: &String, now: u64)
        ensures
            final(self)@ == with_status(old(self)@, not_found_message(query@), now),
    {
        let mut msg = "未找到: ".to_owned();
        msg.push_str(query.as_str());
        self.set_status_at(msg, now, 2);
    }

    /// Applies the outcome `found` of a search for `query`.
    fn apply_search(&mut self, found: Option<usize>, query: &String, now: u64)
        ensures
            final(self)@ == after_search(old(self)@, found, query@, now),
    {
        match found {
            Some(idx) => {
                self.current_line = idx;
                self.sub_offset = 0;
                self.search_highlight = Some(query.clone());
            },
            None => {
                self.report_not_found(query, now);
            },
        }
    }

    /// Handles a key while reading.
    pub fn handle_normal_key(&mut self, key: KeyInput, comment_suffix_width: usize, now: u64)
        requires
            normal_key_allowed(old(self)@, key),
        ensures
            final(self)@ == normal_key_view(
                old(self)@,
                key,
                content_width(old(self)@, comment_suffix_width as nat),
                now,
            ),
    {
        let content_width = self.estimate_content_width(comment_suffix_width);
        match key.code {
            Key::Char(c) => {
                if c == 'q' {
                    self.should_quit = true;
                } else if c == 'c' && key.ctrl {
                    self.should_quit = true;
                } else if c == 'h' {
                    self.hidden = true;
                } else if c == 'j' {
                    self.next_lines(1, content_width);
                } else if c == 'k' {
                    self.prev_lines(1, content_width);
                } else if c == ' ' {
                    let n = self.display_lines;
                    self.next_lines(n, content_width);
                } else if c == 'b' {
                    let n = self.display_lines;
                    self.prev_lines(n, content_width);
                } else if c == 't' {
                    self.mode = self.mode.next();
                } else if c == '/' {
                    self.input_mode = InputMode::Search;
                    self.search_input = String::new();
                } else if c == 'p' || c == ':' {
                    self.input_mode = InputMode::GotoPercent;
                    self.goto_input = String::new();
                } else if c == 'n' && !self.last_search.as_str().is_empty() {
                    let found = self.book.search_forward(self.current_line, self.last_search.as_str());
                    let q = self.last_search.clone();
                    self.apply_search(found, &q, now);
                } else if c == 'N' && !self.last_search.as_str().is_empty() {
                    let found = self.book.search_backward(self.current_line, self.last_search.as_str());
                    let q = self.last_search.clone();
                    self.apply_search(found, &q, now);
                } else if c == 'g' {
                    if self.book.chapters.len() == 0 {
                        self.set_status_at("无章节".to_owned(), now, 2);
                    } else {
                        let lines = chapter_line_numbers(&self.book.chapters);
                        let cursor = match last_index_at_or_before(&lines, self.current_line) {
                            Some(i) => i,
                            None => 0,
                        };
                        self.input_mode = InputMode::ChapterList;
                        self.chapter_cursor = cursor;
                    }
                } else if c == 'm' {
                    let added = self.bookmarks.toggle_favorite(
                        self.book.file_path.as_str(),
                        self.current_line,
                    );
                    let msg = if added {
                        "已收藏".to_owned()
                    } else {
                        "已取消收藏".to_owned()
                    };
                    self.set_status_at(msg, now, 2);
                } else if c == 'M' {
                    let favs = self.bookmarks.favorites(self.book.file_path.as_str());
                    if favs.len() == 0 {
                        self.set_status_at("无收藏".to_owned(), now, 2);
                    } else {
                        let cursor = match last_index_at_or_before(&favs, self.current_line) {
                            Some(i) => i,
                            None => 0,
                        };
                        self.input_mode = InputMode::FavoriteList;
                        self.favorite_cursor = cursor;
                    }
                }
            },
            Key::Esc => {
                self.boss_key = true;
            },
            Key::Down | Key::Enter => {
                self.next_lines(1, content_width);
            },
            Key::Up => {
                self.prev_lines(1, content_width);
            },
            Key::PageDown => {
                let n = self.display_lines;
                self.next_lines(n, content_width);
            },
            Key::PageUp => {
                let n = self.display_lines;
                self.prev_lines(n, content_width);
            },
            Key::Home => {
                self.current_line = 0;
                self.sub_offset = 0;
            },
            Key::End => {
                self.current_line = self.book.lines.len().saturating_sub(1);
                self.sub_offset = 0;
            },
            _ => {},
        }
    }
}


/// Whether `key` can be handled while typing a query.
pub open spec fn search_key_allowed(v: AppView, key: KeyInput) -> bool {
    key.code == Key::Enter && v.search_input.len() > 0 ==> searchable(v)
}

/// What a key does while typing a query: characters are typed,
/// Backspace deletes, Enter searches forward (remembering the query) and
/// goes back to reading, Esc just goes back.
pub open spec fn search_key_view(v: AppView, key: KeyInput, now: u64) -> AppView {
    match key.code {
        Key::Char(c) => AppView { search_input: v.search_input.push(c), ..v },
        Key::Backspace => AppView {
            search_input: if v.search_input.len() > 0 {
                v.search_input.drop_last()
            } else {
                v.search_input
            },
            ..v
        },
        Key::Enter => {
            let done = if v.search_input.len() > 0 {
                after_search(
                    AppView { last_search: v.search_input, ..v },
                    v.book.scan_forward(v.current_line as int, v.search_input, 1),
                    v.search_input,
                    now,
                )
            } else {
                v
            };
            AppView { input_mode: InputMode::Normal, ..done }
        },
        Key::Esc => AppView { input_mode: InputMode::Normal, ..v },
        _ => v,
    }
}

/// Whether `k` is `j` or the down arrow.
pub open spec fn is_down(k: Key) -> bool {
    k == Key::Char('j') || k == Key::Down
}

/// Whether `k` is `k` or the up arrow.
pub open spec fn is_up(k: Key) -> bool {
    k == Key::Char('k') || k == Key::Up
}

/// Whether moving the cursor down from `cursor` can be asked without
/// overflowing.
pub open spec fn cursor_can_move(key: KeyInput, cursor: usize) -> bool {
    is_down(key.code) ==> cursor < usize::MAX
}

/// What a key does in a list of `n` entries whose values are the lines
/// `targets`: the cursor moves within the list, Enter jumps to the line
/// under the cursor and closes the list, and the `close` keys close it.
pub open spec fn list_key_view(
    v: AppView,
    key: KeyInput,
    cursor: usize,
    targets: Seq<usize>,
    close: char,
) -> (AppView, usize) {
    if is_down(key.code) && cursor + 1 < targets.len() {
        (v, (cursor + 1) as usize)
    } else if is_up(key.code) && cursor > 0 {
        (v, (cursor - 1) as usize)
    } else if key.code == Key::Enter {
        let moved = if cursor < targets.len() {
            AppView { current_line: targets[cursor as int], sub_offset: 0, ..v }
        } else {
            v
        };
        (AppView { input_mode: InputMode::Normal, ..moved }, cursor)
    } else if key.code == Key::Esc || key.code == Key::Char('q') || key.code == Key::Char(close) {
        (AppView { input_mode: InputMode::Normal, ..v }, cursor)
    } else {
        (v, cursor)
    }
}

/// What a key does in the chapter list.
pub open spec fn chapter_key_view(v: AppView, key: KeyInput) -> AppView {
    let r = list_key_view(v, key, v.chapter_cursor, chapter_lines(v.book.chapters@), 'g');
    AppView { chapter_cursor: r.1, ..r.0 }
}

/// What a key does in the list of favourite lines.
pub open spec fn favorite_key_view(v: AppView, key: KeyInput) -> AppView {
    let favs = favorites_of(v.favorites, v.book.file_path@);
    let r = list_key_view(v, key, v.favorite_cursor, favs, 'M');
    AppView { favorite_cursor: r.1, ..r.0 }
}

/// The line `percent` per cent into a book of `total` lines.
pub open spec fn percent_line(percent: nat, total: nat) -> nat {
    let pct = if percent > 100 {
        100
    } else {
        percent
    };
    let target = pct * total / 100;
    if target <= total - 1 {
        target
    } else {
        (total - 1) as nat
    }
}

/// Whether `key` can be handled while typing a percentage: the jump's
/// product of percentage and line count must not overflow.
pub open spec fn goto_key_allowed(v: AppView, key: KeyInput) -> bool {
    key.code == Key::Enter ==> match parsed_usize(v.goto_input) {
        Some(p) => (if p > 100 {
            100
        } else {
            p as int
        }) * v.book.lines@.len() <= usize::MAX,
        None => true,
    }
}

/// What a key does while typing a percentage: digits are typed,
/// Backspace deletes, Enter jumps there (when the input is a number and
/// the book has lines) and goes back to reading, Esc just goes back.
pub open spec fn goto_key_view(v: AppView, key: KeyInput) -> AppView {
    let total = v.book.lines@.len();
    match key.code {
        Key::Char(c) => if crate::text::is_digit(c) {
            AppView { goto_input: v.goto_input.push(c), ..v }
        } else {
            v
        },
        Key::Backspace => AppView {
            goto_input: if v.goto_input.len() > 0 {
                v.goto_input.drop_last()
            } else {
                v.goto_input
            },
            ..v
        },
        Key::Enter => {
            let moved = match parsed_usize(v.goto_input) {
                Some(p) => if total > 0 {
                    AppView {
                        current_line: percent_line(p as nat, total) as usize,
                        sub_offset: 0,
                        ..v
                    }
                } else {
                    v
                },
                None => v,
            };
            AppView { input_mode: InputMode::Normal, ..moved }
        },
        Key::Esc => AppView { input_mode: InputMode::Normal, ..v },
        _ => v,
    }
}

/// Whether the handler of the current input mode can take `key`.
pub open spec fn key_allowed(v: AppView, key: KeyInput) -> bool {
    match v.input_mode {
        InputMode::Normal => normal_key_allowed(v, key),
        InputMode::Search => search_key_allowed(v, key),
        InputMode::ChapterList => cursor_can_move(key, v.chapter_cursor),
        InputMode::GotoPercent => goto_key_allowed(v, key),
        InputMode::FavoriteList => cursor_can_move(key, v.favorite_cursor),
    }
}

/// Whether `event` can be handled.
pub open spec fn event_allowed(v: AppView, event: AppEvent) -> bool {
    match event {
        AppEvent::Key(k) => !v.hidden ==> key_allowed(v, k),
        _ => true,
    }
}

/// What an event does: a key press first brings a hidden reader back,
/// else goes to the handler of the current input mode; a resize sets the
/// width and goes back to the first row of the line.
pub open spec fn event_view(v: AppView, event: AppEvent, comment_suffix_width: nat, now: u64) -> AppView {
    match event {
        AppEvent::Key(k) => if v.hidden {
            AppView { hidden: false, ..v }
        } else {
            match v.input_mode {
                InputMode::Normal => normal_key_view(v, k, content_width(v, comment_suffix_width), now),
                InputMode::Search => search_key_view(v, k, now),
                InputMode::ChapterList => chapter_key_view(v, k),
                InputMode::GotoPercent => goto_key_view(v, k),
                InputMode::FavoriteList => favorite_key_view(v, k),
            }
        },
        AppEvent::Resize(w, _) => AppView { terminal_width: w, sub_offset: 0, ..v },
        AppEvent::Other => v,
    }
}

/// No event changes the book, the saved reading positions, the number of
/// display lines or the template: handling keys and resizes only moves
/// through the book, marks lines and changes what is shown.
pub proof fn lemma_events_keep_the_book(
    v: AppView,
    event: AppEvent,
    comment_suffix_width: nat,
    now: u64,
)
    ensures
        ({
            let w = event_view(v, event, comment_suffix_width, now);
            &&& w.book == v.book
            &&& w.entries == v.entries
            &&& w.display_lines == v.display_lines
            &&& w.custom_template == v.custom_template
        }),
{
}

/// Moves a list cursor as `list_key_view` says, and says whether the key
/// was Enter, and whether the list closes.
fn list_cursor_step(key: KeyInput, cursor: usize, len: usize, close: char) -> (r: (usize, bool, bool))
    requires
        cursor_can_move(key, cursor),
    ensures
        ({
            let (nc, enter, closes) = r;
            &&& is_down(key.code) && cursor + 1 < len ==> nc == cursor + 1 && !enter && !closes
            &&& !(is_down(key.code) && cursor + 1 < len) && is_up(key.code) && cursor > 0 ==> nc == cursor - 1 && !enter && !closes
            &&& !(is_down(key.code) && cursor + 1 < len) && !(is_up(key.code) && cursor > 0) ==> {
                &&& nc == cursor
                &&& enter == (key.code == Key::Enter)
                &&& closes == (key.code == Key::Esc || key.code == Key::Char('q') || key.code == Key::Char(close))
            }
        }),
{
    let down = match key.code {
        Key::Char(c) => c == 'j',
        Key::Down => true,
        _ => false,
    };
    let up = match key.code {
        Key::Char(c) => c == 'k',
        Key::Up => true,
        _ => false,
    };
    if down && cursor + 1 < len {
        (cursor + 1, false, false)
    } else if up && cursor > 0 {
        (cursor - 1, false, false)
    } else {
        let enter = match key.code {
            Key::Enter => true,
            _ => false,
        };
        let closes = match key.code {
            Key::Esc => true,
            Key::Char(c) => c == 'q' || c == close,
            _ => false,
        };
        (cursor, enter, closes)
    }
}

/// A product `a * b` stays within `m` exactly when `b` is at most `m / a`.
proof fn lemma_fits_below_quotient(a: int, b: int, m: int)
    requires
        a > 0,
        b >= 0,
        m >= 0,
    ensures
        (a * b <= m) == (b <= m / a),
{
    assert((a * b <= m) == (b <= m / a)) by (nonlinear_arith)
        requires
            a > 0,
            b >= 0,
            m >= 0,
    ;
}

impl App {
    /// Handles a key while typing a query.
    pub fn handle_search_key(&mut self, key: KeyInput, now: u64)
        requires
            search_key_allowed(old(self)@, key),
        ensures
            final(self)@ == search_key_view(old(self)@, key, now),
    {
        match key.code {
            Key::Char(c) => {
                self.search_input.push(c);
            },
            Key::Backspace => {
                self.search_input.pop();
            },
            Key::Enter => {
                if !self.search_input.as_str().is_empty() {
                    self.last_search = self.search_input.clone();
                    let found = self.book.search_forward(self.current_line, self.search_input.as_str());
                    let q = self.search_input.clone();
                    self.apply_search(found, &q, now);
                }
                self.input_mode = InputMode::Normal;
            },
            Key::Esc => {
                self.input_mode = InputMode::Normal;
            },
            _ => {},
        }
    }

    /// Handles a key in the chapter list.
    pub fn handle_chapter_key(&mut self, key: KeyInput)
        requires
            cursor_can_move(key, old(self).chapter_cursor),
        ensures
            final(self)@ == chapter_key_view(old(self)@, key),
    {
        let (cursor, enter, closes) = list_cursor_step(key, self.chapter_cursor, self.book.chapters.len(), 'g');
        self.chapter_cursor = cursor;
        if enter {
            if cursor < self.book.chapters.len() {
                self.current_line = self.book.chapters[cursor].line_index;
                self.sub_offset = 0;
            }
            self.input_mode = InputMode::Normal;
        } else if closes {
            self.input_mode = InputMode::Normal;
        }
    }

    /// Handles a key in the list of favourite lines.
    pub fn handle_favorite_key(&mut self, key: KeyInput)
        requires
            cursor_can_move(key, old(self).favorite_cursor),
        ensures
            final(self)@ == favorite_key_view(old(self)@, key),
    {
        let favs = self.bookmarks.favorites(self.book.file_path.as_str());
        let (cursor, enter, closes) = list_cursor_step(key, self.favorite_cursor, favs.len(), 'M');
        self.favorite_cursor = cursor;
        if enter {
            if cursor < favs.len() {
                self.current_line = favs[cursor];
                self.sub_offset = 0;
            }
            self.input_mode = InputMode::Normal;
        } else if closes {
            self.input_mode = InputMode::Normal;
        }
    }

    /// Handles a key while typing a percentage to jump to.
    pub fn handle_goto_key(&mut self, key: KeyInput)
        requires
            goto_key_allowed(old(self)@, key),
        ensures
            final(self)@ == goto_key_view(old(self)@, key),
    {
        match key.code {
            Key::Char(c) => {
                if '0' <= c && c <= '9' {
                    self.goto_input.push(c);
                }
            },
            Key::Backspace => {
                self.goto_input.pop();
            },
            Key::Enter => {
                match parse_usize(self.goto_input.as_str()) {
                    Some(percent) => {
                        let pct = if percent > 100 {
                            100
                        } else {
                            percent
                        };
                        let total = self.book.lines.len();
                        if total > 0 {
                            let target = pct * total / 100;
                            self.current_line = if target <= total - 1 {
                                target
                            } else {
                                total - 1
                            };
                            self.sub_offset = 0;
                        }
                    },
                    None => {},
                }
                self.input_mode = InputMode::Normal;
            },
            Key::Esc => {
                self.input_mode = InputMode::Normal;
            },
            _ => {},
        }
    }

    /// Handles one event from the terminal; `comment_suffix_width` is the
    /// width of the comment disguise's progress suffix.
    pub fn handle_event(&mut self, event: AppEvent, comment_suffix_width: usize, now: u64)
        requires
            event_allowed(old(self)@, event),
        ensures
            final(self)@ == event_view(old(self)@, event, comment_suffix_width as nat, now),
    {
        match event {
            AppEvent::Key(k) => {
                if self.hidden {
                    self.hidden = false;
                } else {
                    match self.input_mode {
                        InputMode::Normal => self.handle_normal_key(k, comment_suffix_width, now),
                        InputMode::Search => self.handle_search_key(k, now),
                        InputMode::ChapterList => self.handle_chapter_key(k),
                        InputMode::GotoPercent => self.handle_goto_key(k),
                        InputMode::FavoriteList => self.handle_favorite_key(k),
                    }
                }
            },
            AppEvent::Resize(w, _) => {
                self.terminal_width = w;
                self.sub_offset = 0;
            },
            AppEvent::Other => {},
        }
    }

    /// Whether the reader is to stop: quit or the boss key.
    pub fn should_exit(&self) -> (r: bool)
        ensures
            r == (self.should_quit || self.boss_key),
    {
        self.should_quit || self.boss_key
    }

    /// Whether searching from the current line can be done.
    fn can_search(&self) -> (r: bool)
        ensures
            r == searchable(self@),
    {
        self.book.lines.len() <= self.book.lowercase_lines.len() && self.current_line
            <= usize::MAX - self.book.lines.len()
    }

    /// Whether moving `n` rows up stays on lines of the book.
    fn can_go_back(&self, n: usize) -> (r: bool)
        ensures
            r == can_move_back(
                self.book.lines.deep_view(),
                (self.current_line as nat, self.sub_offset as nat),
                n as nat,
            ),
    {
        proof {
            assert(self.book.lines.deep_view().len() == self.book.lines@.len());
        }
        n <= self.sub_offset || self.current_line <= self.book.lines.len()
    }

    /// Whether `handle_normal_key` can take `key` in the current state.
    fn accepts_normal_key(&self, key: KeyInput) -> (r: bool)
        ensures
            r == normal_key_allowed(self@, key),
    {
        match key.code {
            Key::Char(c) => {
                if c == 'k' {
                    self.can_go_back(1)
                } else if c == 'b' {
                    self.can_go_back(self.display_lines)
                } else if (c == 'n' || c == 'N') && !self.last_search.as_str().is_empty() {
                    self.can_search()
                } else {
                    true
                }
            },
            Key::Up => self.can_go_back(1),
            Key::PageUp => self.can_go_back(self.display_lines),
            _ => true,
        }
    }

    /// Whether `handle_event` can take `event` in the current state.
    pub fn accepts(&self, event: AppEvent) -> (r: bool)
        ensures
            r == event_allowed(self@, event),
    {
        match event {
            AppEvent::Key(k) => self.hidden || self.accepts_key(k),
            _ => true,
        }
    }

    /// Whether the handler of the current input mode can take `key`.
    fn accepts_key(&self, key: KeyInput) -> (r: bool)
        ensures
            r == key_allowed(self@, key),
    {
        let down = match key.code {
            Key::Char(c) => c == 'j',
            Key::Down => true,
            _ => false,
        };
        let enter = match key.code {
            Key::Enter => true,
            _ => false,
        };
        match self.input_mode {
            InputMode::Normal => self.accepts_normal_key(key),
            InputMode::Search => !(enter && !self.search_input.as_str().is_empty())
                || self.can_search(),
            InputMode::ChapterList => !down || self.chapter_cursor < usize::MAX,
            InputMode::FavoriteList => !down || self.favorite_cursor < usize::MAX,
            InputMode::GotoPercent => self.accepts_goto_key(enter),
        }
    }

    /// Whether `handle_goto_key` can take a key that is Enter when `enter`.
    fn accepts_goto_key(&self, enter: bool) -> (r: bool)
        ensures
            r == (enter ==> match parsed_usize(self@.goto_input) {
                Some(p) => (if p > 100 {
                    100
                } else {
                    p as int
                }) * self@.book.lines@.len() <= usize::MAX,
                None => true,
            }),
    {
        if !enter {
            true
        } else {
            match parse_usize(self.goto_input.as_str()) {
                Some(p) => {
                    let pct: usize = if p > 100 {
                        100
                    } else {
                        p
                    };
                    let total = self.book.lines.len();
                    if pct == 0 {
                        true
                    } else {
                        let limit = usize::MAX / pct;
                        proof {
                            lemma_fits_below_quotient(pct as int, total as int, usize::MAX as int);
                        }
                        total <= limit
                    }
                },
                None => true,
            }
        }
    }
}

// ---------------------------------------------------------------------
// Laws of the keys
// ---------------------------------------------------------------------

/// Whether some line of `b` holds `q` regardless of case.
pub open spec fn holds_anywhere(b: Book, q: Seq<char>) -> bool {
    exists|i: int| 0 <= i < b.lines@.len() && #[trigger] b.matches_at(i, q)
}

/// Whether `line` is the first line after `from`, going forward through
/// `b` and wrapping round at its end (`from` itself tried last), that
/// holds `q` regardless of case.
pub open spec fn first_forward_match(b: Book, from: int, q: Seq<char>, line: int) -> bool {
    let len = b.lines@.len() as int;
    exists|k: int|
        1 <= k <= len && line == #[trigger] crate::reader::forward_line(from, k, len) && b.matches_at(
            line,
            q,
        ) && forall|j: int|
            1 <= j < k ==> !#[trigger] b.matches_at(crate::reader::forward_line(from, j, len), q)
}

/// Whether `line` is the first line before `from`, going backward
/// through `b` and wrapping round at its beginning (`from` itself tried
/// last), that holds `q` regardless of case.
pub open spec fn first_backward_match(b: Book, from: int, q: Seq<char>, line: int) -> bool {
    let len = b.lines@.len() as int;
    exists|k: int|
        1 <= k <= len && line == #[trigger] crate::reader::backward_line(from, k, len)
            && b.matches_at(line, q) && forall|j: int|
            1 <= j < k ==> !#[trigger] b.matches_at(crate::reader::backward_line(from, j, len), q)
}

/// Enter on a query goes to the first line after the current one
/// (wrapping round) that holds the query regardless of case, at its
/// first row, picking the query out; when no line holds it, the reader
/// stays where it was. Either way the query is remembered and reading
/// resumes.
pub proof fn lemma_search_goes_to_next_match(v: AppView, key: KeyInput, now: u64)
    requires
        key.code == Key::Enter,
        v.search_input.len() > 0,
        searchable(v),
    ensures
        ({
            let w = search_key_view(v, key, now);
            let q = v.search_input;
            &&& w.input_mode == InputMode::Normal
            &&& w.last_search == q
            &&& holds_anywhere(v.book, q) ==> first_forward_match(v.book, v.current_line as int, q, w.current_line as int)
                && w.sub_offset == 0 && w.search_highlight == Some(q)
            &&& !holds_anywhere(v.book, q) ==> w.current_line == v.current_line && w.sub_offset == v.sub_offset
        }),
{
    lemma_next_match_found(v.book, v.current_line as int, v.search_input);
}

/// `n` goes to the first line after the current one (wrapping round)
/// that holds the last query regardless of case, and `N` to the first
/// line before it (wrapping round); when no line holds the query, the
/// reader stays where it was.
pub proof fn lemma_repeat_search_keys(v: AppView, next: KeyInput, prev: KeyInput, cw: nat, now: u64)
    requires
        next.code == Key::Char('n'),
        prev.code == Key::Char('N'),
        v.last_search.len() > 0,
        searchable(v),
    ensures
        ({
            let w = normal_key_view(v, next, cw, now);
            let q = v.last_search;
            &&& holds_anywhere(v.book, q) ==> first_forward_match(v.book, v.current_line as int, q, w.current_line as int)
                && w.sub_offset == 0 && w.search_highlight == Some(q)
            &&& !holds_anywhere(v.book, q) ==> w.current_line == v.current_line && w.sub_offset == v.sub_offset
        }),
        ({
            let w = normal_key_view(v, prev, cw, now);
            let q = v.last_search;
            &&& holds_anywhere(v.book, q) ==> first_backward_match(v.book, v.current_line as int, q, w.current_line as int)
                && w.sub_offset == 0 && w.search_highlight == Some(q)
            &&& !holds_anywhere(v.book, q) ==> w.current_line == v.current_line && w.sub_offset == v.sub_offset
        }),
{
    lemma_next_match_found(v.book, v.current_line as int, v.last_search);
    lemma_previous_match_found(v.book, v.current_line as int, v.last_search);
}

proof fn lemma_next_match_found(b: Book, from: int, q: Seq<char>)
    requires
        0 <= from,
        b.lines@.len() <= usize::MAX,
    ensures
        holds_anywhere(b, q) <==> b.scan_forward(from, q, 1) is Some,
        b.scan_forward(from, q, 1) matches Some(i) ==> first_forward_match(b, from, q, i as int),
{
    b.lemma_scan_forward_first(from, q, 1);
    b.lemma_search_directions_agree(from, q);
}

proof fn lemma_previous_match_found(b: Book, from: int, q: Seq<char>)
    requires
        0 <= from,
        b.lines@.len() <= usize::MAX,
    ensures
        holds_anywhere(b, q) <==> b.scan_backward(from, q, 1) is Some,
        b.scan_backward(from, q, 1) matches Some(i) ==> first_backward_match(b, from, q, i as int),
{
    b.lemma_scan_backward_first(from, q, 1);
    b.lemma_search_directions_agree(from, q);
}

/// The row keys while reading: the up arrow does what `k` does, moving
/// one row up; the down arrow and Enter do what `j` does, moving one row
/// down.
pub proof fn lemma_row_keys_agree(
    v: AppView,
    up: KeyInput,
    k: KeyInput,
    down: KeyInput,
    enter: KeyInput,
    j: KeyInput,
    cw: nat,
    now: u64,
)
    requires
        up.code == Key::Up,
        k.code == Key::Char('k'),
        down.code == Key::Down,
        enter.code == Key::Enter,
        j.code == Key::Char('j'),
    ensures
        normal_key_view(v, up, cw, now) == normal_key_view(v, k, cw, now),
        normal_key_view(v, down, cw, now) == normal_key_view(v, j, cw, now),
        normal_key_view(v, enter, cw, now) == normal_key_view(v, j, cw, now),
        ({
            let p = back_n(v.book.lines.deep_view(), position(v), 1, cw);
            normal_key_view(v, up, cw, now) == at_position(v, p)
        }),
        ({
            let p = forward_n(v.book.lines.deep_view(), position(v), 1, cw);
            normal_key_view(v, down, cw, now) == at_position(v, p)
        }),
{
}

/// The page keys while reading: PageUp does what `b` does, moving back
/// as many rows as the screen shows; PageDown does what Space does,
/// moving forward as many.
pub proof fn lemma_page_keys_agree(
    v: AppView,
    page_up: KeyInput,
    b: KeyInput,
    page_down: KeyInput,
    space: KeyInput,
    cw: nat,
    now: u64,
)
    requires
        page_up.code == Key::PageUp,
        b.code == Key::Char('b'),
        page_down.code == Key::PageDown,
        space.code == Key::Char(' '),
    ensures
        normal_key_view(v, page_up, cw, now) == normal_key_view(v, b, cw, now),
        normal_key_view(v, page_down, cw, now) == normal_key_view(v, space, cw, now),
        ({
            let p = back_n(v.book.lines.deep_view(), position(v), v.display_lines as nat, cw);
            normal_key_view(v, page_up, cw, now) == at_position(v, p)
        }),
        ({
            let p = forward_n(v.book.lines.deep_view(), position(v), v.display_lines as nat, cw);
            normal_key_view(v, page_down, cw, now) == at_position(v, p)
        }),
{
}

/// Home goes to the first row of the book's first line, and End to the
/// first row of its last line (of line zero when the book is empty);
/// nothing else changes.
pub proof fn lemma_home_end_keys(v: AppView, home: KeyInput, end: KeyInput, cw: nat, now: u64)
    requires
        home.code == Key::Home,
        end.code == Key::End,
    ensures
        normal_key_view(v, home, cw, now) == at_position(v, (0, 0)),
        v.book.lines@.len() > 0 ==> normal_key_view(v, end, cw, now) == at_position(
            v,
            ((v.book.lines@.len() - 1) as nat, 0),
        ),
        v.book.lines@.len() == 0 ==> normal_key_view(v, end, cw, now) == at_position(v, (0, 0)),
{
}

/// Enter in a list jumps to the entry under the cursor, at its first
/// row, and closes the list: in the chapter list to the line of the
/// chapter under the cursor, in the list of favourites to the favourite
/// line under the cursor.
pub proof fn lemma_list_enter_jumps_to_entry(v: AppView, key: KeyInput)
    requires
        key.code == Key::Enter,
    ensures
        v.chapter_cursor < v.book.chapters@.len() ==> chapter_key_view(v, key) == (AppView {
            current_line: v.book.chapters@[v.chapter_cursor as int].line_index,
            sub_offset: 0,
            input_mode: InputMode::Normal,
            ..v
        }),
        ({
            let favs = favorites_of(v.favorites, v.book.file_path@);
            v.favorite_cursor < favs.len() ==> favorite_key_view(v, key) == (AppView {
                current_line: favs[v.favorite_cursor as int],
                sub_offset: 0,
                input_mode: InputMode::Normal,
                ..v
            })
        }),
{
}

/// In a list the up arrow does what `k` does and the down arrow what `j`
/// does: up moves the cursor to the entry before (staying on the first),
/// down to the entry after (staying on the last), and nothing else
/// changes.
pub proof fn lemma_list_arrows_move_the_cursor(v: AppView, up: KeyInput, down: KeyInput)
    requires
        up.code == Key::Up || up.code == Key::Char('k'),
        down.code == Key::Down || down.code == Key::Char('j'),
    ensures
        chapter_key_view(v, up) == (AppView {
            chapter_cursor: if v.chapter_cursor > 0 {
                (v.chapter_cursor - 1) as usize
            } else {
                v.chapter_cursor
            },
            ..v
        }),
        favorite_key_view(v, up) == (AppView {
            favorite_cursor: if v.favorite_cursor > 0 {
                (v.favorite_cursor - 1) as usize
            } else {
                v.favorite_cursor
            },
            ..v
        }),
        chapter_key_view(v, down) == (AppView {
            chapter_cursor: if v.chapter_cursor + 1 < v.book.chapters@.len() {
                (v.chapter_cursor + 1) as usize
            } else {
                v.chapter_cursor
            },
            ..v
        }),
        favorite_key_view(v, down) == (AppView {
            favorite_cursor: if v.favorite_cursor + 1 < favorites_of(
                v.favorites,
                v.book.file_path@,
            ).len() {
                (v.favorite_cursor + 1) as usize
            } else {
                v.favorite_cursor
            },
            ..v
        }),
{
}

} // verus!
