use tread::app::{App, AppEvent, InputMode, Key, KeyInput};
use tread::bookmark::{BookmarkEntry, Bookmarks};
use tread::config::DisplayMode;
use tread::reader::Book;

fn book(text: &str) -> Book {
    Book::from_text(text, "/books/novel.txt".to_string()).unwrap()
}

fn key(code: Key) -> AppEvent {
    AppEvent::Key(KeyInput { code, ctrl: false })
}

fn ch(c: char) -> AppEvent {
    key(Key::Char(c))
}

fn send(app: &mut App, event: AppEvent) {
    assert!(app.accepts(event));
    app.handle_event(event, 15, 1_000_000);
}

fn type_text(app: &mut App, text: &str) {
    for c in text.chars() {
        send(app, ch(c));
    }
}

fn reader(text: &str) -> App {
    App::new(book(text), DisplayMode::Log, 1, Bookmarks::new())
}

#[test]
fn new_starts_at_the_beginning_without_a_bookmark() {
    let app = App::new(book("a\nb"), DisplayMode::Comment, 7, Bookmarks::new());
    assert_eq!((app.current_line, app.sub_offset), (0, 0));
    assert_eq!(app.mode, DisplayMode::Comment);
    assert_eq!(app.display_lines, 3);
    assert_eq!(app.terminal_width, 80);
    assert_eq!(app.input_mode, InputMode::Normal);
    let app = App::new(book("a"), DisplayMode::Log, 0, Bookmarks::new());
    assert_eq!(app.display_lines, 1);
}

#[test]
fn new_resumes_from_the_bookmark_and_clamps_the_line() {
    let mut bm = Bookmarks::new();
    bm.set_at(
        "/books/novel.txt",
        BookmarkEntry { line_index: 40, sub_offset: 2, mode: DisplayMode::GitLog, last_accessed: None },
        5,
    );
    let app = App::new(book("a\nb\nc"), DisplayMode::Log, 2, bm);
    assert_eq!((app.current_line, app.sub_offset), (2, 2));
    assert_eq!(app.mode, DisplayMode::GitLog);
}

#[test]
fn j_and_k_move_by_rows_of_the_text_column() {
    let mut app = reader(&format!("{}\nshort", "x".repeat(100)));
    app.terminal_width = 60; // Log mode leaves 31 columns
    assert_eq!(app.estimate_content_width(15), 31);
    send(&mut app, ch('j'));
    assert_eq!((app.current_line, app.sub_offset), (0, 1));
    for _ in 0..3 {
        send(&mut app, ch('j'));
    }
    assert_eq!((app.current_line, app.sub_offset), (1, 0));
    send(&mut app, ch('j'));
    assert_eq!((app.current_line, app.sub_offset), (1, 0));
    send(&mut app, ch('k'));
    assert_eq!((app.current_line, app.sub_offset), (0, 3));
    send(&mut app, key(Key::Home));
    assert_eq!((app.current_line, app.sub_offset), (0, 0));
    send(&mut app, key(Key::Up));
    assert_eq!((app.current_line, app.sub_offset), (0, 0));
    send(&mut app, key(Key::End));
    assert_eq!((app.current_line, app.sub_offset), (1, 0));
}

#[test]
fn a_row_down_and_back_up_returns_to_the_same_row() {
    let mut app = reader(&format!("{}\nb\n{}", "y".repeat(70), "z".repeat(70)));
    for _ in 0..4 {
        let before = (app.current_line, app.sub_offset);
        send(&mut app, ch('j'));
        let moved = (app.current_line, app.sub_offset);
        send(&mut app, ch('k'));
        assert_eq!((app.current_line, app.sub_offset), before);
        send(&mut app, ch('j'));
        assert_eq!((app.current_line, app.sub_offset), moved);
    }
}

#[test]
fn space_and_b_page_by_the_number_of_display_lines() {
    let mut app = App::new(book("1\n2\n3\n4\n5\n6"), DisplayMode::Log, 2, Bookmarks::new());
    send(&mut app, ch(' '));
    send(&mut app, key(Key::PageDown));
    assert_eq!(app.current_line, 4);
    send(&mut app, ch('b'));
    assert_eq!(app.current_line, 2);
}

#[test]
fn t_cycles_the_disguise() {
    let mut app = reader("a");
    let mut seen = vec![app.mode];
    for _ in 0..3 {
        send(&mut app, ch('t'));
        seen.push(app.mode);
    }
    assert_eq!(
        seen,
        vec![DisplayMode::Log, DisplayMode::Minimal, DisplayMode::Comment, DisplayMode::Log]
    );
}

#[test]
fn search_moves_to_the_match_and_n_finds_the_next() {
    let mut app = reader("alpha\nbeta\nAlphabet\ngamma");
    send(&mut app, ch('/'));
    assert_eq!(app.input_mode, InputMode::Search);
    type_text(&mut app, "ALPHx");
    send(&mut app, key(Key::Backspace));
    assert_eq!(app.search_input, "ALPH");
    send(&mut app, key(Key::Enter));
    assert_eq!(app.input_mode, InputMode::Normal);
    assert_eq!(app.current_line, 2);
    assert_eq!(app.last_search, "ALPH");
    assert_eq!(app.search_highlight.as_deref(), Some("ALPH"));
    send(&mut app, ch('n'));
    assert_eq!(app.current_line, 0);
    send(&mut app, ch('N'));
    assert_eq!(app.current_line, 2);
}

#[test]
fn a_failed_search_shows_a_status_message() {
    let mut app = reader("alpha\nbeta");
    send(&mut app, ch('/'));
    type_text(&mut app, "zeta");
    send(&mut app, key(Key::Enter));
    assert_eq!(app.current_line, 0);
    assert_eq!(app.status_message.as_deref(), Some("未找到: zeta"));
}

#[test]
fn esc_leaves_search_without_searching() {
    let mut app = reader("alpha\nbeta");
    send(&mut app, ch('/'));
    type_text(&mut app, "beta");
    send(&mut app, key(Key::Esc));
    assert_eq!(app.input_mode, InputMode::Normal);
    assert_eq!(app.current_line, 0);
    assert_eq!(app.last_search, "");
}

#[test]
fn goto_jumps_to_a_percentage() {
    let mut app = reader("0\n1\n2\n3\n4\n5\n6\n7\n8\n9");
    send(&mut app, ch('p'));
    assert_eq!(app.input_mode, InputMode::GotoPercent);
    type_text(&mut app, "5x0");
    assert_eq!(app.goto_input, "50");
    send(&mut app, key(Key::Enter));
    assert_eq!(app.current_line, 5);
    send(&mut app, ch(':'));
    type_text(&mut app, "250");
    send(&mut app, key(Key::Enter));
    assert_eq!(app.current_line, 9);
    send(&mut app, ch(':'));
    send(&mut app, key(Key::Enter));
    assert_eq!(app.current_line, 9);
    assert_eq!(app.input_mode, InputMode::Normal);
}

#[test]
fn the_chapter_list_opens_at_the_current_chapter_and_jumps() {
    let mut app = reader("第一章 甲\n内容一\n第二章 乙\n内容二\n第三章 丙");
    send(&mut app, key(Key::End));
    send(&mut app, ch('k'));
    assert_eq!(app.current_line, 3);
    assert_eq!(app.current_chapter_number(), 2);
    send(&mut app, ch('g'));
    assert_eq!(app.input_mode, InputMode::ChapterList);
    assert_eq!(app.chapter_cursor, 1);
    send(&mut app, key(Key::Down));
    send(&mut app, ch('j'));
    assert_eq!(app.chapter_cursor, 2);
    send(&mut app, ch('k'));
    send(&mut app, key(Key::Enter));
    assert_eq!(app.input_mode, InputMode::Normal);
    assert_eq!(app.current_line, 2);
}

#[test]
fn without_chapters_g_says_so() {
    let mut app = reader("just text");
    send(&mut app, ch('g'));
    assert_eq!(app.input_mode, InputMode::Normal);
    assert_eq!(app.status_message.as_deref(), Some("无章节"));
}

#[test]
fn m_toggles_a_favourite_and_shift_m_lists_them() {
    let mut app = reader("a\nb\nc");
    send(&mut app, ch('M'));
    assert_eq!(app.status_message.as_deref(), Some("无收藏"));
    send(&mut app, ch('m'));
    assert_eq!(app.status_message.as_deref(), Some("已收藏"));
    send(&mut app, ch('j'));
    send(&mut app, ch('j'));
    send(&mut app, ch('m'));
    assert_eq!(app.bookmarks.favorites("/books/novel.txt"), vec![0, 2]);
    send(&mut app, ch('M'));
    assert_eq!(app.input_mode, InputMode::FavoriteList);
    assert_eq!(app.favorite_cursor, 1);
    send(&mut app, ch('k'));
    send(&mut app, key(Key::Enter));
    assert_eq!(app.current_line, 0);
    send(&mut app, ch('m'));
    assert_eq!(app.status_message.as_deref(), Some("已取消收藏"));
    assert_eq!(app.bookmarks.favorites("/books/novel.txt"), vec![2]);
}

#[test]
fn lists_close_with_their_key() {
    let mut app = reader("第一章\n第二章");
    send(&mut app, ch('g'));
    send(&mut app, ch('g'));
    assert_eq!(app.input_mode, InputMode::Normal);
    send(&mut app, ch('m'));
    send(&mut app, ch('M'));
    send(&mut app, ch('q'));
    assert_eq!(app.input_mode, InputMode::Normal);
    assert!(!app.should_exit());
}

#[test]
fn h_hides_until_the_next_key() {
    let mut app = reader("a\nb");
    send(&mut app, ch('h'));
    assert!(app.hidden);
    send(&mut app, ch('j'));
    assert!(!app.hidden);
    assert_eq!(app.current_line, 0);
}

#[test]
fn quitting_and_the_boss_key_end_the_reader() {
    let mut app = reader("a");
    send(&mut app, ch('q'));
    assert!(app.should_quit && app.should_exit());
    let mut app = reader("a");
    send(&mut app, AppEvent::Key(KeyInput { code: Key::Char('c'), ctrl: true }));
    assert!(app.should_exit());
    let mut app = reader("a");
    send(&mut app, key(Key::Esc));
    assert!(app.boss_key && app.should_exit());
}

#[test]
fn a_resize_sets_the_width_and_restarts_the_line() {
    let mut app = reader(&"w".repeat(200));
    send(&mut app, ch('j'));
    assert_eq!(app.sub_offset, 1);
    send(&mut app, AppEvent::Resize(120, 40));
    assert_eq!((app.terminal_width, app.sub_offset), (120, 0));
}

#[test]
fn record_bookmark_saves_position_and_mode() {
    let mut app = reader("a\nb\nc");
    send(&mut app, ch('j'));
    send(&mut app, ch('t'));
    app.record_bookmark();
    let e = app.bookmarks.get("/books/novel.txt").unwrap();
    assert_eq!((e.line_index, e.sub_offset, e.mode), (1, 0, DisplayMode::Minimal));
    assert!(e.last_accessed.is_some());
}

#[test]
fn status_messages_stay_until_their_time_is_up() {
    let mut app = reader("a");
    app.set_status("hello".to_string(), 60);
    app.clear_status_if_expired();
    assert_eq!(app.status_message.as_deref(), Some("hello"));
    app.set_status("gone".to_string(), 0);
    app.clear_status_if_expired();
    assert_eq!(app.status_message, None);
}

#[test]
fn content_width_depends_on_the_disguise() {
    let mut app = reader("a\nb");
    app.terminal_width = 100;
    assert_eq!(app.estimate_content_width(0), 71);
    app.mode = DisplayMode::GitLog;
    assert_eq!(app.estimate_content_width(0), 86);
    app.mode = DisplayMode::Minimal;
    // "[    0/    2]" is thirteen columns.
    assert_eq!(app.estimate_content_width(0), 87);
    app.mode = DisplayMode::Comment;
    assert_eq!(app.estimate_content_width(20), 77);
    app.custom_template = Some("[{time}] {text} <{level}>".to_string());
    assert_eq!(app.estimate_content_width(0), 100 - 9 - 10);
    app.terminal_width = 5;
    assert_eq!(app.estimate_content_width(0), 1);
}

#[test]
fn reopening_a_book_resumes_where_it_was_left() {
    let mut app = App::new(book("a\nb\nc\nd"), DisplayMode::Log, 1, Bookmarks::new());
    send(&mut app, ch('j'));
    send(&mut app, ch('j'));
    send(&mut app, ch('t'));
    app.record_bookmark();
    let again = App::new(book("a\nb\nc\nd"), DisplayMode::Pytest, 1, app.bookmarks);
    assert_eq!((again.current_line, again.sub_offset), (2, 0));
    assert_eq!(again.mode, DisplayMode::Minimal);
}

#[test]
fn status_messages_show_for_their_seconds() {
    let mut app = reader("a");
    app.set_status_at("hi".to_string(), 10_000, 2);
    assert_eq!(app.status_until, Some(12_000));
    app.clear_status_at(11_999);
    assert_eq!(app.status_message.as_deref(), Some("hi"));
    app.clear_status_at(12_000);
    assert_eq!(app.status_message, None);
    assert_eq!(app.status_until, None);
    app.set_status_at("long".to_string(), u64::MAX - 5, 2);
    assert_eq!(app.status_until, Some(u64::MAX));
}

#[test]
fn key_messages_last_two_seconds_and_other_keys_keep_the_deadline() {
    let mut app = reader("just text");
    send(&mut app, ch('g'));
    assert_eq!(app.status_until, Some(1_002_000));
    send(&mut app, ch('t'));
    send(&mut app, ch('j'));
    assert_eq!(app.status_until, Some(1_002_000));
    assert_eq!(app.status_message.as_deref(), Some("无章节"));
}

#[test]
fn record_bookmark_at_stamps_the_given_second() {
    let mut app = reader("a\nb");
    send(&mut app, ch('j'));
    app.record_bookmark_at(1_700_000_000);
    let e = app.bookmarks.get("/books/novel.txt").unwrap();
    assert_eq!((e.line_index, e.last_accessed), (1, Some(1_700_000_000)));
}
