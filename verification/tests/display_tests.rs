use tread::app::{App, AppEvent, InputMode, Key, KeyInput};
use tread::bookmark::Bookmarks;
use tread::config::DisplayMode;
use tread::display::{
    comment_pieces, docker_pieces, expand_template_text, favorite_entry_text, git_pieces,
    highlight_spans, highlight_with, kubectl_pieces, list_pieces, log_pieces, minimal_pieces,
    npm_pieces, pytest_pieces, template_pieces, Piece, Screen, Tint,
};
use tread::reader::Book;

fn texts(ps: &[Piece]) -> Vec<(String, Tint)> {
    ps.iter().map(|p| (p.text.clone(), p.tint)).collect()
}

fn plain(s: &str) -> Vec<Piece> {
    vec![Piece { text: s.to_string(), tint: Tint::Default }]
}

fn pair(s: &str, t: Tint) -> (String, Tint) {
    (s.to_string(), t)
}

fn open_reader(text: &str) -> App {
    App::new(
        Book::from_text(text, "/books/novel.txt".to_string()).unwrap(),
        DisplayMode::Log,
        1,
        Bookmarks::new(),
    )
}

#[test]
fn highlight_picks_out_every_hit_regardless_of_case() {
    let ps = highlight_spans("Rust and rust and RUST!", Some("rust")).unwrap();
    assert_eq!(
        texts(&ps),
        vec![
            pair("Rust", Tint::Yellow),
            pair(" and ", Tint::Default),
            pair("rust", Tint::Yellow),
            pair(" and ", Tint::Default),
            pair("RUST", Tint::Yellow),
            pair("!", Tint::Default),
        ]
    );
}

#[test]
fn highlight_without_a_query_is_the_plain_text() {
    assert_eq!(texts(&highlight_spans("abc", None).unwrap()), vec![pair("abc", Tint::Default)]);
    assert_eq!(texts(&highlight_spans("abc", Some("")).unwrap()), vec![pair("abc", Tint::Default)]);
    assert_eq!(texts(&highlight_spans("abc", Some("x")).unwrap()), vec![pair("abc", Tint::Default)]);
    assert_eq!(texts(&highlight_spans("", Some("x")).unwrap()), vec![pair("", Tint::Default)]);
}

#[test]
fn highlight_hits_do_not_overlap() {
    assert_eq!(
        texts(&highlight_with("aaaa", "aaaa", "aa").unwrap()),
        vec![pair("aa", Tint::Yellow), pair("aa", Tint::Yellow)]
    );
    assert_eq!(
        texts(&highlight_spans("中文中文", Some("文中")).unwrap()),
        vec![pair("中", Tint::Default), pair("文中", Tint::Yellow), pair("文", Tint::Default)]
    );
}

#[test]
fn highlight_refuses_a_hit_that_cannot_cut_the_text() {
    // 'Ⱥ' takes two bytes, its lower case 'ⱥ' three: the hit at byte 3 of
    // the lower-case copy lies past the end of the text.
    assert!(highlight_spans("Ⱥb", Some("b")).is_none());
    assert!(highlight_spans("Ⱥb", None).is_some());
    assert!(highlight_with("ab", "xab", "b").is_none());
}

#[test]
fn disguised_rows_refuse_a_row_a_hit_cannot_cut() {
    let mut app = open_reader("a");
    app.search_highlight = Some("b".to_string());
    assert!(app.disguised_rows(vec!["ok b".to_string(), "Ⱥb".to_string()], &[0, 0], "").is_none());
    assert!(app.disguised_rows(vec!["ok b".to_string()], &[0], "").is_some());
}

#[test]
fn highlight_cuts_the_text_at_the_lower_case_byte_offsets() {
    // The Kelvin sign takes three bytes, its lower case 'k' one: the hit
    // "c" at byte 3 of "kabcde" cuts out the 'a' of the text.
    assert_eq!(
        texts(&highlight_spans("\u{212A}abcdE", Some("C")).unwrap()),
        vec![pair("\u{212A}", Tint::Default), pair("a", Tint::Yellow), pair("bcdE", Tint::Default)]
    );
    assert_eq!(
        texts(&highlight_with("xy", "ab", "b").unwrap()),
        vec![pair("x", Tint::Default), pair("y", Tint::Yellow)]
    );
}

#[test]
fn log_rows_carry_a_stamp_and_a_padded_level() {
    let row = log_pieces("2026-01-02 03:04:05", 1, plain("text"));
    assert_eq!(
        texts(&row),
        vec![
            pair("[2026-01-02 03:04:05] ", Tint::DarkGray),
            pair("DEBUG ", Tint::Cyan),
            pair("text", Tint::Default),
        ]
    );
    let row = log_pieces("t", 0, plain("x"));
    assert_eq!(texts(&row)[1], pair("INFO  ", Tint::Green));
}

#[test]
fn docker_and_kubectl_rows() {
    let row = docker_pieces("t", 3, 3, plain("x"));
    assert_eq!(
        texts(&row),
        vec![
            pair("[t] ", Tint::DarkGray),
            pair("[worker] ", Tint::Magenta),
            pair("WARN  ", Tint::Yellow),
            pair("x", Tint::Default),
        ]
    );
    let row = kubectl_pieces("2026-01-02T03:04:05Z", 2, 0xab, plain("x"));
    assert_eq!(
        texts(&row),
        vec![
            pair("2026-01-02T03:04:05Z ", Tint::DarkGray),
            pair("TRACE ", Tint::Gray),
            pair("[pod-00ab] ", Tint::Magenta),
            pair("x", Tint::Default),
        ]
    );
}

#[test]
fn git_npm_and_pytest_rows() {
    assert_eq!(texts(&git_pieces(0x1f, plain("x")))[0], pair("000001f | ", Tint::DarkGray));
    assert_eq!(texts(&git_pieces(u32::MAX, plain("x")))[0], pair("ffffffff | ", Tint::DarkGray));
    assert_eq!(texts(&npm_pieces(0, plain("x")))[0], pair("npm info ", Tint::Green));
    assert_eq!(texts(&npm_pieces(6, plain("x")))[0], pair("npm ERR ", Tint::Red));
    assert_eq!(texts(&npm_pieces(7, plain("x")))[0], pair("npm ok ", Tint::Cyan));
    assert_eq!(
        texts(&pytest_pieces(7, false, plain("x"))),
        vec![
            pair("test_app.py::", Tint::DarkGray),
            pair("test_007 ", Tint::Default),
            pair("FAILED ", Tint::Red),
            pair("x", Tint::Default),
        ]
    );
}

#[test]
fn templates_fill_in_their_placeholders() {
    assert_eq!(
        expand_template_text("[{time}] {level} {module} {trace_id} {time}", "T", 0, 4, 0xbeef),
        "[T] INFO cache 0000beef T"
    );
    let row = template_pieces("<{level}> ", " ({module})", "T", 3, 1, 0, plain("x"));
    assert_eq!(
        texts(&row),
        vec![pair("<WARN> ", Tint::Default), pair("x", Tint::Default), pair(" (db)", Tint::Default)]
    );
}

#[test]
fn minimal_rows_end_with_the_counter() {
    let rows = minimal_pieces(vec![plain("a"), plain("b")], 3, 10);
    assert_eq!(texts(&rows[0]), vec![pair("a", Tint::Default)]);
    assert_eq!(
        texts(&rows[1]),
        vec![pair("b", Tint::Default), pair(" [3/10]", Tint::DarkGray)]
    );
    assert!(minimal_pieces(vec![], 0, 0).is_empty());
}

#[test]
fn comment_rows_fill_up_to_the_display_lines() {
    let rows = comment_pieces(vec![plain("a")], " [Ch.1 | 2.0%]", 3);
    assert_eq!(rows.len(), 3);
    assert_eq!(texts(&rows[0]), vec![pair("// ", Tint::DarkGray), pair("a", Tint::Default)]);
    assert_eq!(texts(&rows[1]), vec![pair("//", Tint::DarkGray)]);
    assert_eq!(
        texts(&rows[2]),
        vec![pair("//", Tint::DarkGray), pair(" [Ch.1 | 2.0%]", Tint::DarkGray)]
    );
    let rows = comment_pieces(vec![plain("a"), plain("b")], " S", 2);
    assert_eq!(
        texts(&rows[1]),
        vec![pair("// ", Tint::DarkGray), pair("b", Tint::Default), pair(" S", Tint::DarkGray)]
    );
}

#[test]
fn list_shows_a_window_around_the_cursor() {
    let items: Vec<String> = (0..10).map(|i| format!("item {}", i)).collect();
    let rows = list_pieces(&items, 5, 3);
    let firsts: Vec<String> = rows.iter().map(|r| r[1].text.clone()).collect();
    assert_eq!(firsts, vec!["item 4", "item 5", "item 6"]);
    assert_eq!(texts(&rows[1])[0], pair("> ", Tint::Yellow));
    assert_eq!(texts(&rows[0])[0], pair("  ", Tint::Default));
    let rows = list_pieces(&items, 9, 4);
    assert_eq!(rows[0][1].text, "item 6");
    assert_eq!(rows.len(), 4);
    let rows = list_pieces(&items[..2], 0, 5);
    assert_eq!(rows.len(), 2);
}

#[test]
fn favorite_entries_cut_long_lines_at_forty_bytes() {
    assert_eq!(favorite_entry_text(0, "短句").unwrap(), "第1行: 短句");
    let long = "x".repeat(50);
    assert_eq!(
        favorite_entry_text(41, &long).unwrap(),
        format!("第42行: {}...", "x".repeat(40))
    );
    // Forty bytes fall inside the fourteenth character of this line.
    assert!(favorite_entry_text(0, &"中".repeat(20)).is_none());
    let mixed = format!("a{}", "中".repeat(20));
    assert_eq!(
        favorite_entry_text(1, &mixed).unwrap(),
        format!("第2行: a{}...", "中".repeat(13))
    );
}

#[test]
fn the_screen_follows_the_input_mode() {
    let mut app = open_reader("第一章\n正文");
    assert_eq!(app.screen(), Screen::Text);
    app.handle_event(AppEvent::Key(KeyInput { code: Key::Char('g'), ctrl: false }), 0, 0);
    assert_eq!(app.screen(), Screen::Chapters);
    app.input_mode = InputMode::FavoriteList;
    assert_eq!(app.screen(), Screen::Favorites);
    app.hidden = true;
    assert_eq!(app.screen(), Screen::Blank);
}

#[test]
fn the_bottom_row_shows_what_is_typed() {
    let mut app = open_reader("a");
    assert!(app.bottom_pieces().is_none());
    app.input_mode = InputMode::Search;
    app.search_input = "abc".to_string();
    assert_eq!(
        texts(&app.bottom_pieces().unwrap()),
        vec![pair("/", Tint::Yellow), pair("abc", Tint::Default), pair("_", Tint::Yellow)]
    );
    app.input_mode = InputMode::GotoPercent;
    app.goto_input = "42".to_string();
    assert_eq!(texts(&app.bottom_pieces().unwrap())[0], pair(":", Tint::Yellow));
    app.input_mode = InputMode::Normal;
    app.set_status("note".to_string(), 5);
    assert_eq!(texts(&app.bottom_pieces().unwrap()), vec![pair("note", Tint::Yellow)]);
}

#[test]
fn chapter_and_favorite_items() {
    let mut app = open_reader("第一章 起\n内容\n第二章 承");
    assert_eq!(app.chapter_items(), vec!["第一章 起".to_string(), "第二章 承".to_string()]);
    app.bookmarks.toggle_favorite("/books/novel.txt", 1);
    app.bookmarks.toggle_favorite("/books/novel.txt", 7);
    assert_eq!(
        app.favorite_items().unwrap(),
        vec!["第2行: 内容".to_string(), "第8行: ".to_string()]
    );
}

#[test]
fn disguised_rows_follow_the_disguise() {
    let mut app = open_reader("alpha beta");
    app.search_highlight = Some("BETA".to_string());
    let rows = app.disguised_rows(vec!["alpha beta".to_string()], &[0], "").unwrap();
    assert_eq!(rows.len(), 1);
    let row = texts(&rows[0]);
    assert_eq!(row.len(), 4);
    assert!(row[0].0.starts_with('[') && row[0].0.ends_with("] "));
    assert_eq!(row[1], pair("INFO  ", Tint::Green));
    assert_eq!(row[2], pair("alpha ", Tint::Default));
    assert_eq!(row[3], pair("beta", Tint::Yellow));

    app.mode = DisplayMode::Minimal;
    let rows = app.disguised_rows(vec!["x".to_string()], &[0], "").unwrap();
    assert_eq!(texts(&rows[0]), vec![pair("x", Tint::Default), pair(" [0/1]", Tint::DarkGray)]);

    app.mode = DisplayMode::GitLog;
    let rows = app.disguised_rows(vec!["x".to_string(), "y".to_string()], &[0, 1], "").unwrap();
    assert_eq!(rows.len(), 2);
    assert!(rows[1][0].text.ends_with(" | "));
    let hash_len = rows[1][0].text.len() - 3;
    assert!(hash_len == 7 || hash_len == 8);

    app.mode = DisplayMode::Comment;
    app.display_lines = 2;
    let rows = app.disguised_rows(vec!["x".to_string()], &[0], " [Ch.0 | 0.0%]").unwrap();
    assert_eq!(rows.len(), 2);
    assert_eq!(texts(&rows[0]), vec![pair("// ", Tint::DarkGray), pair("x", Tint::Default)]);
    assert_eq!(
        texts(&rows[1]),
        vec![pair("//", Tint::DarkGray), pair(" [Ch.0 | 0.0%]", Tint::DarkGray)]
    );

    app.custom_template = Some("{level}: {text} #{trace_id}".to_string());
    let rows = app.disguised_rows(vec!["x".to_string()], &[0], "").unwrap();
    let row = texts(&rows[0]);
    assert_eq!(row.len(), 3);
    assert!(row[2].0.starts_with(" #") && row[2].0.len() == 10);
}

#[test]
fn render_width_per_disguise() {
    let mut app = open_reader("a\nb");
    app.terminal_width = 100;
    let expect = [
        (DisplayMode::Log, 71),
        (DisplayMode::GitLog, 86),
        (DisplayMode::NpmInstall, 91),
        (DisplayMode::Pytest, 69),
        (DisplayMode::DockerLogs, 62),
        (DisplayMode::KubectlLogs, 58),
        (DisplayMode::Minimal, 94),
    ];
    for (mode, width) in expect {
        app.mode = mode;
        assert_eq!(app.render_content_width(0), width);
    }
    app.mode = DisplayMode::Comment;
    assert_eq!(app.render_content_width(12), 85);
    app.custom_template = Some("中文{text}!".to_string());
    assert_eq!(app.render_content_width(0), 95);
    app.terminal_width = 10;
    app.custom_template = None;
    app.mode = DisplayMode::DockerLogs;
    assert_eq!(app.render_content_width(0), 1);
}

#[test]
fn log_rows_count_seconds_and_take_the_level_from_the_line() {
    let app = open_reader("a\nb\nc\nd\ne");
    let rows = app.disguised_rows_at(
        vec!["x".to_string(), "y".to_string(), "z".to_string()],
        &[1, 2, 7],
        "",
        0,
        &[3600, 3600, 3600],
    )
    .unwrap();
    let stamps: Vec<String> = rows.iter().map(|r| r[0].text.clone()).collect();
    assert_eq!(
        stamps,
        vec![
            "[1970-01-01 01:00:00] ",
            "[1970-01-01 01:00:01] ",
            "[1970-01-01 01:00:02] "
        ]
    );
    let levels: Vec<(String, Tint)> = rows.iter().map(|r| (r[1].text.clone(), r[1].tint)).collect();
    assert_eq!(
        levels,
        vec![pair("DEBUG ", Tint::Cyan), pair("TRACE ", Tint::Gray), pair("WARN  ", Tint::Yellow)]
    );
}

#[test]
fn kubectl_rows_use_the_iso_stamp() {
    let mut app = open_reader("a");
    app.mode = DisplayMode::KubectlLogs;
    let rows = app.disguised_rows_at(vec!["x".to_string()], &[0], "", 86_399, &[0]).unwrap();
    assert_eq!(rows[0][0].text, "1970-01-01T23:59:59Z ");
}

#[test]
fn row_lines_follow_the_rows() {
    let book = Book::from_text("abcdefgh\nxy\nz", "/b.txt".to_string()).unwrap();
    assert_eq!(book.display_row_lines(0, 1, 3, 4), vec![0, 1, 2]);
    assert_eq!(book.display_row_lines(0, 0, 2, 4), vec![0, 0]);
    let (rows, _, _) = book.get_display_lines(0, 0, 2, 4);
    assert_eq!(rows.len(), book.display_row_lines(0, 0, 2, 4).len());
    assert!(book.display_row_lines(3, 0, 2, 4).is_empty());
}
