use tread::reader::{parse_chapters, Book, Chapter, LoadError};

fn strings(lines: Vec<&str>) -> Vec<String> {
    lines.into_iter().map(|s| s.to_string()).collect()
}

fn make_book(lines: Vec<&str>) -> Book {
    let lines: Vec<String> = strings(lines);
    let lowercase_lines = lines.iter().map(|s| s.to_lowercase()).collect();
    Book {
        lines,
        lowercase_lines,
        chapters: vec![],
        file_path: "/tmp/test.txt".to_string(),
    }
}

#[test]
fn test_wrap_line_empty() {
    assert_eq!(Book::wrap_line("", 10), vec![String::new()]);
}

#[test]
fn test_wrap_line_ascii() {
    assert_eq!(
        Book::wrap_line("hello world", 5),
        vec!["hello".to_string(), " worl".to_string(), "d".to_string()]
    );
}

#[test]
fn test_wrap_line_chinese() {
    assert_eq!(
        Book::wrap_line("你好世界", 4),
        vec!["你好".to_string(), "世界".to_string()]
    );
}

#[test]
fn test_wrap_line_mixed() {
    assert_eq!(
        Book::wrap_line("ab中文", 4),
        vec!["ab中".to_string(), "文".to_string()]
    );
}

#[test]
fn test_wrap_line_exact_fit() {
    assert_eq!(Book::wrap_line("hello", 5), vec!["hello".to_string()]);
}

#[test]
fn wrap_line_gives_a_wide_character_a_row_of_its_own() {
    assert_eq!(
        Book::wrap_line("中a", 1),
        vec!["中".to_string(), "a".to_string()]
    );
}

#[test]
fn wrap_line_rows_join_back_into_the_line() {
    let line = "Rust 是一门系统编程语言, fast and safe.";
    let rows = Book::wrap_line(line, 7);
    assert_eq!(rows.concat(), line);
    assert!(rows.len() > 1);
}

#[test]
fn wrap_line_control_characters_take_no_columns() {
    assert_eq!(Book::wrap_line("ab\tcd", 4), vec!["ab\tcd".to_string()]);
}

#[test]
fn test_search_forward_basic() {
    let book = make_book(vec!["Hello world", "Rust is great", "Hello again"]);
    assert_eq!(book.search_forward(0, "rust"), Some(1));
    assert_eq!(book.search_forward(1, "hello"), Some(2));
}

#[test]
fn test_search_forward_wrap() {
    let book = make_book(vec!["first", "second", "third"]);
    assert_eq!(book.search_forward(2, "first"), Some(0));
}

#[test]
fn test_search_forward_no_match() {
    let book = make_book(vec!["alpha", "beta", "gamma"]);
    assert_eq!(book.search_forward(0, "zzz"), None);
}

#[test]
fn test_search_forward_empty_book() {
    let book = Book {
        lines: vec![],
        lowercase_lines: vec![],
        chapters: vec![],
        file_path: "/tmp/empty.txt".to_string(),
    };
    assert_eq!(book.search_forward(0, "x"), None);
}

#[test]
fn test_search_backward_basic() {
    let book = make_book(vec!["Hello world", "Rust is great", "Hello again"]);
    assert_eq!(book.search_backward(2, "rust"), Some(1));
    assert_eq!(book.search_backward(1, "hello"), Some(0));
}

#[test]
fn test_search_backward_wrap() {
    let book = make_book(vec!["first", "second", "third"]);
    assert_eq!(book.search_backward(0, "third"), Some(2));
}

#[test]
fn test_search_backward_no_match() {
    let book = make_book(vec!["alpha", "beta", "gamma"]);
    assert_eq!(book.search_backward(0, "zzz"), None);
}

#[test]
fn search_tries_the_start_line_last() {
    let book = make_book(vec!["needle", "hay", "hay"]);
    assert_eq!(book.search_forward(0, "NEEDLE"), Some(0));
    assert_eq!(book.search_backward(0, "Needle"), Some(0));
}

#[test]
fn search_directions_agree_on_finding_nothing() {
    let book = make_book(vec!["one", "two", "three"]);
    for start in 0..3 {
        assert_eq!(book.search_forward(start, "four"), None);
        assert_eq!(book.search_backward(start, "four"), None);
        assert!(book.search_forward(start, "T").is_some());
        assert!(book.search_backward(start, "T").is_some());
    }
}

#[test]
fn search_lowercases_the_query() {
    let book = make_book(vec!["Ärger", "ÄRGER"]);
    assert_eq!(book.search_forward(0, "äRGER"), Some(1));
}

#[test]
fn test_parse_chapters_chinese() {
    let lines = strings(vec!["第一章 入门", "这是正文内容", "第二章 进阶", "更多正文"]);
    let chapters = parse_chapters(&lines);
    assert_eq!(chapters.len(), 2);
    assert_eq!(chapters[0].title, "第一章 入门");
    assert_eq!(chapters[0].line_index, 0);
    assert_eq!(chapters[1].title, "第二章 进阶");
    assert_eq!(chapters[1].line_index, 2);
}

#[test]
fn test_parse_chapters_english() {
    let lines = strings(vec!["Chapter 1 - Intro", "Some text here", "chapter 2 - More"]);
    let chapters = parse_chapters(&lines);
    assert_eq!(chapters.len(), 2);
    assert_eq!(chapters[1].title, "chapter 2 - More");
}

#[test]
fn test_parse_chapters_skips_long_lines() {
    let long_line = "a".repeat(80);
    let lines = vec!["第一章", &long_line, "第二章"];
    let lines: Vec<String> = lines.into_iter().map(|s| s.to_string()).collect();
    let chapters = parse_chapters(&lines);
    assert_eq!(chapters.len(), 2);
}

#[test]
fn test_parse_chapters_width_filter() {
    let long_title = format!("{}{}", "第".repeat(20), "章 这是一个超长的章节标题");
    let lines = vec!["第一章 正常", &long_title, "第二章 正常"];
    let lines: Vec<String> = lines.into_iter().map(|s| s.to_string()).collect();
    let chapters = parse_chapters(&lines);
    assert_eq!(chapters.len(), 2);
    assert!(chapters.iter().all(|ch| ch.title != long_title));
}

#[test]
fn test_parse_chapters_volume() {
    let lines = strings(vec!["卷一 开篇", "一些内容", "篇二 续集"]);
    let chapters = parse_chapters(&lines);
    assert_eq!(chapters.len(), 2);
    assert_eq!(chapters[0].title, "卷一 开篇");
    assert_eq!(chapters[1].title, "篇二 续集");
}

#[test]
fn test_parse_chapters_special_titles() {
    let lines = strings(vec![
        "楔子",
        "一些内容",
        "序章 黑暗降临",
        "正文",
        "番外 另一个故事",
        "后记",
        "尾声",
    ]);
    let chapters = parse_chapters(&lines);
    let titles: Vec<&str> = chapters.iter().map(|c| c.title.as_str()).collect();
    assert_eq!(
        titles,
        vec!["楔子", "序章 黑暗降临", "正文", "番外 另一个故事", "后记", "尾声"]
    );
}

#[test]
fn parse_chapters_keeps_a_heading_of_exactly_sixty_columns() {
    let at_limit = format!("第一章{}", "x".repeat(54));
    let over_limit = format!("第二章{}", "x".repeat(55));
    let lines = vec![at_limit.clone(), over_limit];
    let chapters = parse_chapters(&lines);
    assert_eq!(chapters.len(), 1);
    assert_eq!(chapters[0].title, at_limit);
    assert_eq!(chapters[0].line_index, 0);
}

#[test]
fn parse_chapters_of_no_lines_is_empty() {
    let chapters: Vec<Chapter> = parse_chapters(&[]);
    assert!(chapters.is_empty());
}

#[test]
fn get_display_lines_pages_through_rows() {
    let book = make_book(vec!["hello world", "ab"]);
    let (rows, line, sub) = book.get_display_lines(0, 1, 3, 5);
    assert_eq!(rows, vec![" worl".to_string(), "d".to_string(), "ab".to_string()]);
    assert_eq!((line, sub), (1, 1));
}

#[test]
fn get_display_lines_stops_at_the_end_of_the_book() {
    let book = make_book(vec!["abc"]);
    let (rows, line, sub) = book.get_display_lines(0, 0, 3, 10);
    assert_eq!(rows, vec!["abc".to_string()]);
    assert_eq!((line, sub), (1, 0));
    let (rows, line, sub) = book.get_display_lines(5, 0, 2, 10);
    assert!(rows.is_empty());
    assert_eq!((line, sub), (5, 0));
}

#[test]
fn from_text_trims_and_drops_blank_lines() {
    let book = Book::from_text("  第一章 开始 \r\n\n   \n内容在此\n", "/books/a.txt".to_string()).unwrap();
    assert_eq!(book.lines, vec!["第一章 开始".to_string(), "内容在此".to_string()]);
    assert_eq!(book.lowercase_lines, book.lines);
    assert_eq!(book.chapters.len(), 1);
    assert_eq!(book.chapters[0].title, "第一章 开始");
    assert_eq!(book.file_path, "/books/a.txt");
}

#[test]
fn from_text_lowercases_each_line() {
    let book = Book::from_text("Chapter 1\nHELLO There", "x".to_string()).unwrap();
    assert_eq!(book.lowercase_lines, vec!["chapter 1".to_string(), "hello there".to_string()]);
}

#[test]
fn from_text_refuses_an_empty_text() {
    match Book::from_text(" \n\t\n", "x".to_string()) {
        Err(LoadError::EmptyContent) => {}
        _ => panic!("blank text must be refused"),
    }
    assert_eq!(LoadError::EmptyContent.message(), "文件内容为空或仅包含空白行");
    assert_eq!(LoadError::EmptyEpub.message(), "EPUB 文件内容为空");
}

#[test]
fn paging_on_from_a_page_continues_it() {
    let book = make_book(vec!["hello world", "ab", "x y z w v"]);
    let (whole, wl, ws) = book.get_display_lines(0, 1, 5, 4);
    let (first, l1, s1) = book.get_display_lines(0, 1, 2, 4);
    let (second, l2, s2) = book.get_display_lines(l1, s1, 3, 4);
    let mut joined = first.clone();
    joined.extend(second);
    assert_eq!(joined, whole);
    assert_eq!((l2, s2), (wl, ws));
}

#[test]
fn backward_search_is_forward_search_on_the_reversed_book() {
    let lines = vec!["alpha", "beta", "gamma", "beta two", "delta"];
    let book = make_book(lines.clone());
    let mut rev_lines = lines.clone();
    rev_lines.reverse();
    let rev = make_book(rev_lines);
    let len = lines.len();
    for start in 0..len {
        for q in ["beta", "a", "zzz", "delta"] {
            let back = book.search_backward(start, q);
            let fwd = rev.search_forward(len - 1 - start, q).map(|i| len - 1 - i);
            assert_eq!(back, fwd);
        }
    }
}
