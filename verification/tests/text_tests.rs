use tread::bookmark::{recent_choice, recent_lines, BookmarkEntry};
use tread::config::DisplayMode;
use tread::reader::BookFormat;
use tread::decode::decode_text;
use tread::markup::{clean_pdf_text, html_to_text, join_sections};
use tread::reader::{content_lines, LoadError};
use tread::text::parse_usize;
use tread::width::columns_of;

#[test]
fn html_to_text_turns_breaks_and_paragraphs_into_lines() {
    let html = "<html><body><p>第一段</p><p>Second<br/>line<br />three<br>four</p></body></html>";
    assert_eq!(html_to_text(html), "第一段\nSecond\nline\nthree\nfour");
}

#[test]
fn html_to_text_decodes_entities_after_removing_tags() {
    assert_eq!(
        html_to_text("<b>a &lt;tag&gt; &amp; &quot;q&quot; &apos;s&apos;&nbsp;x</b>"),
        "a <tag> & \"q\" 's' x"
    );
    assert_eq!(html_to_text("&amp;lt;"), "&lt;");
}

#[test]
fn html_to_text_folds_runs_of_blank_lines() {
    assert_eq!(html_to_text("<p>a</p>\n\n\n<p>b</p>"), "a\n\nb");
    assert_eq!(html_to_text("a<br><br>b"), "a\n\nb");
    assert_eq!(
        html_to_text("<p>a &amp; b</p>\n\n\n<p>c&nbsp;d</p>"),
        "a & b\n\nc d"
    );
    assert_eq!(html_to_text("a\nb"), "a\nb");
    assert_eq!(html_to_text("   \n  x  \n"), "\nx");
    assert_eq!(html_to_text(""), "");
}

#[test]
fn clean_pdf_text_drops_page_numbers_addresses_and_blank_lines() {
    let raw = "  Title  \n\n12\nhttp://example.com\nhttps://a.b\nwww.site.org\nBody text\n\n\n 3 \nEnd";
    assert_eq!(clean_pdf_text(raw), "Title\nBody text\nEnd");
}

#[test]
fn clean_pdf_text_of_noise_only_is_empty() {
    assert_eq!(clean_pdf_text("1\n\n2\n   \n"), "");
}

#[test]
fn decode_text_reads_utf8() {
    assert_eq!(decode_text("大雪纷飞".as_bytes()), "大雪纷飞");
}

#[test]
fn decode_text_skips_a_byte_order_mark_before_invalid_utf8() {
    let mut raw = vec![0xEF, 0xBB, 0xBF];
    raw.extend_from_slice("雪".as_bytes());
    // Valid UTF-8 as a whole: the mark is kept as U+FEFF.
    assert_eq!(decode_text(&raw), "\u{feff}雪");
}

#[test]
fn decode_text_falls_back_to_gbk() {
    // "大雪" in GBK.
    let raw = [0xB4, 0xF3, 0xD1, 0xA9];
    assert_eq!(decode_text(&raw), "大雪");
}

#[test]
fn decode_text_falls_back_to_lossy_utf8() {
    let raw = [0x61, 0xFF, 0xFF, 0xFF, 0x62];
    assert_eq!(decode_text(&raw), "a\u{fffd}\u{fffd}\u{fffd}b");
}

#[test]
fn join_sections_joins_non_empty_sections() {
    let sections = vec![
        b"<p>one</p>".to_vec(),
        b"<div></div>".to_vec(),
        "<p>二</p>".as_bytes().to_vec(),
    ];
    assert_eq!(join_sections(&sections).unwrap(), "one\n二");
}

#[test]
fn join_sections_refuses_a_book_without_text() {
    let sections = vec![b"<div></div>".to_vec(), Vec::new()];
    match join_sections(&sections) {
        Err(LoadError::EmptyEpub) => {}
        _ => panic!("an e-book without text must be refused"),
    }
    match join_sections(&[]) {
        Err(LoadError::EmptyEpub) => {}
        _ => panic!("an e-book without sections must be refused"),
    }
}

#[test]
fn content_lines_trims_and_drops_blank_lines() {
    assert_eq!(
        content_lines(" a \r\n\n\tb\u{3000}\n  "),
        vec!["a".to_string(), "b".to_string()]
    );
}

#[test]
fn parse_usize_follows_std() {
    assert_eq!(parse_usize("42"), Some(42));
    assert_eq!(parse_usize("+7"), Some(7));
    assert_eq!(parse_usize("007"), Some(7));
    assert_eq!(parse_usize(""), None);
    assert_eq!(parse_usize("+"), None);
    assert_eq!(parse_usize("-1"), None);
    assert_eq!(parse_usize("1a"), None);
    assert_eq!(parse_usize("99999999999999999999999"), None);
}

#[test]
fn columns_of_follows_unicode_width() {
    assert_eq!(columns_of('a'), 1);
    assert_eq!(columns_of('中'), 2);
    assert_eq!(columns_of('\t'), 0);
}

#[test]
fn book_format_follows_the_extension() {
    assert_eq!(BookFormat::of_path("/a/b.MOBI"), BookFormat::Mobi);
    assert_eq!(BookFormat::of_path("/a/b.azw3"), BookFormat::Mobi);
    assert_eq!(BookFormat::of_path("/a/b.Azw"), BookFormat::Mobi);
    assert_eq!(BookFormat::of_path("/a/b.pdf"), BookFormat::Pdf);
    assert_eq!(BookFormat::of_path("/a/b.EPUB"), BookFormat::Epub);
    assert_eq!(BookFormat::of_path("/a/b.txt"), BookFormat::Text);
    assert_eq!(BookFormat::of_path("/a/.epub"), BookFormat::Text);
    assert_eq!(BookFormat::of_path("/a/epub"), BookFormat::Text);
    assert_eq!(BookFormat::of_extension("epub"), BookFormat::Epub);
    assert_eq!(BookFormat::of_extension("EPUB"), BookFormat::Text);
}

#[test]
fn recent_lines_name_books_by_file_name() {
    let e = |line_index| BookmarkEntry { line_index, sub_offset: 0, mode: DisplayMode::Log, last_accessed: Some(1) };
    let recent = vec![
        ("/home/u/小说.txt".to_string(), e(42)),
        ("/".to_string(), e(0)),
    ];
    assert_eq!(
        recent_lines(&recent),
        vec!["  1. 小说.txt  [第 42 行]".to_string(), "  2. /  [第 0 行]".to_string()]
    );
}

#[test]
fn recent_choice_reads_a_number_from_one() {
    assert_eq!(recent_choice(" 2 \n", 3), Some(1));
    assert_eq!(recent_choice("1", 3), Some(0));
    assert_eq!(recent_choice("0", 3), Some(0));
    assert_eq!(recent_choice("4", 3), None);
    assert_eq!(recent_choice("\n", 3), None);
    assert_eq!(recent_choice("x", 3), None);
    assert_eq!(recent_choice("1", 0), None);
}
