use std::time::{Duration, SystemTime};
use tread::bookmark::{BookmarkEntry, Bookmarks};
use tread::config::DisplayMode;

/// Lets the clock move on by `ms` milliseconds.
fn wait_millis(ms: u64) {
    let start = SystemTime::now();
    while SystemTime::now()
        .duration_since(start)
        .unwrap_or_default()
        < Duration::from_millis(ms)
    {
        std::hint::spin_loop();
    }
}

fn entry(line_index: usize, sub_offset: usize, mode: DisplayMode) -> BookmarkEntry {
    BookmarkEntry {
        line_index,
        sub_offset,
        mode,
        last_accessed: None,
    }
}

#[test]
fn test_bookmark_get_missing() {
    let bm = Bookmarks::new();
    assert!(bm.get("/nonexistent.txt").is_none());
}

#[test]
fn test_bookmark_overwrite() {
    let mut bm = Bookmarks::new();
    bm.set(
        "/a.txt",
        BookmarkEntry {
            line_index: 1,
            sub_offset: 0,
            mode: DisplayMode::Minimal,
            last_accessed: None,
        },
    );
    wait_millis(10);
    bm.set(
        "/a.txt",
        BookmarkEntry {
            line_index: 99,
            sub_offset: 2,
            mode: DisplayMode::Log,
            last_accessed: None,
        },
    );

    let entry = bm.get("/a.txt").unwrap();
    assert_eq!(entry.line_index, 99);
    assert_eq!(entry.sub_offset, 2);
    assert_eq!(entry.mode, DisplayMode::Log);
    assert!(entry.last_accessed.is_some());
}

#[test]
fn test_favorite_toggle() {
    let mut bm = Bookmarks::new();
    assert!(bm.toggle_favorite("/a.txt", 10));
    assert!(bm.toggle_favorite("/a.txt", 5));
    assert_eq!(bm.favorites("/a.txt"), vec![5, 10]);
    assert!(!bm.toggle_favorite("/a.txt", 10));
    assert_eq!(bm.favorites("/a.txt"), vec![5]);
}

#[test]
fn test_bookmark_recent_order() {
    let mut bm = Bookmarks::new();
    bm.set("/old.txt", entry(1, 0, DisplayMode::Minimal));
    wait_millis(10);
    bm.set("/mid.txt", entry(3, 0, DisplayMode::Minimal));
    wait_millis(10);
    bm.set("/new.txt", entry(2, 0, DisplayMode::Minimal));

    let recent = bm.recent(2);
    assert_eq!(recent.len(), 2);
    assert_eq!(recent[0].0, "/new.txt");
    assert_eq!(recent[1].0, "/mid.txt");
}

#[test]
fn set_stamps_the_entry_with_the_current_time() {
    let before = SystemTime::now()
        .duration_since(SystemTime::UNIX_EPOCH)
        .unwrap()
        .as_millis() as u64;
    let mut bm = Bookmarks::new();
    bm.set("/a.txt", BookmarkEntry { last_accessed: Some(7), ..entry(4, 1, DisplayMode::Comment) });
    let stamp = bm.get("/a.txt").unwrap().last_accessed.unwrap();
    let after = SystemTime::now()
        .duration_since(SystemTime::UNIX_EPOCH)
        .unwrap()
        .as_millis() as u64;
    assert!(before <= stamp && stamp <= after);
}

#[test]
fn set_at_leaves_other_files_alone() {
    let mut bm = Bookmarks::new();
    bm.set_at("/a.txt", entry(1, 0, DisplayMode::Log), 100);
    bm.set_at("/b.txt", entry(2, 3, DisplayMode::GitLog), 200);
    bm.set_at("/a.txt", entry(5, 0, DisplayMode::Pytest), 300);
    let a = bm.get("/a.txt").unwrap();
    assert_eq!((a.line_index, a.mode, a.last_accessed), (5, DisplayMode::Pytest, Some(300)));
    let b = bm.get("/b.txt").unwrap();
    assert_eq!((b.line_index, b.sub_offset, b.last_accessed), (2, 3, Some(200)));
    assert_eq!(bm.entry_list().len(), 2);
}

#[test]
fn toggling_a_line_twice_restores_the_favorites() {
    let mut bm = Bookmarks::new();
    for line in [30, 10, 20] {
        bm.toggle_favorite("/a.txt", line);
    }
    assert_eq!(bm.favorites("/a.txt"), vec![10, 20, 30]);
    assert!(bm.toggle_favorite("/a.txt", 15));
    assert!(!bm.toggle_favorite("/a.txt", 15));
    assert_eq!(bm.favorites("/a.txt"), vec![10, 20, 30]);
    assert!(!bm.toggle_favorite("/a.txt", 20));
    assert!(bm.toggle_favorite("/a.txt", 20));
    assert_eq!(bm.favorites("/a.txt"), vec![10, 20, 30]);
}

#[test]
fn favorites_are_kept_per_file() {
    let mut bm = Bookmarks::new();
    bm.toggle_favorite("/a.txt", 1);
    bm.toggle_favorite("/b.txt", 2);
    assert_eq!(bm.favorites("/a.txt"), vec![1]);
    assert_eq!(bm.favorites("/b.txt"), vec![2]);
    assert!(bm.favorites("/c.txt").is_empty());
}

#[test]
fn recent_puts_never_stamped_entries_last_and_takes_at_most_n() {
    let bm = Bookmarks::from_parts(
        vec![
            ("/none.txt".to_string(), entry(0, 0, DisplayMode::Log)),
            ("/early.txt".to_string(), BookmarkEntry { last_accessed: Some(5), ..entry(1, 0, DisplayMode::Log) }),
            ("/late.txt".to_string(), BookmarkEntry { last_accessed: Some(9), ..entry(2, 0, DisplayMode::Log) }),
        ],
        vec![],
    );
    let all = bm.recent(10);
    let names: Vec<&str> = all.iter().map(|(p, _)| p.as_str()).collect();
    assert_eq!(names, vec!["/late.txt", "/early.txt", "/none.txt"]);
    assert_eq!(bm.recent(1).len(), 1);
    assert!(bm.recent(0).is_empty());
}

#[test]
fn from_parts_keeps_the_last_entry_of_a_repeated_path() {
    let bm = Bookmarks::from_parts(
        vec![
            ("/a.txt".to_string(), entry(1, 0, DisplayMode::Log)),
            ("/a.txt".to_string(), entry(2, 0, DisplayMode::Comment)),
        ],
        vec![("/a.txt".to_string(), vec![3]), ("/a.txt".to_string(), vec![4, 5])],
    );
    assert_eq!(bm.get("/a.txt").unwrap().line_index, 2);
    assert_eq!(bm.favorites("/a.txt"), vec![4, 5]);
    assert_eq!(bm.entry_list().len(), 1);
    assert_eq!(bm.favorite_list().len(), 1);
}

#[test]
fn default_bookmarks_are_empty() {
    let bm = Bookmarks::default();
    assert!(bm.entry_list().is_empty());
    assert!(bm.favorite_list().is_empty());
}

#[test]
fn bookmarks_read_back_from_their_lists() {
    let mut bm = Bookmarks::new();
    bm.set_at("/a.txt", entry(3, 1, DisplayMode::Comment), 10);
    bm.set_at("/b.txt", entry(7, 0, DisplayMode::Log), 20);
    bm.toggle_favorite("/a.txt", 9);
    bm.toggle_favorite("/a.txt", 2);
    let back = Bookmarks::from_parts(bm.entry_list(), bm.favorite_list());
    let a = back.get("/a.txt").unwrap();
    assert_eq!((a.line_index, a.sub_offset, a.mode, a.last_accessed), (3, 1, DisplayMode::Comment, Some(10)));
    assert_eq!(back.get("/b.txt").unwrap().line_index, 7);
    assert_eq!(back.favorites("/a.txt"), vec![2, 9]);
    assert_eq!(back.entry_list().len(), 2);
}
