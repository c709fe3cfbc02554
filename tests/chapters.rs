use audioserve::chapters::{parse_chapter_path, path_for_chapter, split_chapters, Chapter, TimeSpan};

#[test]
fn test_pseudo_file() {
    let fname = format!("kniha/{:3} - {}$${}-{}$${}", 1, "Usak Jede", 1234, 5678, ".opus");
    let (p, span) = parse_chapter_path(&fname);
    let span = span.unwrap();
    assert_eq!("kniha", p);
    assert_eq!(span.start, 1234);
    assert_eq!(span.duration, Some(5678u64 - 1234));
}

#[test]
fn chapter_path_literal_decodes() {
    let (p, span) = parse_chapter_path("kniha/001 - Usak Jede$$1234-5678$$.opus");
    assert_eq!(p, "kniha");
    assert_eq!(span, Some(TimeSpan { start: 1234, duration: Some(4444) }));
}

#[test]
fn chapter_path_without_marker_is_unchanged() {
    let (p, span) = parse_chapter_path("kniha/001 - Usak Jede.opus");
    assert_eq!(p, "kniha/001 - Usak Jede.opus");
    assert_eq!(span, None);
}

#[test]
fn chapter_path_open_end() {
    let (p, span) = parse_chapter_path("a/b.mp3/002 - x$$60000-$$.mp3");
    assert_eq!(p, "a/b.mp3");
    assert_eq!(span, Some(TimeSpan { start: 60000, duration: None }));
}

#[test]
fn chapter_path_marker_only_in_file_name() {
    let (p, span) = parse_chapter_path("dir$$1-2$$/file.mp3");
    assert_eq!(p, "dir$$1-2$$/file.mp3");
    assert_eq!(span, None);
}

#[test]
fn chapter_path_without_parent() {
    let (p, span) = parse_chapter_path("x$$5-9$$");
    assert_eq!(p, "");
    assert_eq!(span, Some(TimeSpan { start: 5, duration: Some(4) }));
}

#[test]
fn chapter_path_start_too_large() {
    let name = "a/x$$99999999999999999999-1$$.mp3";
    let (p, span) = parse_chapter_path(name);
    assert_eq!(p, name);
    assert_eq!(span, None);
}

#[test]
fn path_for_chapter_formats() {
    let chap = Chapter { title: "Part 3".to_string(), start: 5400000, end: 7200000, number: 3 };
    let p = path_for_chapter("books/long.mp3", &chap);
    assert_eq!(p, "books/long.mp3/003 - Part 3$$5400000-7200000$$.mp3");
}

#[test]
fn path_for_chapter_without_extension() {
    let chap = Chapter { title: "Intro".to_string(), start: 0, end: 10, number: 1234 };
    assert_eq!(path_for_chapter("books/long", &chap), "books/long/1234 - Intro$$0-10$$");
    assert_eq!(path_for_chapter("", &chap), "1234 - Intro$$0-10$$");
}

#[test]
fn chapter_round_trip() {
    let chap = Chapter { title: "Usak Jede".to_string(), start: 1234, end: 5678, number: 1 };
    let p = path_for_chapter("kniha/book.opus", &chap);
    let (parent, span) = parse_chapter_path(&p);
    assert_eq!(parent, "kniha/book.opus");
    assert_eq!(span, Some(TimeSpan { start: 1234, duration: Some(4444) }));
}

#[test]
fn split_chapters_absorbs_short_tail() {
    // 65 minutes in chapters of 30: the 5 minute tail is under a third.
    let chaps = split_chapters(65 * 60, 30);
    assert_eq!(chaps.len(), 2);
    assert_eq!((chaps[0].start, chaps[0].end), (0, 1_800_000));
    assert_eq!((chaps[1].start, chaps[1].end), (1_800_000, 3_900_000));
    assert_eq!(chaps[0].title, "Part 0");
    assert_eq!(chaps[1].title, "Part 1");
    assert_eq!(chaps[1].number, 1);
}

#[test]
fn split_chapters_keeps_long_tail() {
    // 75 minutes: the 15 minute tail is a chapter of its own.
    let chaps = split_chapters(75 * 60, 30);
    assert_eq!(chaps.len(), 3);
    assert_eq!((chaps[2].start, chaps[2].end), (3_600_000, 4_500_000));
    assert_eq!(chaps[2].title, "Part 2");
}

#[test]
fn split_chapters_empty_file() {
    assert_eq!(split_chapters(0, 30).len(), 0);
}
