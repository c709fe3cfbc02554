use audioserve::chapters::{split_chapters, Chapter};
use audioserve::folder::{
    get_dir_type, guess_mime_type, is_long_file, is_prefix_of, list_dir, list_dir_file,
    strip_prefix_of, AudioMeta, DirType, FileSection, ListError, Listing,
};

#[test]
fn long_file_threshold() {
    let m = AudioMeta { bitrate: 128, duration: 3601 };
    assert!(is_long_file(Some(&m), 60));
    assert!(!is_long_file(Some(&AudioMeta { bitrate: 128, duration: 3600 }), 60));
    assert!(!is_long_file(Some(&m), 10));
    assert!(!is_long_file(None, 60));
}

#[test]
fn prefixes() {
    assert!(is_prefix_of("ab", "abc"));
    assert!(is_prefix_of("", "abc"));
    assert!(!is_prefix_of("abcd", "abc"));
    assert!(!is_prefix_of("b", "abc"));
    assert_eq!(strip_prefix_of("ab", "abc"), Some("c"));
    assert_eq!(strip_prefix_of("x", "abc"), None);
}

#[test]
fn mime_of_path() {
    assert_eq!(guess_mime_type("a/b.mp3"), "audio/mpeg");
    assert_eq!(guess_mime_type("a/b.unknownext"), "application/octet-stream");
}

#[test]
fn chapter_folder() {
    let chaps = split_chapters(65 * 60, 30);
    let meta = AudioMeta { bitrate: 64, duration: 65 * 60 };
    let f = list_dir_file("/books", "/books/long/book.mp3", meta, chaps).unwrap();
    assert_eq!(f.files.len(), 2);
    assert_eq!(f.files[0].name, "000 - Part 0");
    assert_eq!(f.files[1].path, "long/book.mp3/001 - Part 1$$1800000-3900000$$.mp3");
    assert_eq!(f.files[1].meta, Some(AudioMeta { bitrate: 64, duration: 2100 }));
    assert_eq!(f.files[1].section, Some(FileSection { start: 1_800_000, duration: Some(2_100_000) }));
    assert_eq!(f.files[0].mime, "audio/mpeg");
    assert!(f.subfolders.is_empty() && f.cover.is_none() && f.description.is_none());
}

#[test]
fn chapter_folder_outside_base() {
    let meta = AudioMeta { bitrate: 64, duration: 10 };
    let chaps = vec![Chapter { title: "a".to_string(), start: 0, end: 10, number: 0 }];
    assert_eq!(list_dir_file("/books", "/other/x.mp3", meta, chaps.clone()).unwrap_err(), ListError::NotUnderBase);
    assert_eq!(list_dir_file("/bo", "/books/x.mp3", meta, chaps).unwrap_err(), ListError::NotUnderBase);
}

#[test]
fn dir_types() {
    assert!(matches!(get_dir_type(true, false, None, None, 60, 30), DirType::Dir));
    assert!(matches!(get_dir_type(false, false, None, None, 60, 30), DirType::Other));
    let short = AudioMeta { bitrate: 1, duration: 100 };
    assert!(matches!(get_dir_type(false, true, None, Some(short), 60, 30), DirType::Other));
    let long = AudioMeta { bitrate: 1, duration: 4000 };
    match get_dir_type(false, true, None, Some(long), 60, 30) {
        DirType::File { chapters, audio_meta } => {
            assert_eq!(audio_meta, long);
            assert_eq!(chapters.len(), 2);
        }
        _ => panic!("long file should be a folder"),
    }
    let own = vec![Chapter { title: "x".to_string(), start: 0, end: 5, number: 0 }];
    match get_dir_type(false, true, Some(own), Some(short), 60, 30) {
        DirType::File { chapters, .. } => assert_eq!(chapters.len(), 1),
        _ => panic!("file with chapters should be a folder"),
    }
    assert!(matches!(get_dir_type(false, true, None, None, 60, 30), DirType::Other));
}

#[test]
fn listing() {
    assert!(matches!(list_dir("/b", "/b/d", DirType::Dir), Ok(Listing::ReadDirectory)));
    assert_eq!(list_dir("/b", "/b/d", DirType::Other).unwrap_err(), ListError::NotFolder);
    let chapters = vec![Chapter { title: "x".to_string(), start: 0, end: 5000, number: 0 }];
    let meta = AudioMeta { bitrate: 1, duration: 5 };
    match list_dir("/b", "/b/f.opus", DirType::File { chapters, audio_meta: meta }) {
        Ok(Listing::Folder(f)) => assert_eq!(f.files[0].path, "f.opus/000 - x$$0-5000$$.opus"),
        _ => panic!("expected a folder"),
    }
}
