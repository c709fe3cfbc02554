//! Audio folders: a long audio file presented as a folder of chapters, and
//! the decision of how a path of the collection is listed.
use vstd::prelude::*;
use crate::chapters::{chapter_path, name_head, path_for_chapter, split_chapters, Chapter, chapter_bounds, part_title};
use crate::text::{chars_of, push_char, push_padded3, push_str};

verus! {

/// The MIME type that the extension of a path suggests.
pub uninterp spec fn guessed_mime(path: Seq<char>) -> Seq<char>;

/// Relies on mime_guess::from_path(..).first_or_octet_stream(): the first
/// MIME type known for the path's extension, `application/octet-stream`
/// when none is; it depends on the path alone.
#[verifier::external_body]
pub fn guess_mime_type(path: &str) -> (r: String)
    ensures
        r@ == guessed_mime(path@),
{
    mime_guess::from_path(path).first_or_octet_stream().to_string()
}

/// Bitrate in kbps and duration in seconds of an audio file.
#[derive(Clone, Copy, Debug, PartialEq, Eq, Structural)]
pub struct AudioMeta {
    pub bitrate: u32,
    pub duration: u32,
}

/// The part of an audio file that an entry of a folder stands for, in
/// milliseconds.
#[derive(Clone, Copy, Debug, PartialEq, Eq, Structural)]
pub struct FileSection {
    pub start: u64,
    pub duration: Option<u64>,
}

/// A playable entry of a folder.
#[derive(Clone, Debug)]
pub struct AudioFile {
    pub name: String,
    pub path: String,
    pub meta: Option<AudioMeta>,
    pub mime: String,
    pub section: Option<FileSection>,
}

/// A sub-folder entry; `is_file` marks an audio file shown as a folder.
#[derive(Clone, Debug)]
pub struct AudioFolderShort {
    pub name: String,
    pub path: String,
    pub is_file: bool,
}

/// A cover image or a description file of a folder.
#[derive(Clone, Debug)]
pub struct TypedFile {
    pub path: String,
    pub mime: String,
}

/// The listing of a folder.
#[derive(Clone, Debug)]
pub struct AudioFolder {
    pub files: Vec<AudioFile>,
    pub subfolders: Vec<AudioFolderShort>,
    pub cover: Option<TypedFile>,
    pub description: Option<TypedFile>,
}

/// Why a path cannot be listed.
#[derive(Clone, Copy, Debug, PartialEq, Eq, Structural)]
pub enum ListError {
    /// Neither a directory nor an audio file with chapters.
    NotFolder,
    /// The path is not below the base directory.
    NotUnderBase,
}

/// Whether an audio file is long enough to be split into chapters: longer
/// than `from_minutes` minutes, a threshold that must itself be above ten
/// minutes.
pub open spec fn spec_is_long(meta: Option<AudioMeta>, from_minutes: u32) -> bool {
    match meta {
        Some(m) => from_minutes * 60 > 600 && m.duration > from_minutes * 60,
        None => false,
    }
}

pub fn is_long_file(meta: Option<&AudioMeta>, from_minutes: u32) -> (r: bool)
    ensures
        r == spec_is_long(
            match meta {
                Some(m) => Some(*m),
                None => None,
            },
            from_minutes,
        ),
{
    match meta {
        Some(m) => {
            let max_dur: u64 = from_minutes as u64 * 60;
            max_dur > 600 && m.duration as u64 > max_dur
        },
        None => false,
    }
}

/// Whether `needle` is a prefix of `haystack`.
pub fn is_prefix_of(needle: &str, haystack: &str) -> (r: bool)
    ensures
        r == (needle@.len() <= haystack@.len() && haystack@.subrange(0, needle@.len() as int) == needle@),
{
    let n = chars_of(needle);
    let h = chars_of(haystack);
    if n.len() > h.len() {
        return false;
    }
    let mut i: usize = 0;
    while i < n.len()
        invariant
            n@ == needle@,
            h@ == haystack@,
            n@.len() <= h@.len(),
            i <= n@.len(),
            forall|k: int| 0 <= k < i ==> n@[k] == h@[k],
        decreases n@.len() - i,
    {
        if n[i] != h[i] {
            assert(haystack@.subrange(0, needle@.len() as int)[i as int] != needle@[i as int]);
            return false;
        }
        i = i + 1;
    }
    assert(haystack@.subrange(0, needle@.len() as int) =~= needle@);
    true
}

/// `haystack` without the prefix `needle`, if it starts with it.
pub fn strip_prefix_of<'a>(needle: &str, haystack: &'a str) -> (r: Option<&'a str>)
    ensures
        match r {
            Some(rest) => needle@.len() <= haystack@.len() && haystack@.subrange(0, needle@.len() as int) == needle@
                && rest@ == haystack@.subrange(needle@.len() as int, haystack@.len() as int),
            None => !(needle@.len() <= haystack@.len() && haystack@.subrange(0, needle@.len() as int) == needle@),
        },
{
    if is_prefix_of(needle, haystack) {
        let n = needle.unicode_len();
        let h = haystack.unicode_len();
        Some(haystack.substring_char(n, h))
    } else {
        None
    }
}

/// The path of `full` relative to the directory `base`: what follows
/// `base` and the '/' after it, when `full` is `base` or lies below it.
pub open spec fn relative_path(base: Seq<char>, full: Seq<char>) -> Option<Seq<char>> {
    if base.len() <= full.len() && full.subrange(0, base.len() as int) == base {
        let rest = full.subrange(base.len() as int, full.len() as int);
        if rest.len() == 0 {
            Some(rest)
        } else if rest[0] == '/' {
            Some(rest.drop_first())
        } else if base.len() > 0 && base.last() == '/' {
            Some(rest)
        } else {
            None
        }
    } else {
        None
    }
}

fn relative_to<'a>(base: &str, full: &'a str) -> (r: Option<&'a str>)
    ensures
        match r {
            Some(p) => relative_path(base@, full@) == Some(p@),
            None => relative_path(base@, full@) is None,
        },
{
    match strip_prefix_of(base, full) {
        None => None,
        Some(rest) => {
            let n = rest.unicode_len();
            if n == 0 {
                Some(rest)
            } else if rest.get_char(0) == '/' {
                let r = rest.substring_char(1, n);
                assert(r@ =~= rest@.drop_first());
                Some(r)
            } else {
                let b = chars_of(base);
                if b.len() > 0 && b[b.len() - 1] == '/' {
                    Some(rest)
                } else {
                    None
                }
            }
        },
    }
}

/// The display name of a chapter: `<NNN> - <title>`.
pub fn chapter_name(chap: &Chapter) -> (r: String)
    ensures
        r@ == name_head(chap.number as nat, chap.title@),
{
    let mut r = String::new();
    push_padded3(&mut r, chap.number as u64);
    let ghost r0 = r@;
    push_char(&mut r, ' ');
    push_char(&mut r, '-');
    push_char(&mut r, ' ');
    push_str(&mut r, chap.title.as_str());
    assert(r@ =~= r0 + seq![' ', '-', ' '] + chap.title@);
    r
}

/// What the folder entry of one chapter says.
pub open spec fn chapter_entry_ok(f: AudioFile, chap: Chapter, rel: Seq<char>, meta: AudioMeta) -> bool {
    &&& f.name@ == name_head(chap.number as nat, chap.title@)
    &&& f.path@ == chapter_path(rel, chap)
    &&& f.meta == Some(AudioMeta { bitrate: meta.bitrate, duration: ((chap.end - chap.start) / 1000) as u32 })
    &&& f.mime@ == guessed_mime(rel)
    &&& f.section == Some(FileSection { start: chap.start, duration: Some((chap.end - chap.start) as u64) })
}

/// The folder of a long audio file at `full_path`: one entry per chapter,
/// each addressed by its chapter path relative to `base_dir`, with the
/// file's bitrate and the chapter's duration.
pub fn list_dir_file(base_dir: &str, full_path: &str, audio_meta: AudioMeta, chapters: Vec<Chapter>) -> (r: Result<AudioFolder, ListError>)
    requires
        forall|i: int| 0 <= i < chapters@.len() ==> (#[trigger] chapters@[i]).start <= chapters@[i].end,
    ensures
        match relative_path(base_dir@, full_path@) {
            None => r == Err::<AudioFolder, ListError>(ListError::NotUnderBase),
            Some(rel) => r matches Ok(folder) && {
                &&& folder.files@.len() == chapters@.len()
                &&& forall|i: int| 0 <= i < chapters@.len() ==> chapter_entry_ok(#[trigger] folder.files@[i], chapters@[i], rel, audio_meta)
                &&& folder.subfolders@.len() == 0
                &&& folder.cover is None
                &&& folder.description is None
            },
        },
{
    let path = match relative_to(base_dir, full_path) {
        None => {
            return Err(ListError::NotUnderBase);
        },
        Some(p) => p,
    };
    let mime = guess_mime_type(path);
    let mut files: Vec<AudioFile> = Vec::new();
    let mut i: usize = 0;
    while i < chapters.len()
        invariant
            relative_path(base_dir@, full_path@) == Some(path@),
            mime@ == guessed_mime(path@),
            i <= chapters@.len(),
            files@.len() == i,
            forall|k: int| 0 <= k < chapters@.len() ==> (#[trigger] chapters@[k]).start <= chapters@[k].end,
            forall|k: int| 0 <= k < i ==> chapter_entry_ok(#[trigger] files@[k], chapters@[k], path@, audio_meta),
        decreases chapters@.len() - i,
    {
        let chap = &chapters[i];
        let len = chap.end - chap.start;
        #[verifier::truncate]
        let secs = (len / 1000) as u32;
        let f = AudioFile {
            name: chapter_name(chap),
            path: path_for_chapter(path, chap),
            meta: Some(AudioMeta { bitrate: audio_meta.bitrate, duration: secs }),
            mime: mime.clone(),
            section: Some(FileSection { start: chap.start, duration: Some(len) }),
        };
        files.push(f);
        i = i + 1;
    }
    Ok(AudioFolder { files, subfolders: Vec::new(), cover: None, description: None })
}

/// How a path of the collection is listed, as its kind on disk and its
/// audio metadata decide.
#[derive(Debug)]
pub enum DirType {
    /// An audio file listed as a folder of these chapters.
    File { chapters: Vec<Chapter>, audio_meta: AudioMeta },
    /// A directory.
    Dir,
    /// Anything else, which cannot be listed.
    Other,
}

/// The kind of a path from what probing it found: a directory; an audio
/// file with chapters of its own and metadata; a long audio file without
/// chapters, split into chapters of `chapter_minutes`; anything else.
pub fn get_dir_type(
    is_dir: bool,
    is_audio_file: bool,
    chapters: Option<Vec<Chapter>>,
    audio_meta: Option<AudioMeta>,
    long_from_minutes: u32,
    chapter_minutes: u32,
) -> (r: DirType)
    requires
        chapter_minutes > 0,
    ensures
        is_dir ==> r is Dir,
        !is_dir && !is_audio_file ==> r is Other,
        !is_dir && is_audio_file ==> match (chapters, audio_meta) {
            (Some(c), Some(m)) => r == DirType::File { chapters: c, audio_meta: m },
            (None, Some(m)) => if spec_is_long(Some(m), long_from_minutes) {
                r matches DirType::File { chapters: c, audio_meta: m2 } && m2 == m
                    && c@.len() == chapter_bounds(0, m.duration as nat * 1000, chapter_minutes as nat * 60000).len()
                    && forall|k: int| 0 <= k < c@.len() ==> {
                        let b = chapter_bounds(0, m.duration as nat * 1000, chapter_minutes as nat * 60000)[k];
                        &&& (#[trigger] c@[k]).start == b.0
                        &&& c@[k].end == b.1
                        &&& c@[k].number == k
                        &&& c@[k].title@ == part_title(k as nat)
                    }
            } else {
                r is Other
            },
            _ => r is Other,
        },
{
    if is_dir {
        return DirType::Dir;
    }
    if !is_audio_file {
        return DirType::Other;
    }
    match (chapters, audio_meta) {
        (Some(c), Some(m)) => DirType::File { chapters: c, audio_meta: m },
        (None, Some(m)) => {
            if is_long_file(Some(&m), long_from_minutes) {
                DirType::File { chapters: split_chapters(m.duration, chapter_minutes), audio_meta: m }
            } else {
                DirType::Other
            }
        },
        _ => DirType::Other,
    }
}

/// What listing a path comes to.
#[derive(Debug)]
pub enum Listing {
    /// The folder of a chapterised audio file.
    Folder(AudioFolder),
    /// A directory, whose entries are to be read.
    ReadDirectory,
}

/// Lists the path `full_path` of kind `dir_type` below `base_dir`: an audio
/// file as the folder of its chapters, a directory by reading it, anything
/// else is refused.
pub fn list_dir(base_dir: &str, full_path: &str, dir_type: DirType) -> (r: Result<Listing, ListError>)
    requires
        dir_type matches DirType::File { chapters: c, .. } ==> forall|i: int| 0 <= i < c@.len() ==> (#[trigger] c@[i]).start <= c@[i].end,
    ensures
        match dir_type {
            DirType::Dir => r matches Ok(Listing::ReadDirectory),
            DirType::Other => r == Err::<Listing, ListError>(ListError::NotFolder),
            DirType::File { chapters, audio_meta } => match relative_path(base_dir@, full_path@) {
                None => r == Err::<Listing, ListError>(ListError::NotUnderBase),
                Some(rel) => r matches Ok(Listing::Folder(folder)) && folder.files@.len() == chapters@.len()
                    && forall|i: int| 0 <= i < chapters@.len() ==> chapter_entry_ok(#[trigger] folder.files@[i], chapters@[i], rel, audio_meta),
            },
        },
{
    match dir_type {
        DirType::Dir => Ok(Listing::ReadDirectory),
        DirType::Other => Err(ListError::NotFolder),
        DirType::File { chapters, audio_meta } => match list_dir_file(base_dir, full_path, audio_meta, chapters) {
            Ok(f) => Ok(Listing::Folder(f)),
            Err(e) => Err(e),
        },
    }
}

} // verus!
