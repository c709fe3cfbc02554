//! Virtual chapter files: a long audio file is offered as a folder of
//! chapters, each addressed by a path below the real file that carries the
//! chapter's time span.
//!
//! A chapter path is `<file>/<NNN> - <title>$$<start>-<end>$$<ext>`, with
//! `NNN` the chapter number padded to three digits, `start` and `end` in
//! milliseconds, and `<ext>` the real file's extension with its dot.
use vstd::prelude::*;
use crate::text::{
    all_digits, chars_of, decimal, digit_run, digit_run_at, digits_value, extension_of_name,
    file_name, find_last, free_of, is_digit, join, lemma_decimal, lemma_digit_run,
    lemma_digit_run_exact, lemma_last_index_append, lemma_last_index_bounds, lemma_padded3,
    last_index_of, padded3, parent, parse_digits, push_char, push_chars, push_decimal,
    push_padded3, push_str,
};

verus! {

/// A time span inside an audio file, in milliseconds; no duration means up
/// to the end of the file.
#[derive(Clone, Copy, Debug, PartialEq, Eq, Structural)]
pub struct TimeSpan {
    pub start: u64,
    pub duration: Option<u64>,
}

/// One chapter of an audio file, from `start` to `end` in milliseconds.
#[derive(Clone, Debug)]
pub struct Chapter {
    pub title: String,
    pub start: u64,
    pub end: u64,
    pub number: u32,
}

/// The file name of a chapter.
pub open spec fn chapter_file_name(
    number: nat,
    title: Seq<char>,
    start: nat,
    end: nat,
    ext: Seq<char>,
) -> Seq<char> {
    name_head(number, title) + marker(start, end) + ext
}

/// The part of a chapter's file name before its span marker.
pub open spec fn name_head(number: nat, title: Seq<char>) -> Seq<char> {
    padded3(number) + seq![' ', '-', ' '] + title
}

/// The span marker `$$<start>-<end>$$`.
pub open spec fn marker(start: nat, end: nat) -> Seq<char> {
    seq!['$', '$'] + decimal(start) + seq!['-'] + decimal(end) + seq!['$', '$']
}

/// The extension of a path with its leading dot, or nothing.
pub open spec fn dotted_extension(p: Seq<char>) -> Seq<char> {
    match extension_of_name(file_name(p)) {
        Some(e) => seq!['.'] + e,
        None => Seq::empty(),
    }
}

/// The path of a chapter of the file at `p`.
pub open spec fn chapter_path(p: Seq<char>, chap: Chapter) -> Seq<char> {
    join(
        p,
        chapter_file_name(chap.number as nat, chap.title@, chap.start as nat, chap.end as nat, dotted_extension(p)),
    )
}

/// Whether a span marker `$$<digits>-<digits or none>$$` starts at `i`.
pub open spec fn marker_at(s: Seq<char>, i: int) -> bool {
    let a = digit_run(s, i + 2);
    let b = digit_run(s, i + 3 + a);
    &&& 0 <= i
    &&& i + 1 < s.len()
    &&& s[i] == '$'
    &&& s[i + 1] == '$'
    &&& a > 0
    &&& i + 2 + a < s.len()
    &&& s[i + 2 + a] == '-'
    &&& i + 4 + a + b < s.len()
    &&& s[i + 3 + a + b] == '$'
    &&& s[i + 4 + a + b] == '$'
}

/// Whether the leftmost span marker of `s` starts at `i`.
pub open spec fn first_marker(s: Seq<char>, i: int) -> bool {
    marker_at(s, i) && forall|j: int| 0 <= j < i ==> !marker_at(s, j)
}

/// The span that the marker at `i` gives: its start, and its duration when
/// an end is written, fits and is not before the start.
pub open spec fn span_of_marker(s: Seq<char>, i: int) -> Option<TimeSpan> {
    let a = digit_run(s, i + 2);
    let b = digit_run(s, i + 3 + a);
    let start = digits_value(s.subrange(i + 2, i + 2 + a));
    let end = digits_value(s.subrange(i + 3 + a, i + 3 + a + b));
    if start <= u64::MAX {
        Some(
            TimeSpan {
                start: start as u64,
                duration: if b > 0 && end <= u64::MAX && start <= end {
                    Some((end - start) as u64)
                } else {
                    None
                },
            },
        )
    } else {
        None
    }
}

/// The span that a file name carries, if its leftmost marker gives one.
pub open spec fn span_of_name(f: Seq<char>) -> Option<TimeSpan> {
    if exists|i: int| #[trigger] first_marker(f, i) {
        span_of_marker(f, choose|i: int| #[trigger] first_marker(f, i))
    } else {
        None
    }
}

/// A path decoded: the real file and the chapter's span, or the path
/// itself with no span.
pub open spec fn decode_path(p: Seq<char>) -> (Seq<char>, Option<TimeSpan>) {
    match span_of_name(file_name(p)) {
        Some(t) => (parent(p), Some(t)),
        None => (p, None),
    }
}

/// The digit counts of the marker at `i`, if one starts there.
fn marker_at_exec(s: &Vec<char>, i: usize) -> (r: Option<(usize, usize)>)
    requires
        i <= s@.len(),
    ensures
        r is Some <==> marker_at(s@, i as int),
        r matches Some((a, b)) ==> a == digit_run(s@, i + 2) && b == digit_run(s@, i + 3 + a),
{
    let n = s.len();
    if !(n - i >= 2 && s[i] == '$' && s[i + 1] == '$') {
        return None;
    }
    let a = digit_run_at(s, i + 2);
    if !(a > 0 && n - (i + 2) - a >= 1 && s[i + 2 + a] == '-') {
        return None;
    }
    let b = digit_run_at(s, i + 3 + a);
    if !(n - (i + 3 + a) - b >= 2 && s[i + 3 + a + b] == '$' && s[i + 4 + a + b] == '$') {
        return None;
    }
    Some((a, b))
}

/// Decodes a chapter path: when the file name of `p` holds a span marker
/// `$$<start>-<end>$$`, the leftmost one, and its start fits in a `u64`,
/// the result is the parent of `p` and the span, whose duration is
/// `end - start` when `end` is written, fits and is not before the start,
/// and none otherwise; without such a marker it is `p` itself with no span.
pub fn parse_chapter_path(p: &str) -> (r: (&str, Option<TimeSpan>))
    ensures
        (r.0@, r.1) == decode_path(p@),
{
    let v = chars_of(p);
    let vn = v.len();
    let slash = find_last(&v, '/');
    proof {
        lemma_last_index_bounds(v@, '/');
    }
    let fstart: usize = match slash {
        Some(k) => k + 1,
        None => 0,
    };
    let mut f: Vec<char> = Vec::new();
    let mut j: usize = fstart;
    while j < v.len()
        invariant
            fstart <= j <= v@.len(),
            f@ == v@.subrange(fstart as int, j as int),
        decreases v@.len() - j,
    {
        f.push(v[j]);
        j = j + 1;
    }
    assert(f@ == file_name(p@));
    let mut i: usize = 0;
    while i < f.len()
        invariant
            i <= f@.len(),
            forall|k: int| 0 <= k < i ==> !marker_at(f@, k),
            v@ == p@,
            f@ == file_name(p@),
            match slash {
                Some(k) => k < v@.len() && last_index_of(p@, '/') == k as int,
                None => last_index_of(p@, '/') == -1,
            },
        decreases f@.len() - i,
    {
        if let Some((a, b)) = marker_at_exec(&f, i) {
            proof {
                assert(first_marker(f@, i as int));
                assert forall|k: int| #[trigger] first_marker(f@, k) implies k == i by {
                    if k < i {
                    } else if k > i {
                        assert(!marker_at(f@, i as int));
                    }
                }
                lemma_digit_run(f@, i + 2);
                lemma_digit_run(f@, i + 3 + a);
                assert(all_digits(f@.subrange(i + 2, (i + 2 + a) as int)));
                assert(all_digits(f@.subrange(i + 3 + a, (i + 3 + a + b) as int)));
                assert(span_of_name(f@) == span_of_marker(f@, i as int));
            }
            let start = parse_digits(&f, i + 2, i + 2 + a);
            match start {
                None => {
                    return (p, None);
                },
                Some(start) => {
                    let end = if b > 0 {
                        parse_digits(&f, i + 3 + a, i + 3 + a + b)
                    } else {
                        None
                    };
                    let duration = match end {
                        Some(e) => if start <= e {
                            Some(e - start)
                        } else {
                            None
                        },
                        None => None,
                    };
                    let parent_path: &str = match slash {
                        Some(k) => p.substring_char(0, k),
                        None => {
                            let e = "";
                            proof {
                                reveal_strlit("");
                            }
                            e
                        },
                    };
                    return (parent_path, Some(TimeSpan { start, duration }));
                },
            }
        }
        i = i + 1;
    }
    assert(!exists|k: int| #[trigger] first_marker(f@, k));
    (p, None)
}

/// The file name of a chapter, with `ext` as its extension.
fn chapter_file_name_of(chap: &Chapter, ext: &str) -> (r: String)
    ensures
        r@ == chapter_file_name(chap.number as nat, chap.title@, chap.start as nat, chap.end as nat, ext@),
{
    let mut r = String::new();
    push_padded3(&mut r, chap.number as u64);
    let ghost s0 = r@;
    push_char(&mut r, ' ');
    push_char(&mut r, '-');
    push_char(&mut r, ' ');
    assert(r@ =~= s0 + seq![' ', '-', ' ']);
    push_str(&mut r, chap.title.as_str());
    let ghost head = r@;
    push_char(&mut r, '$');
    push_char(&mut r, '$');
    let ghost s1 = r@;
    assert(s1 =~= head + seq!['$', '$']);
    push_decimal(&mut r, chap.start);
    let ghost s2 = r@;
    push_char(&mut r, '-');
    assert(r@ =~= s2 + seq!['-']);
    push_decimal(&mut r, chap.end);
    let ghost s3 = r@;
    push_char(&mut r, '$');
    push_char(&mut r, '$');
    assert(r@ =~= s3 + seq!['$', '$']);
    assert(r@ =~= head + marker(chap.start as nat, chap.end as nat));
    push_str(&mut r, ext);
    r
}

/// The extension of the file name `f` with its dot, or nothing.
fn dotted_extension_of(f: &Vec<char>) -> (r: String)
    ensures
        r@ == match extension_of_name(f@) {
            Some(e) => seq!['.'] + e,
            None => Seq::<char>::empty(),
        },
{
    let dot = find_last(f, '.');
    proof {
        lemma_last_index_bounds(f@, '.');
    }
    let mut ext = String::new();
    match dot {
        Some(d) => {
            if d > 0 {
                let n = f.len();
                push_char(&mut ext, '.');
                push_chars(&mut ext, f, d + 1, n);
                assert(ext@ =~= seq!['.'] + f@.subrange(d + 1, f@.len() as int));
            }
        },
        None => {},
    }
    ext
}

/// The path of a chapter of the audio file at `p`:
/// `<p>/<NNN> - <title>$$<start>-<end>$$<ext>`.
pub fn path_for_chapter(p: &str, chap: &Chapter) -> (r: String)
    ensures
        r@ == chapter_path(p@, *chap),
{
    let v = chars_of(p);
    let vn = v.len();
    let slash = find_last(&v, '/');
    proof {
        lemma_last_index_bounds(v@, '/');
    }
    let fstart: usize = match slash {
        Some(k) => k + 1,
        None => 0,
    };
    let mut f: Vec<char> = Vec::new();
    let mut j: usize = fstart;
    while j < v.len()
        invariant
            fstart <= j <= v@.len(),
            f@ == v@.subrange(fstart as int, j as int),
        decreases v@.len() - j,
    {
        f.push(v[j]);
        j = j + 1;
    }
    assert(f@ == file_name(p@));
    let ext = dotted_extension_of(&f);
    let name = chapter_file_name_of(chap, ext.as_str());
    let mut r = String::new();
    push_str(&mut r, p);
    if !(v.len() == 0 || v[v.len() - 1] == '/') {
        push_char(&mut r, '/');
    }
    let ghost r0 = r@;
    push_str(&mut r, name.as_str());
    proof {
        if !(p@.len() == 0 || p@.last() == '/') {
            assert(r@ =~= p@ + seq!['/'] + name@);
        } else {
            assert(r@ =~= p@ + name@);
        }
    }
    r
}

/// A chapter's file name has no '/', and its head no '$'.
proof fn lemma_name_parts(number: nat, title: Seq<char>, start: nat, end: nat, ext: Seq<char>)
    requires
        free_of(title, '$'),
        free_of(title, '/'),
        free_of(ext, '/'),
    ensures
        free_of(name_head(number, title), '$'),
        free_of(chapter_file_name(number, title, start, end, ext), '/'),
{
    lemma_decimal(start);
    lemma_decimal(end);
    lemma_padded3(number);
    let pd = padded3(number);
    let head = name_head(number, title);
    assert forall|t: int| 0 <= t < head.len() implies #[trigger] head[t] != '$' && head[t] != '/' by {
        if t < pd.len() {
            assert(head[t] == pd[t]);
        } else if t >= pd.len() + 3 {
            assert(head[t] == title[t - pd.len() - 3]);
        }
    }
    let m = marker(start, end);
    let ds = decimal(start);
    let de = decimal(end);
    assert forall|t: int| 0 <= t < m.len() implies #[trigger] m[t] != '/' by {
        if 2 <= t < 2 + ds.len() {
            assert(m[t] == ds[t - 2]);
        } else if 3 + ds.len() <= t < 3 + ds.len() + de.len() {
            assert(m[t] == de[t - 3 - ds.len()]);
        }
    }
    let name = chapter_file_name(number, title, start, end, ext);
    assert forall|t: int| 0 <= t < name.len() implies #[trigger] name[t] != '/' by {
        if t < head.len() {
            assert(name[t] == head[t]);
        } else if t < head.len() + m.len() {
            assert(name[t] == m[t - head.len()]);
        } else {
            assert(name[t] == ext[t - head.len() - m.len()]);
        }
    }
}

/// A name free of '/' joined to a path that does not end in '/' splits
/// back into the two.
proof fn lemma_join_split(p: Seq<char>, name: Seq<char>)
    requires
        free_of(name, '/'),
        p.len() == 0 || p.last() != '/',
    ensures
        file_name(join(p, name)) == name,
        parent(join(p, name)) == p,
{
    let full = join(p, name);
    if p.len() == 0 {
        assert(full =~= Seq::<char>::empty() + name);
        lemma_last_index_append(Seq::<char>::empty(), name, '/');
        assert(file_name(full) =~= name);
        assert(parent(full) =~= p);
    } else {
        let ps = p + seq!['/'];
        assert(full =~= ps + name);
        lemma_last_index_append(ps, name, '/');
        assert(ps.drop_last() =~= p);
        assert(last_index_of(ps, '/') == p.len());
        assert(file_name(full) =~= name);
        assert(parent(full) =~= p);
    }
}

/// The marker right after a '$'-free head is the leftmost one, and gives
/// back its start and end.
#[verifier::rlimit(40)]
proof fn lemma_marker_found(head: Seq<char>, start: u64, end: u64, ext: Seq<char>)
    requires
        free_of(head, '$'),
        start <= end,
    ensures
        span_of_name(head + marker(start as nat, end as nat) + ext) == Some(
            TimeSpan { start, duration: Some((end - start) as u64) },
        ),
{
    let ds = decimal(start as nat);
    let de = decimal(end as nat);
    lemma_decimal(start as nat);
    lemma_decimal(end as nat);
    let m = marker(start as nat, end as nat);
    let tail = m + ext;
    let name = head + m + ext;
    assert(name =~= head + tail);
    let k = head.len() as int;
    let a = ds.len() as int;
    let b = de.len() as int;
    assert(m.len() == a + b + 5);
    assert forall|t: int| 0 <= t < m.len() implies #[trigger] name[k + t] == m[t] by {
        assert(name[k + t] == tail[t]);
        assert(tail[t] == m[t]);
    }
    assert(m[0] == '$' && m[1] == '$' && m[2 + a] == '-' && m[3 + a + b] == '$' && m[4 + a + b] == '$');
    assert(name[k] == '$' && name[k + 1] == '$');
    assert forall|t: int| k + 2 <= t < k + 2 + a implies is_digit(#[trigger] name[t]) by {
        assert(name[k + (t - k)] == m[t - k]);
        assert(m[t - k] == ds[t - k - 2]);
    }
    assert(name[k + (2 + a)] == m[2 + a]);
    lemma_digit_run_exact(name, k + 2, a);
    assert forall|t: int| k + 3 + a <= t < k + 3 + a + b implies is_digit(#[trigger] name[t]) by {
        assert(name[k + (t - k)] == m[t - k]);
        assert(m[t - k] == de[t - k - 3 - a]);
    }
    assert(name[k + (3 + a + b)] == m[3 + a + b]);
    assert(name[k + (4 + a + b)] == m[4 + a + b]);
    lemma_digit_run_exact(name, k + 3 + a, b);
    assert(marker_at(name, k));
    assert forall|j: int| 0 <= j < k implies !marker_at(name, j) by {
        assert(name[j] == head[j]);
    }
    assert(first_marker(name, k));
    assert forall|i: int| #[trigger] first_marker(name, i) implies i == k by {
        if i > k {
            assert(!marker_at(name, k));
        }
    }
    assert forall|t: int| 0 <= t < a implies #[trigger] name.subrange(k + 2, k + 2 + a)[t] == ds[t] by {
        assert(name[k + (2 + t)] == m[2 + t]);
    }
    assert(name.subrange(k + 2, k + 2 + a) =~= ds);
    assert forall|t: int| 0 <= t < b implies #[trigger] name.subrange(k + 3 + a, k + 3 + a + b)[t] == de[t] by {
        assert(name[k + (3 + a + t)] == m[3 + a + t]);
    }
    assert(name.subrange(k + 3 + a, k + 3 + a + b) =~= de);
    assert(span_of_name(name) == span_of_marker(name, k));
}

/// The round trip of the chapter path codec: the path of a chapter decodes
/// to the real file and the chapter's span, for a title free of '$' and
/// '/', an extension free of '/', a real path that does not end in '/',
/// and a start not after the end.
pub proof fn lemma_chapter_path_round_trip(
    p: Seq<char>,
    number: nat,
    title: Seq<char>,
    start: u64,
    end: u64,
    ext: Seq<char>,
)
    requires
        start <= end,
        free_of(title, '$'),
        free_of(title, '/'),
        free_of(ext, '/'),
        p.len() == 0 || p.last() != '/',
    ensures
        decode_path(join(p, chapter_file_name(number, title, start as nat, end as nat, ext))) == (
            p,
            Some(TimeSpan { start, duration: Some((end - start) as u64) }),
        ),
{
    let name = chapter_file_name(number, title, start as nat, end as nat, ext);
    lemma_name_parts(number, title, start as nat, end as nat, ext);
    lemma_join_split(p, name);
    lemma_marker_found(name_head(number, title), start, end, ext);
}

/// The round trip stated on chapters: the path of a chapter of `p` decodes
/// to `p` and the chapter's span, for a title free of '$' and '/', a path
/// that does not end in '/', and a chapter that does not end before it
/// starts.
pub proof fn lemma_chapter_round_trip(p: Seq<char>, chap: Chapter)
    requires
        chap.start <= chap.end,
        free_of(chap.title@, '$'),
        free_of(chap.title@, '/'),
        p.len() == 0 || p.last() != '/',
    ensures
        decode_path(chapter_path(p, chap)) == (
            p,
            Some(TimeSpan { start: chap.start, duration: Some((chap.end - chap.start) as u64) }),
        ),
{
    let f = file_name(p);
    lemma_last_index_bounds(p, '/');
    assert(free_of(f, '/')) by {
        assert forall|t: int| 0 <= t < f.len() implies #[trigger] f[t] != '/' by {
            assert(f[t] == p[last_index_of(p, '/') + 1 + t]);
        }
    }
    let ext = dotted_extension(p);
    lemma_last_index_bounds(f, '.');
    assert(free_of(ext, '/')) by {
        assert forall|t: int| 0 <= t < ext.len() implies #[trigger] ext[t] != '/' by {
            if t > 0 {
                assert(ext[t] == f[last_index_of(f, '.') + t]);
            }
        }
    }
    lemma_chapter_path_round_trip(p, chap.number as nat, chap.title@, chap.start, chap.end, ext);
}

/// Where a chapter that starts at `start` ends: one chapter length later,
/// or at the end of the file when less than a third of a chapter would be
/// left after it.
pub open spec fn chapter_end(start: nat, total: nat, len: nat) -> nat {
    if (total as int) < start + len + len / 3 {
        total
    } else {
        start + len
    }
}

/// The `(start, end)` of the chapters of a file of `total` milliseconds,
/// from `start` on, for chapters of `len` milliseconds.
pub open spec fn chapter_bounds(start: nat, total: nat, len: nat) -> Seq<(nat, nat)>
    decreases total - start,
{
    if start < total && len > 0 {
        seq![(start, chapter_end(start, total, len))] + chapter_bounds(
            chapter_end(start, total, len),
            total,
            len,
        )
    } else {
        Seq::empty()
    }
}

/// The title of the chapter numbered `k`: `Part <k>`.
pub open spec fn part_title(k: nat) -> Seq<char> {
    seq!['P', 'a', 'r', 't', ' '] + decimal(k)
}

/// Splits an audio file of `duration` seconds into chapters of
/// `chapter_minutes` minutes; a tail shorter than a third of a chapter is
/// added to the last chapter. Chapter `k` is titled `Part <k>`.
pub fn split_chapters(duration: u32, chapter_minutes: u32) -> (r: Vec<Chapter>)
    requires
        chapter_minutes > 0,
    ensures
        r@.len() == chapter_bounds(0, duration as nat * 1000, chapter_minutes as nat * 60000).len(),
        forall|k: int|
            0 <= k < r@.len() ==> {
                let b = chapter_bounds(0, duration as nat * 1000, chapter_minutes as nat * 60000)[k];
                &&& (#[trigger] r@[k]).start == b.0
                &&& r@[k].end == b.1
                &&& r@[k].number == k
                &&& r@[k].title@ == part_title(k as nat)
            },
{
    let total: u64 = duration as u64 * 1000;
    let len: u64 = chapter_minutes as u64 * 60000;
    let ghost all = chapter_bounds(0, total as nat, len as nat);
    let ghost done: Seq<(nat, nat)> = Seq::empty();
    let mut chaps: Vec<Chapter> = Vec::new();
    let mut count: u32 = 0;
    let mut start: u64 = 0;
    assert(all == done + chapter_bounds(start as nat, total as nat, len as nat));
    while start < total
        invariant
            total == duration as nat * 1000,
            len == chapter_minutes as nat * 60000,
            len >= 60000,
            start <= total,
            start < total ==> start == count as nat * len,
            all == chapter_bounds(0, total as nat, len as nat),
            all == done + chapter_bounds(start as nat, total as nat, len as nat),
            done.len() == count,
            chaps@.len() == count,
            forall|k: int|
                0 <= k < count ==> {
                    &&& (#[trigger] chaps@[k]).start == done[k].0
                    &&& chaps@[k].end == done[k].1
                    &&& chaps@[k].number == k
                    &&& chaps@[k].title@ == part_title(k as nat)
                },
        decreases total - start,
    {
        assert(count < 100_000_000) by (nonlinear_arith)
            requires
                count as nat * len < total,
                total <= 4_294_967_295_000,
                len >= 60000,
        ;
        let end: u64 = if total < start + len + len / 3 {
            total
        } else {
            start + len
        };
        let mut title = String::new();
        push_char(&mut title, 'P');
        push_char(&mut title, 'a');
        push_char(&mut title, 'r');
        push_char(&mut title, 't');
        push_char(&mut title, ' ');
        let ghost t0 = title@;
        assert(t0 =~= seq!['P', 'a', 'r', 't', ' ']);
        push_decimal(&mut title, count as u64);
        proof {
            let rest = chapter_bounds(end as nat, total as nat, len as nat);
            assert(chapter_bounds(start as nat, total as nat, len as nat) == seq![(start as nat, end as nat)] + rest);
            assert(all =~= done.push((start as nat, end as nat)) + rest);
            done = done.push((start as nat, end as nat));
        }
        chaps.push(Chapter { title, start, end, number: count });
        assert(end < total ==> end == (count as nat + 1) * len) by (nonlinear_arith)
            requires
                end < total ==> end == start + len,
                start == count as nat * len,
        ;
        count = count + 1;
        start = end;
    }
    assert(chapter_bounds(start as nat, total as nat, len as nat) =~= Seq::<(nat, nat)>::empty());
    assert(all =~= done);
    chaps
}

} // verus!
