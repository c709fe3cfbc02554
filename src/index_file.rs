//! The persisted form of the cache index: one line per committed entry,
//! `<file id> <size> <last access> <key length> <key>\n`, the key's length
//! counted in characters so that a key may hold any character.
use vstd::prelude::*;
use crate::cache::{has_key, keys_unique, lemma_restore_identity, lookup, restored, total_size, CacheEntry};
use crate::text::{
    chars_of, decimal, digit_run, digit_run_at, digits_value, is_digit, lemma_decimal,
    lemma_digit_run, lemma_digit_run_exact, parse_digits, push_char, push_decimal, push_str,
    all_digits,
};

verus! {

/// What the index file keeps of an entry: key, size, last access, file id.
pub open spec fn entry_view(e: CacheEntry) -> (Seq<char>, u64, u64, u64) {
    (e.key@, e.size, e.last_access, e.file_id)
}

/// What the index file keeps of a sequence of entries.
pub open spec fn entries_view(s: Seq<CacheEntry>) -> Seq<(Seq<char>, u64, u64, u64)> {
    s.map_values(|e: CacheEntry| entry_view(e))
}

/// The line of one entry.
pub open spec fn entry_line(e: CacheEntry) -> Seq<char> {
    decimal(e.file_id as nat) + seq![' '] + decimal(e.size as nat) + seq![' '] + decimal(
        e.last_access as nat,
    ) + seq![' '] + decimal(e.key@.len()) + seq![' '] + e.key@ + seq!['\n']
}

/// The text of an index: the lines of its entries in order.
pub open spec fn index_text(s: Seq<CacheEntry>) -> Seq<char>
    decreases s.len(),
{
    if s.len() == 0 {
        Seq::empty()
    } else {
        index_text(s.drop_last()) + entry_line(s.last())
    }
}

/// The number written at `pos`, followed by a space, and the position
/// after that space.
#[verifier::opaque]
pub open spec fn field_at(t: Seq<char>, pos: int) -> Option<(u64, int)> {
    let a = digit_run(t, pos);
    let v = digits_value(t.subrange(pos, pos + a));
    if 0 <= pos && a > 0 && v <= u64::MAX && pos + a < t.len() && t[pos + a] == ' ' {
        Some((v as u64, pos + a + 1))
    } else {
        None
    }
}

/// The entry whose line starts at `pos`, and the position after it.
pub open spec fn line_at(t: Seq<char>, pos: int) -> Option<((Seq<char>, u64, u64, u64), int)> {
    match field_at(t, pos) {
        None => None,
        Some((id, p1)) => match field_at(t, p1) {
            None => None,
            Some((size, p2)) => match field_at(t, p2) {
                None => None,
                Some((last, p3)) => match field_at(t, p3) {
                    None => None,
                    Some((len, p4)) => if p4 + len < t.len() && t[p4 + len] == '\n' {
                        Some(((t.subrange(p4, p4 + len), size, last, id), p4 + len + 1))
                    } else {
                        None
                    },
                },
            },
        },
    }
}

/// The entries of the lines from `pos` to the end, or `None` when a line
/// is malformed.
pub open spec fn parse_from(t: Seq<char>, pos: int) -> Option<Seq<(Seq<char>, u64, u64, u64)>>
    decreases t.len() - pos,
{
    if pos < 0 || pos >= t.len() {
        Some(Seq::empty())
    } else {
        match line_at(t, pos) {
            None => None,
            Some((e, next)) => if pos < next <= t.len() {
                match parse_from(t, next) {
                    Some(rest) => Some(seq![e] + rest),
                    None => None,
                }
            } else {
                None
            },
        }
    }
}

/// Appends the numeral of `x` followed by a space.
fn push_field(r: &mut String, x: u64)
    ensures
        final(r)@ == old(r)@ + decimal(x as nat) + seq![' '],
{
    push_decimal(r, x);
    let ghost r1 = r@;
    push_char(r, ' ');
    assert(r@ =~= r1 + seq![' ']);
}

/// Appends the line of one entry.
fn push_entry_line(r: &mut String, e: &CacheEntry)
    ensures
        final(r)@ == old(r)@ + entry_line(*e),
{
    let ghost r0 = r@;
    push_field(r, e.file_id);
    push_field(r, e.size);
    push_field(r, e.last_access);
    let n = e.key.as_str().unicode_len();
    push_field(r, n as u64);
    let ghost r1 = r@;
    push_str(r, e.key.as_str());
    push_char(r, '\n');
    assert(r@ =~= r1 + e.key@ + seq!['\n']);
    assert(r@ =~= r0 + entry_line(*e));
}

/// Writes the index as text.
pub fn index_to_text(entries: &Vec<CacheEntry>) -> (r: String)
    ensures
        r@ == index_text(entries@),
{
    let mut r = String::new();
    let mut i: usize = 0;
    while i < entries.len()
        invariant
            i <= entries@.len(),
            r@ == index_text(entries@.subrange(0, i as int)),
        decreases entries@.len() - i,
    {
        push_entry_line(&mut r, &entries[i]);
        proof {
            assert(entries@.subrange(0, i + 1).drop_last() =~= entries@.subrange(0, i as int));
        }
        i = i + 1;
    }
    assert(entries@.subrange(0, entries@.len() as int) =~= entries@);
    r
}

/// The number at `pos` followed by a space, as `field_at` reads it.
fn field_at_exec(t: &Vec<char>, pos: usize) -> (r: Option<(u64, usize)>)
    requires
        pos <= t@.len(),
    ensures
        match r {
            Some((v, q)) => field_at(t@, pos as int) == Some((v, q as int)) && pos < q <= t@.len(),
            None => field_at(t@, pos as int) is None,
        },
{
    let a = digit_run_at(t, pos);
    proof {
        lemma_digit_run(t@, pos as int);
        reveal(field_at);
    }
    if a == 0 || t.len() - pos - a < 1 || t[pos + a] != ' ' {
        return None;
    }
    assert(all_digits(t@.subrange(pos as int, pos + a)));
    match parse_digits(t, pos, pos + a) {
        None => None,
        Some(v) => Some((v, pos + a + 1)),
    }
}

/// Reads an index written by `index_to_text`: the entries of its lines,
/// or `None` when a line is malformed.
pub fn parse_index(text: &str) -> (r: Option<Vec<CacheEntry>>)
    ensures
        match r {
            Some(v) => parse_from(text@, 0) == Some(entries_view(v@)),
            None => parse_from(text@, 0) is None,
        },
{
    let t = chars_of(text);
    let mut out: Vec<CacheEntry> = Vec::new();
    let mut pos: usize = 0;
    while pos < t.len()
        invariant
            t@ == text@,
            pos <= t@.len(),
            parse_from(t@, 0) == match parse_from(t@, pos as int) {
                Some(rest) => Some(entries_view(out@) + rest),
                None => None,
            },
        decreases t@.len() - pos,
    {
        let f1 = field_at_exec(&t, pos);
        let (id, p1) = match f1 { Some(x) => x, None => { return None; } };
        let f2 = field_at_exec(&t, p1);
        let (size, p2) = match f2 { Some(x) => x, None => { return None; } };
        let f3 = field_at_exec(&t, p2);
        let (last, p3) = match f3 { Some(x) => x, None => { return None; } };
        let f4 = field_at_exec(&t, p3);
        let (len, p4) = match f4 { Some(x) => x, None => { return None; } };
        if len >= (t.len() - p4) as u64 {
            return None;
        }
        let len = len as usize;
        let end = p4 + len;
        if t[end] != '\n' {
            return None;
        }
        let mut key = String::new();
        let mut j: usize = p4;
        while j < end
            invariant
                end == p4 + len,
                p4 <= j <= end < t@.len(),
                key@ == t@.subrange(p4 as int, j as int),
            decreases p4 + len - j,
        {
            push_char(&mut key, t[j]);
            j = j + 1;
        }
        let ghost e = (key@, size, last, id);
        let ghost next = (p4 + len + 1) as int;
        assert(line_at(t@, pos as int) == Some((e, next)));
        let ghost before = out@;
        out.push(CacheEntry { key, size, last_access: last, file_id: id });
        proof {
            assert(entries_view(out@) =~= entries_view(before).push(e));
            match parse_from(t@, next) {
                Some(rest) => {
                    assert(entries_view(before) + (seq![e] + rest) =~= entries_view(out@) + rest);
                },
                None => {},
            }
        }
        pos = end + 1;
    }
    assert(entries_view(out@) + Seq::empty() =~= entries_view(out@));
    Some(out)
}

/// A number followed by a space.
pub open spec fn field_text(x: nat) -> Seq<char> {
    decimal(x) + seq![' ']
}

proof fn lemma_field_in(p: Seq<char>, x: u64, rest: Seq<char>)
    ensures
        field_at(p + (field_text(x as nat) + rest), p.len() as int) == Some(
            (x, (p.len() + field_text(x as nat).len()) as int),
        ),
{
    reveal(field_at);
    let d = decimal(x as nat);
    let t = p + (field_text(x as nat) + rest);
    let n = p.len() as int;
    lemma_decimal(x as nat);
    assert forall|k: int| n <= k < n + d.len() implies is_digit(#[trigger] t[k]) by {
        assert(t[k] == d[k - n]);
    }
    assert(t[n + d.len()] == ' ');
    lemma_digit_run_exact(t, n, d.len() as int);
    assert(t.subrange(n, n + d.len()) =~= d);
}

#[verifier::rlimit(100)]
proof fn lemma_line_in(p: Seq<char>, e: CacheEntry, rest: Seq<char>)
    requires
        e.key@.len() <= u64::MAX,
    ensures
        line_at(p + entry_line(e) + rest, p.len() as int) == Some(
            (entry_view(e), (p.len() + entry_line(e).len()) as int),
        ),
{
    let k = e.key@;
    let klen = k.len() as u64;
    let tail = k + seq!['\n'] + rest;
    let t = p + entry_line(e) + rest;
    let f1 = field_text(e.file_id as nat);
    let f2 = field_text(e.size as nat);
    let f3 = field_text(e.last_access as nat);
    let f4 = field_text(klen as nat);
    let p1 = p + f1;
    let p2 = p1 + f2;
    let p3 = p2 + f3;
    let p4 = p3 + f4;
    assert(entry_line(e) =~= f1 + f2 + f3 + f4 + k + seq!['\n']);
    assert(t =~= p + (f1 + (f2 + f3 + f4 + tail)));
    lemma_field_in(p, e.file_id, f2 + f3 + f4 + tail);
    assert(t =~= p1 + (f2 + (f3 + f4 + tail)));
    lemma_field_in(p1, e.size, f3 + f4 + tail);
    assert(t =~= p2 + (f3 + (f4 + tail)));
    lemma_field_in(p2, e.last_access, f4 + tail);
    assert(t =~= p3 + (f4 + tail));
    lemma_field_in(p3, klen, tail);
    assert(t =~= p4 + tail);
    let q = p4.len() as int;
    assert(t.subrange(q, q + klen) =~= k);
    assert(t[q + klen] == '\n');
}

proof fn lemma_index_text_front(s: Seq<CacheEntry>)
    requires
        s.len() > 0,
    ensures
        index_text(s) == entry_line(s[0]) + index_text(s.drop_first()),
    decreases s.len(),
{
    if s.len() == 1 {
        assert(s.drop_last() =~= Seq::<CacheEntry>::empty());
        assert(s.drop_first() =~= Seq::<CacheEntry>::empty());
        assert(index_text(s) =~= entry_line(s[0]) + index_text(s.drop_first()));
    } else {
        lemma_index_text_front(s.drop_last());
        assert(s.drop_last().drop_first() =~= s.drop_first().drop_last());
        assert(s.drop_first().last() == s.last());
        assert(index_text(s) =~= entry_line(s[0]) + index_text(s.drop_first()));
    }
}

proof fn lemma_parse_after(p: Seq<char>, s: Seq<CacheEntry>)
    requires
        forall|i: int| 0 <= i < s.len() ==> (#[trigger] s[i]).key@.len() <= u64::MAX,
    ensures
        parse_from(p + index_text(s), p.len() as int) == Some(entries_view(s)),
    decreases s.len(),
{
    if s.len() == 0 {
        assert(p + index_text(s) =~= p);
        assert(entries_view(s) =~= Seq::empty());
    } else {
        let rest = s.drop_first();
        let line = entry_line(s[0]);
        lemma_index_text_front(s);
        let t = p + index_text(s);
        assert(t =~= p + line + index_text(rest));
        lemma_line_in(p, s[0], index_text(rest));
        let p2 = p + line;
        assert(t =~= p2 + index_text(rest));
        assert forall|i: int| 0 <= i < rest.len() implies (#[trigger] rest[i]).key@.len() <= u64::MAX by {
            assert(rest[i] == s[i + 1]);
        }
        lemma_parse_after(p2, rest);
        assert(entries_view(s) =~= seq![entry_view(s[0])] + entries_view(rest));
    }
}

/// Writing an index and reading it back gives its entries: each key, size,
/// last access time and file id, in order.
pub proof fn lemma_index_round_trip(s: Seq<CacheEntry>)
    requires
        forall|i: int| 0 <= i < s.len() ==> (#[trigger] s[i]).key@.len() <= u64::MAX,
    ensures
        parse_from(index_text(s), 0) == Some(entries_view(s)),
{
    lemma_parse_after(Seq::empty(), s);
    assert(Seq::<char>::empty() + index_text(s) =~= index_text(s));
}

proof fn lemma_same_view_total(s: Seq<CacheEntry>, t: Seq<CacheEntry>)
    requires
        entries_view(s) == entries_view(t),
    ensures
        total_size(s) == total_size(t),
    decreases s.len(),
{
    assert(s.len() == entries_view(s).len() && t.len() == entries_view(t).len());
    if s.len() > 0 {
        assert(entries_view(s.drop_last()) =~= entries_view(s).drop_last());
        assert(entries_view(t.drop_last()) =~= entries_view(t).drop_last());
        assert(entry_view(s.last()) == entries_view(s)[s.len() - 1]);
        assert(entry_view(t.last()) == entries_view(t)[t.len() - 1]);
        lemma_same_view_total(s.drop_last(), t.drop_last());
    }
}

/// Saving the index and opening it again in a new process, with all files
/// still on disk, gives every fingerprint the same file as before: `reread`
/// is what reading the saved text gives back, whose view equals that of
/// the saved entries.
pub proof fn lemma_reopen_keeps_lookups(
    saved: Seq<CacheEntry>,
    reread: Seq<CacheEntry>,
    present: Seq<u64>,
    max_files: nat,
    max_bytes: nat,
    k: Seq<char>,
)
    requires
        keys_unique(saved),
        saved.len() <= max_files,
        total_size(saved) <= max_bytes,
        forall|i: int| 0 <= i < saved.len() ==> present.contains(#[trigger] saved[i].file_id) && saved[i].file_id < u64::MAX,
        entries_view(reread) == entries_view(saved),
    ensures
        lookup(restored(reread, present, max_files, max_bytes), k) == lookup(saved, k),
{
    assert(entries_view(reread).len() == reread.len());
    assert(entries_view(saved).len() == saved.len());
    assert(reread.len() == saved.len());
    assert forall|i: int| 0 <= i < saved.len() implies (#[trigger] reread[i]).key@ == saved[i].key@ && reread[i].file_id
        == saved[i].file_id && reread[i].size == saved[i].size by {
        assert(entries_view(reread)[i] == entries_view(saved)[i]);
    }
    lemma_same_view_total(reread, saved);
    assert forall|a: int, b: int| 0 <= a < reread.len() && 0 <= b < reread.len() && a != b implies (#[trigger] reread[a]).key@ != (#[trigger] reread[b]).key@ by {
        assert(reread[a].key@ == saved[a].key@ && reread[b].key@ == saved[b].key@);
    }
    assert forall|i: int| 0 <= i < reread.len() implies present.contains(#[trigger] reread[i].file_id) && reread[i].file_id < u64::MAX by {
        assert(reread[i].file_id == saved[i].file_id);
    }
    lemma_restore_identity(reread, present, max_files, max_bytes);
    if has_key(saved, k) {
        let i = choose|i: int| 0 <= i < saved.len() && (#[trigger] saved[i]).key@ == k;
        assert(reread[i].key@ == k);
        assert(has_key(reread, k));
        let c1 = choose|c: int| 0 <= c < saved.len() && (#[trigger] saved[c]).key@ == k;
        let c2 = choose|c: int| 0 <= c < reread.len() && (#[trigger] reread[c]).key@ == k;
        assert(reread[c1].key@ == k);
        assert(saved[c2].key@ == k);
        assert(c1 == c2);
    } else {
        assert(!has_key(reread, k)) by {
            if has_key(reread, k) {
                let i = choose|i: int| 0 <= i < reread.len() && (#[trigger] reread[i]).key@ == k;
                assert(saved[i].key@ == k);
            }
        }
    }
}

} // verus!
