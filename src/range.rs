//! Byte-range normalisation and the chunking of a ranged response body.
use vstd::prelude::*;

verus! {

/// One end of a requested byte range.
#[derive(Clone, Copy, Debug, PartialEq, Eq, Structural)]
pub enum RangeBound {
    Included(u64),
    Excluded(u64),
    Unbounded,
}

/// A requested byte range: its start and its end.
pub type ByteRange = (RangeBound, RangeBound);

/// Size of the chunks in which a file body is read and sent.
pub const CHUNK_SIZE: usize = 8192;

/// The inclusive pair of offsets that a range selects in a file of `len`
/// bytes, or `None` when the range cannot be satisfied.
pub open spec fn satisfiable(r: ByteRange, len: u64) -> Option<(u64, u64)> {
    match r {
        (RangeBound::Included(start), RangeBound::Included(end)) => {
            if start <= end && start < len {
                Some((start, if end < len { end } else { (len - 1) as u64 }))
            } else {
                None
            }
        },
        (RangeBound::Included(start), RangeBound::Unbounded) => {
            if start < len {
                Some((start, (len - 1) as u64))
            } else {
                None
            }
        },
        (RangeBound::Unbounded, RangeBound::Included(suffix)) => {
            if suffix > 0 && len > 0 {
                Some((if suffix < len { (len - suffix) as u64 } else { 0 }, (len - 1) as u64))
            } else {
                None
            }
        },
        _ => None,
    }
}

/// `x - 1`, or 0 when `x` is 0.
pub fn checked_dec(x: u64) -> (r: u64)
    ensures
        r == if x > 0 { (x - 1) as u64 } else { 0 },
{
    if x > 0 {
        x - 1
    } else {
        x
    }
}

/// Normalises a requested range against a file of `len` bytes.
///
/// `start..=end` is satisfiable when `start <= end` and `start < len`, the
/// end being cut to the last byte; `start..` when `start < len`; a suffix
/// `..=n` when `n > 0` and the file is not empty, selecting its last `n`
/// bytes (or all of them). Every other form is unsatisfiable.
pub fn to_satisfiable_range(r: ByteRange, len: u64) -> (res: Option<(u64, u64)>)
    ensures
        res == satisfiable(r, len),
        res matches Some((a, b)) ==> a <= b < len,
{
    match r {
        (RangeBound::Included(start), RangeBound::Included(end)) => {
            if start <= end && start < len {
                Some((start, if end < len { end } else { len - 1 }))
            } else {
                None
            }
        },
        (RangeBound::Included(start), RangeBound::Unbounded) => {
            if start < len {
                Some((start, len - 1))
            } else {
                None
            }
        },
        (RangeBound::Unbounded, RangeBound::Included(suffix)) => {
            if suffix > 0 && len > 0 {
                Some((if suffix < len { len - suffix } else { 0 }, len - 1))
            } else {
                None
            }
        },
        _ => None,
    }
}

/// Turns an inclusive pair of offsets back into a range.
pub fn into_range_bounds(i: (u64, u64)) -> (r: ByteRange)
    ensures
        r == (RangeBound::Included(i.0), RangeBound::Included(i.1)),
{
    (RangeBound::Included(i.0), RangeBound::Included(i.1))
}

/// What a ranged response of a file sends: its status, its headers' values
/// and which bytes of the file form its body.
#[derive(Clone, Copy, Debug, PartialEq, Eq, Structural)]
pub struct ServePlan {
    /// 206 Partial Content when true, 200 OK otherwise.
    pub partial: bool,
    /// Whether the response announces `Accept-Ranges: bytes`.
    pub accept_ranges: bool,
    /// Offset of the first byte sent.
    pub start: u64,
    /// Number of bytes sent, the `Content-Length`.
    pub length: u64,
    /// Length of the whole file, the total in `Content-Range`.
    pub total: u64,
}

impl ServePlan {
    /// The `Content-Range` of a partial response: first and last offset.
    pub open spec fn spec_content_range(self) -> (u64, u64) {
        (self.start, (self.start + self.length - 1) as u64)
    }

    /// First and last offset sent by a partial response.
    pub fn content_range(&self) -> (r: (u64, u64))
        requires
            self.length > 0,
            self.start + self.length <= u64::MAX,
        ensures
            r == self.spec_content_range(),
    {
        (self.start, self.start + self.length - 1)
    }
}

/// The plan of a response that serves a file of `file_len` bytes for an
/// optional requested range.
pub open spec fn spec_plan(range: Option<ByteRange>, file_len: u64) -> ServePlan {
    match range {
        None => ServePlan { partial: false, accept_ranges: true, start: 0, length: file_len, total: file_len },
        Some(r) => match satisfiable(r, file_len) {
            Some((a, b)) => ServePlan {
                partial: true,
                accept_ranges: false,
                start: a,
                length: (b - a + 1) as u64,
                total: file_len,
            },
            None => ServePlan { partial: false, accept_ranges: false, start: 0, length: file_len, total: file_len },
        },
    }
}

/// Decides how a file of `file_len` bytes is served for a request with an
/// optional range: a satisfiable range gives 206 with that slice, no range
/// gives 200 with the whole file and `Accept-Ranges`, and an unsatisfiable
/// range degrades to 200 with the whole file.
pub fn plan_response(range: Option<ByteRange>, file_len: u64) -> (p: ServePlan)
    ensures
        p == spec_plan(range, file_len),
        p.start + p.length <= file_len,
        p.total == file_len,
{
    match range {
        None => ServePlan { partial: false, accept_ranges: true, start: 0, length: file_len, total: file_len },
        Some(r) => match to_satisfiable_range(r, file_len) {
            Some((a, b)) => ServePlan {
                partial: true,
                accept_ranges: false,
                start: a,
                length: b - a + 1,
                total: file_len,
            },
            None => ServePlan { partial: false, accept_ranges: false, start: 0, length: file_len, total: file_len },
        },
    }
}

/// A served range is a contiguous slice of the file, and its length is that
/// of the normalised range, or the whole file when there is none.
pub proof fn lemma_served_length(range: Option<ByteRange>, file_len: u64)
    ensures
        spec_plan(range, file_len).length == match range {
            Some(r) => match satisfiable(r, file_len) {
                Some((a, b)) => (b - a + 1) as u64,
                None => file_len,
            },
            None => file_len,
        },
        spec_plan(range, file_len).start + spec_plan(range, file_len).length <= file_len,
{
}

/// Limits the body read from a file to a number of bytes. The reader of the
/// file asks `wants_read` before each read of at most `CHUNK_SIZE` bytes and
/// hands what it read to `accept`, which gives back the chunk to send.
#[derive(Debug)]
pub struct ChunkStream {
    remains: u64,
    done: bool,
}

impl View for ChunkStream {
    type V = (u64, bool);

    closed spec fn view(&self) -> (u64, bool) {
        (self.remains, self.done)
    }
}

impl ChunkStream {
    /// A stream with no limit but the end of the file.
    pub fn new() -> (s: ChunkStream)
        ensures
            s@ == (u64::MAX, false),
    {
        ChunkStream::new_with_limit(u64::MAX)
    }

    /// A stream that sends at most `remains` bytes.
    pub fn new_with_limit(remains: u64) -> (s: ChunkStream)
        ensures
            s@ == (remains, false),
    {
        ChunkStream { remains, done: false }
    }

    /// Bytes still to send.
    pub fn remains(&self) -> (r: u64)
        ensures
            r == self@.0,
    {
        self.remains
    }

    /// Whether the stream has ended.
    pub fn is_done(&self) -> (r: bool)
        ensures
            r == self@.1,
    {
        self.done
    }

    /// Whether another read is needed; once the limit is reached the stream
    /// ends.
    pub fn wants_read(&mut self) -> (r: bool)
        ensures
            r == (!old(self)@.1 && old(self)@.0 > 0),
            final(self)@.0 == old(self)@.0,
            final(self)@.1 == !r,
    {
        if self.done {
            false
        } else if self.remains == 0 {
            self.done = true;
            false
        } else {
            true
        }
    }

    /// Takes the bytes of one read and returns the chunk to send: a prefix of
    /// them no longer than what remains. An empty read is the end of the
    /// file and ends the stream.
    pub fn accept(&mut self, data: &[u8]) -> (r: Option<Vec<u8>>)
        ensures
            old(self)@.1 ==> r is None && final(self)@ == old(self)@,
            !old(self)@.1 && data@.len() == 0 ==> r is None && final(self)@ == (old(self)@.0, true),
            !old(self)@.1 && data@.len() > 0 ==> {
                let n = if old(self)@.0 < data@.len() { old(self)@.0 as int } else { data@.len() as int };
                &&& r matches Some(c) && c@ == data@.subrange(0, n)
                &&& final(self)@ == ((old(self)@.0 - n) as u64, false)
            },
    {
        if self.done {
            return None;
        }
        if data.len() == 0 {
            self.done = true;
            return None;
        }
        let n: u64 = if self.remains < data.len() as u64 { self.remains } else { data.len() as u64 };
        self.remains = self.remains - n;
        let mut chunk: Vec<u8> = Vec::new();
        let mut i: usize = 0;
        while i < n as usize
            invariant
                n <= data@.len(),
                i <= n,
                chunk@ == data@.subrange(0, i as int),
            decreases n - i,
        {
            chunk.push(data[i]);
            i = i + 1;
        }
        Some(chunk)
    }
}

/// What a `ChunkStream` limited to `remains` bytes sends when the file is
/// read from the current position in reads of `chunk` bytes, `data` being
/// the rest of the file: each read gives the next bytes, fewer only at the
/// end of the file, and `accept` sends as much of them as remains.
pub open spec fn stream_output(remains: nat, data: Seq<u8>, chunk: nat) -> Seq<u8>
    decreases data.len(),
{
    if remains == 0 || data.len() == 0 || chunk == 0 {
        Seq::empty()
    } else {
        let k = if chunk < data.len() { chunk } else { data.len() };
        let sent = if remains < k { remains } else { k };
        data.subrange(0, sent as int) + stream_output((remains - sent) as nat, data.subrange(k as int, data.len() as int), chunk)
    }
}

/// The chunks sent are the first `remains` bytes of the rest of the file,
/// or all of it when it is shorter.
pub proof fn lemma_stream_output(remains: nat, data: Seq<u8>, chunk: nat)
    requires
        chunk > 0,
    ensures
        stream_output(remains, data, chunk) == data.subrange(0, if remains < data.len() { remains as int } else { data.len() as int }),
    decreases data.len(),
{
    if remains == 0 || data.len() == 0 {
        assert(data.subrange(0, 0) =~= Seq::<u8>::empty());
    } else {
        let k = if chunk < data.len() { chunk } else { data.len() };
        let sent = if remains < k { remains } else { k };
        let rest = data.subrange(k as int, data.len() as int);
        lemma_stream_output((remains - sent) as nat, rest, chunk);
        let n = if remains < data.len() { remains as int } else { data.len() as int };
        if sent < k {
            assert((remains - sent) as nat == 0);
            assert(data.subrange(0, sent as int) + Seq::<u8>::empty() =~= data.subrange(0, n));
        } else {
            let m = if ((remains - sent) as nat) < rest.len() { (remains - sent) as int } else { rest.len() as int };
            assert(data.subrange(0, sent as int) + rest.subrange(0, m) =~= data.subrange(0, n));
        }
    }
}

/// A file served for a range, read from the planned start in chunks of
/// `CHUNK_SIZE` bytes, sends exactly the planned slice of the file: the
/// normalised range, or the whole file when there is none or it cannot be
/// satisfied.
pub proof fn lemma_served_bytes(range: Option<ByteRange>, file: Seq<u8>)
    requires
        file.len() <= u64::MAX,
    ensures
        ({
            let p = spec_plan(range, file.len() as u64);
            stream_output(p.length as nat, file.subrange(p.start as int, file.len() as int), CHUNK_SIZE as nat)
                == file.subrange(p.start as int, p.start + p.length)
        }),
{
    let p = spec_plan(range, file.len() as u64);
    let rest = file.subrange(p.start as int, file.len() as int);
    lemma_stream_output(p.length as nat, rest, CHUNK_SIZE as nat);
    assert(rest.subrange(0, p.length as int) =~= file.subrange(p.start as int, p.start + p.length));
}

} // verus!
