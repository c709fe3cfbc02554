//! How a request for an audio file is served: directly, remuxed, from the
//! transcoding cache, or transcoded; and how a transcoder's output is split
//! between the client and the cache.
use vstd::prelude::*;
use crate::chapters::TimeSpan;
use crate::text::{decimal, push_char, push_decimal, push_str};

verus! {

/// The quality a file is transcoded to; `Passthrough` remuxes without
/// re-encoding.
#[derive(Clone, Copy, Debug, PartialEq, Eq, Structural)]
pub enum QualityLevel {
    Low,
    Medium,
    High,
    Passthrough,
}

/// The letter that stands for a quality in a fingerprint.
pub open spec fn quality_letter(q: QualityLevel) -> char {
    match q {
        QualityLevel::Low => 'l',
        QualityLevel::Medium => 'm',
        QualityLevel::High => 'h',
        QualityLevel::Passthrough => 'p',
    }
}

/// The fingerprint of a transcoded artifact:
/// `<path>/<quality>[/<start>[-<duration>]]`.
pub open spec fn fingerprint(path: Seq<char>, quality: QualityLevel, span: Option<TimeSpan>) -> Seq<char> {
    let base = path + seq!['/', quality_letter(quality)];
    match span {
        None => base,
        Some(s) => base + seq!['/'] + decimal(s.start as nat) + match s.duration {
            Some(d) => seq!['-'] + decimal(d as nat),
            None => Seq::empty(),
        },
    }
}

/// The cache key of a file transcoded to a quality, over an optional span.
pub fn cache_key(path: &str, quality: QualityLevel, span: Option<TimeSpan>) -> (r: String)
    ensures
        r@ == fingerprint(path@, quality, span),
{
    let mut r = String::new();
    push_str(&mut r, path);
    let letter = match quality {
        QualityLevel::Low => 'l',
        QualityLevel::Medium => 'm',
        QualityLevel::High => 'h',
        QualityLevel::Passthrough => 'p',
    };
    let ghost r0 = r@;
    push_char(&mut r, '/');
    push_char(&mut r, letter);
    assert(r@ =~= r0 + seq!['/', letter]);
    match span {
        None => {},
        Some(s) => {
            let ghost b = r@;
            push_char(&mut r, '/');
            push_decimal(&mut r, s.start);
            let ghost m = r@;
            match s.duration {
                Some(d) => {
                    push_char(&mut r, '-');
                    let ghost m2 = r@;
                    push_decimal(&mut r, d);
                    assert(r@ =~= m + (seq!['-'] + decimal(d as nat)));
                },
                None => {
                    assert(r@ =~= m + Seq::<char>::empty());
                },
            }
            assert(m =~= b + seq!['/'] + decimal(s.start as nat));
        },
    }
    r
}

/// The way a request is served.
#[derive(Clone, Copy, Debug, PartialEq, Eq, Structural)]
pub enum ServeStrategy {
    /// The file itself, with range semantics.
    Direct,
    /// A span of the file remuxed without re-encoding, not cached.
    Remux,
    /// Transcoded without the cache.
    Transcode,
    /// Looked up in the transcoding cache under its fingerprint.
    CacheLookup,
}

/// Chooses how to serve a request: without a quality, the file itself, or
/// a remux of the chapter's span when there is one; with a quality, the
/// cache when it is enabled, else a plain transcoding.
pub fn choose_strategy(quality: Option<QualityLevel>, span: Option<TimeSpan>, cache_enabled: bool) -> (r: ServeStrategy)
    ensures
        r == match quality {
            None => if span is Some { ServeStrategy::Remux } else { ServeStrategy::Direct },
            Some(_) => if cache_enabled { ServeStrategy::CacheLookup } else { ServeStrategy::Transcode },
        },
{
    match quality {
        None => if span.is_some() {
            ServeStrategy::Remux
        } else {
            ServeStrategy::Direct
        },
        Some(_) => if cache_enabled {
            ServeStrategy::CacheLookup
        } else {
            ServeStrategy::Transcode
        },
    }
}

/// What follows a cache lookup.
#[derive(Clone, Copy, Debug, PartialEq, Eq, Structural)]
pub enum CachedServe {
    /// Serve the cached artifact with range semantics.
    RangeServe,
    /// Remux from the cached artifact to honour a seek.
    RemuxSeek,
    /// Transcode the original, sending it to the client and the cache.
    TranscodeAndCache,
}

/// After a lookup: a hit is served directly, or remuxed when the request
/// seeks; a miss is transcoded and cached.
pub fn after_lookup(hit: bool, seek: bool) -> (r: CachedServe)
    ensures
        r == if !hit { CachedServe::TranscodeAndCache } else if seek { CachedServe::RemuxSeek } else { CachedServe::RangeServe },
{
    if !hit {
        CachedServe::TranscodeAndCache
    } else if seek {
        CachedServe::RemuxSeek
    } else {
        CachedServe::RangeServe
    }
}

/// What happened to a transcoder's output stream being split between the
/// client and the cache.
#[derive(Clone, Copy, Debug, PartialEq, Eq, Structural)]
pub enum TeeEvent {
    /// A chunk was read from the transcoder.
    Chunk,
    /// The transcoder's output ended normally.
    Eof,
    /// The transcoder failed.
    SourceFailed,
    /// The client went away.
    ClientGone,
    /// Writing the cache file failed.
    CacheFailed,
}

/// What the splitter does next.
#[derive(Clone, Copy, Debug, PartialEq, Eq, Structural)]
pub enum TeeAction {
    /// Write the chunk to the client and to the cache file.
    Forward,
    /// Publish the cache file.
    Commit,
    /// Discard the cache file.
    Rollback,
    /// Nothing: the cache file was already published or discarded.
    Ignore,
}

/// The splitter's state: whether its cache file is still open.
#[derive(Debug)]
pub struct Tee {
    open: bool,
}

impl View for Tee {
    type V = bool;

    closed spec fn view(&self) -> bool {
        self.open
    }
}

impl Tee {
    pub fn new() -> (t: Tee)
        ensures
            t@,
    {
        Tee { open: true }
    }

    /// Whether the cache file is still being written.
    pub fn is_open(&self) -> (r: bool)
        ensures
            r == self@,
    {
        self.open
    }

    /// Reacts to an event: chunks are forwarded while the file is open; a
    /// normal end commits it; any failure, the client's departure included,
    /// rolls it back. Commit and rollback close the file, and each is given
    /// at most once.
    pub fn on_event(&mut self, e: TeeEvent) -> (a: TeeAction)
        ensures
            !old(self)@ ==> a == TeeAction::Ignore && !final(self)@,
            old(self)@ ==> a == match e {
                TeeEvent::Chunk => TeeAction::Forward,
                TeeEvent::Eof => TeeAction::Commit,
                _ => TeeAction::Rollback,
            },
            final(self)@ == (old(self)@ && e == TeeEvent::Chunk),
    {
        if !self.open {
            return TeeAction::Ignore;
        }
        match e {
            TeeEvent::Chunk => TeeAction::Forward,
            TeeEvent::Eof => {
                self.open = false;
                TeeAction::Commit
            },
            _ => {
                self.open = false;
                TeeAction::Rollback
            },
        }
    }
}

} // verus!
