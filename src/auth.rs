//! Shared-secret login and signed access tokens.
//!
//! A client logs in with `<salt>|<hash>`, both base64, where the salt is
//! 32 bytes and the hash is the SHA-256 of the shared secret followed by the
//! salt. It gets back a token: 32 random bytes, the big-endian expiry time
//! in seconds and an HMAC-SHA256 signature of both under the server's own
//! secret, all base64 encoded.
use vstd::prelude::*;
use vstd::string::StringSliceAdditionalSpecFns;

verus! {

/// The padded standard base64 text of some bytes.
pub uninterp spec fn base64_of(b: Seq<u8>) -> Seq<char>;

/// The bytes of a padded standard base64 text, or `None` if malformed.
pub uninterp spec fn base64_decoded(b: Seq<u8>) -> Option<Seq<u8>>;

/// The HMAC-SHA256 tag of `data` under `key`.
pub uninterp spec fn hmac_sha256(key: Seq<u8>, data: Seq<u8>) -> Seq<u8>;

/// The SHA-256 digest of `data`.
pub uninterp spec fn sha256(data: Seq<u8>) -> Seq<u8>;

/// Relies on data_encoding::BASE64.encode, which asserts that its input
/// is at most `usize::MAX / 512` bytes long.
#[verifier::external_body]
fn base64_encode(b: &[u8]) -> (r: String)
    requires
        b@.len() <= usize::MAX / 512,
    ensures
        r@ == base64_of(b@),
{
    data_encoding::BASE64.encode(b)
}

/// Relies on data_encoding::BASE64.decode: the decoded bytes, or an error
/// for malformed input; it asserts that the input is at most
/// `usize::MAX / 8` bytes long.
#[verifier::external_body]
fn base64_decode(b: &[u8]) -> (r: Option<Vec<u8>>)
    requires
        b@.len() <= usize::MAX / 8,
    ensures
        match r {
            Some(v) => base64_decoded(b@) == Some(v@),
            None => base64_decoded(b@) is None,
        },
{
    data_encoding::BASE64.decode(b).ok()
}

/// Relies on ring::hmac::sign with HMAC_SHA256, whose tag is 32 bytes.
#[verifier::external_body]
fn hmac_sign(key: &[u8], data: &[u8]) -> (r: Vec<u8>)
    ensures
        r@ == hmac_sha256(key@, data@),
        r@.len() == 32,
{
    let k = ring::hmac::Key::new(ring::hmac::HMAC_SHA256, key);
    ring::hmac::sign(&k, data).as_ref().to_vec()
}

/// Relies on ring::hmac::verify with HMAC_SHA256: it succeeds exactly when
/// the tag of `data` under `key` equals `tag`.
#[verifier::external_body]
fn hmac_verify(key: &[u8], data: &[u8], tag: &[u8]) -> (r: bool)
    ensures
        r == (hmac_sha256(key@, data@) == tag@),
{
    let k = ring::hmac::Key::new(ring::hmac::HMAC_SHA256, key);
    ring::hmac::verify(&k, data, tag).is_ok()
}

/// Relies on ring::digest::digest with SHA256.
#[verifier::external_body]
fn sha256_digest(data: &[u8]) -> (r: Vec<u8>)
    ensures
        r@ == sha256(data@),
{
    ring::digest::digest(&ring::digest::SHA256, data).as_ref().to_vec()
}

/// Relies on ring::rand::SystemRandom::fill: `n` bytes from the system's
/// random source, or `None` when it fails.
#[verifier::external_body]
fn random_bytes(n: usize) -> (r: Option<Vec<u8>>)
    ensures
        r matches Some(v) ==> v@.len() == n,
{
    let mut v = vec![0u8; n];
    match ring::rand::SecureRandom::fill(&ring::rand::SystemRandom::new(), &mut v) {
        Ok(()) => Some(v),
        Err(_) => None,
    }
}

/// The value of big-endian bytes.
pub open spec fn be_value(s: Seq<u8>) -> nat
    decreases s.len(),
{
    if s.len() == 0 {
        0
    } else {
        be_value(s.drop_last()) * 256 + s.last() as nat
    }
}

/// Relies on u64::to_be_bytes: the eight bytes of `v`, most significant
/// first.
#[verifier::external_body]
fn u64_to_be(v: u64) -> (r: Vec<u8>)
    ensures
        r@.len() == 8,
        be_value(r@) == v,
{
    v.to_be_bytes().to_vec()
}

/// Relies on u64::from_be_bytes: the number whose big-endian bytes these
/// are.
#[verifier::external_body]
fn u64_from_be(b: &[u8]) -> (r: u64)
    requires
        b@.len() == 8,
    ensures
        r == be_value(b@),
{
    let mut a = [0u8; 8];
    a.copy_from_slice(b);
    u64::from_be_bytes(a)
}

/// Whether a secret file of `size` bytes is refused as too long: more
/// than 128 bytes.
pub fn secret_too_long(size: u64) -> (r: bool)
    ensures
        r == (size > 128),
{
    size > 128
}

/// The data a token signs: its random bytes followed by its expiry.
pub fn prepare_data(random: &[u8], validity: &[u8]) -> (r: Vec<u8>)
    ensures
        r@ == random@ + validity@,
{
    let mut r: Vec<u8> = Vec::new();
    let mut i: usize = 0;
    while i < random.len()
        invariant
            i <= random@.len(),
            r@ == random@.subrange(0, i as int),
        decreases random@.len() - i,
    {
        r.push(random[i]);
        i = i + 1;
    }
    let mut j: usize = 0;
    while j < validity.len()
        invariant
            j <= validity@.len(),
            r@ == random@ + validity@.subrange(0, j as int),
        decreases validity@.len() - j,
    {
        r.push(validity[j]);
        j = j + 1;
    }
    assert(random@.subrange(0, random@.len() as int) =~= random@);
    assert(validity@.subrange(0, validity@.len() as int) =~= validity@);
    r
}

/// Why a token text was refused.
#[derive(Clone, Copy, Debug, PartialEq, Eq, Structural)]
pub enum TokenError {
    /// It does not decode to 72 bytes.
    InvalidSize,
    /// It is not base64.
    InvalidEncoding,
}

/// An access token: 32 random bytes, the expiry as 8 big-endian bytes, and
/// a 32-byte signature of the two.
#[derive(Clone, Debug, PartialEq, Eq)]
pub struct Token {
    random: Vec<u8>,
    validity: Vec<u8>,
    signature: Vec<u8>,
}

impl Token {
    pub closed spec fn random(&self) -> Seq<u8> {
        self.random@
    }

    pub closed spec fn validity_bytes(&self) -> Seq<u8> {
        self.validity@
    }

    pub closed spec fn signature(&self) -> Seq<u8> {
        self.signature@
    }

    /// The lengths of the three parts.
    pub open spec fn wf(&self) -> bool {
        self.random().len() == 32 && self.validity_bytes().len() == 8 && self.signature().len() == 32
    }

    /// The token's bytes: random, expiry, signature.
    pub open spec fn bytes(&self) -> Seq<u8> {
        self.random() + self.validity_bytes() + self.signature()
    }

    /// A token with the given random bytes, valid for `validity_hours`
    /// hours from `now` (the expiry saturating at `u64::MAX`), signed under
    /// `secret`.
    pub fn with_random(random: Vec<u8>, now: u64, validity_hours: u32, secret: &[u8]) -> (t: Token)
        requires
            random@.len() == 32,
        ensures
            t.wf(),
            t.random() == random@,
            be_value(t.validity_bytes()) == if now + validity_hours * 3600 <= u64::MAX {
                now + validity_hours * 3600
            } else {
                u64::MAX as int
            },
            t.signature() == hmac_sha256(secret@, random@ + t.validity_bytes()),
    {
        let validity = u64_to_be(now.saturating_add(validity_hours as u64 * 3600));
        let data = prepare_data(random.as_slice(), validity.as_slice());
        let signature = hmac_sign(secret, data.as_slice());
        Token { random, validity, signature }
    }

    /// A fresh token valid for `validity_hours` hours from `now`, signed
    /// under `secret`; `None` when the system's random source fails.
    pub fn new(validity_hours: u32, secret: &[u8], now: u64) -> (r: Option<Token>)
        ensures
            r matches Some(t) ==> t.wf() && t.signature() == hmac_sha256(secret@, t.random() + t.validity_bytes())
                && be_value(t.validity_bytes()) == if now + validity_hours * 3600 <= u64::MAX {
                now + validity_hours * 3600
            } else {
                u64::MAX as int
            },
    {
        match random_bytes(32) {
            Some(random) => Some(Token::with_random(random, now, validity_hours, secret)),
            None => None,
        }
    }

    /// The expiry time, in seconds.
    pub fn validity(&self) -> (r: u64)
        requires
            self.wf(),
        ensures
            r == be_value(self.validity_bytes()),
    {
        u64_from_be(self.validity.as_slice())
    }

    /// Whether the signature is that of the token's data under `secret`,
    /// and the token has not expired at `now`.
    pub fn is_valid(&self, secret: &[u8], now: u64) -> (r: bool)
        requires
            self.wf(),
        ensures
            r == (hmac_sha256(secret@, self.random() + self.validity_bytes()) == self.signature()
                && be_value(self.validity_bytes()) > now),
    {
        let data = prepare_data(self.random.as_slice(), self.validity.as_slice());
        if !hmac_verify(secret, data.as_slice(), self.signature.as_slice()) {
            return false;
        }
        self.validity() > now
    }

    /// The token as text: the base64 of its bytes.
    pub fn to_text(&self) -> (r: String)
        requires
            self.wf(),
        ensures
            r@ == base64_of(self.bytes()),
    {
        let a = prepare_data(self.random.as_slice(), self.validity.as_slice());
        let b = prepare_data(a.as_slice(), self.signature.as_slice());
        base64_encode(b.as_slice())
    }

    /// Reads a token from its text: it must be base64 of exactly 72 bytes.
    pub fn from_text(s: &str) -> (r: Result<Token, TokenError>)
        ensures
            s.spec_bytes().len() <= usize::MAX / 8 ==> match base64_decoded(s.spec_bytes()) {
                None => r == Err::<Token, TokenError>(TokenError::InvalidEncoding),
                Some(b) => if b.len() == 72 {
                    r matches Ok(t) && t.wf() && t.bytes() == b
                } else {
                    r == Err::<Token, TokenError>(TokenError::InvalidSize)
                },
            },
            s.spec_bytes().len() > usize::MAX / 8 ==> r == Err::<Token, TokenError>(TokenError::InvalidEncoding),
    {
        let raw = s.as_bytes();
        if raw.len() > usize::MAX / 8 {
            return Err(TokenError::InvalidEncoding);
        }
        let bytes = match base64_decode(raw) {
            Some(b) => b,
            None => {
                return Err(TokenError::InvalidEncoding);
            },
        };
        if bytes.len() != 72 {
            return Err(TokenError::InvalidSize);
        }
        let random = slice_part(&bytes, 0, 32);
        let validity = slice_part(&bytes, 32, 40);
        let signature = slice_part(&bytes, 40, 72);
        let t = Token { random, validity, signature };
        assert(t.bytes() =~= bytes@);
        Ok(t)
    }
}

/// The bytes `b[from..to]`.
fn slice_part(b: &Vec<u8>, from: usize, to: usize) -> (r: Vec<u8>)
    requires
        from <= to <= b@.len(),
    ensures
        r@ == b@.subrange(from as int, to as int),
{
    let mut r: Vec<u8> = Vec::new();
    let mut i: usize = from;
    while i < to
        invariant
            from <= i <= to <= b@.len(),
            r@ == b@.subrange(from as int, i as int),
        decreases to - i,
    {
        r.push(b[i]);
        i = i + 1;
    }
    r
}

/// The parts of `s` between the '|' separators, as `str::split` gives them.
pub open spec fn split_bar(s: Seq<u8>) -> Seq<Seq<u8>>
    decreases s.len(),
{
    if s.len() == 0 {
        seq![Seq::empty()]
    } else {
        let p = split_bar(s.drop_last());
        if s.last() == 124u8 {
            p.push(Seq::empty())
        } else {
            p.update(p.len() - 1, p.last().push(s.last()))
        }
    }
}

/// The parts that decode as base64, decoded, in order.
pub open spec fn decoded_parts(ps: Seq<Seq<u8>>) -> Seq<Seq<u8>>
    decreases ps.len(),
{
    if ps.len() == 0 {
        Seq::empty()
    } else {
        let d = decoded_parts(ps.drop_last());
        match base64_decoded(ps.last()) {
            Some(x) => d.push(x),
            None => d,
        }
    }
}

/// Whether a login text proves knowledge of the shared secret: exactly two
/// of its parts decode, the first, the salt, has 32 bytes, and the second is
/// the SHA-256 of the secret followed by the salt.
pub open spec fn login_ok(shared: Seq<u8>, text: Seq<u8>) -> bool {
    let d = decoded_parts(split_bar(text));
    &&& text.len() <= usize::MAX / 8
    &&& d.len() == 2
    &&& d[0].len() == 32
    &&& sha256(shared + d[0]) == d[1]
}

/// Whether a token text is accepted at `now`: it decodes to 72 bytes whose
/// last 32 are the signature of the first 40 under `secret`, and whose
/// expiry, bytes 32 to 40, is after `now`.
pub open spec fn token_accepted(secret: Seq<u8>, text: Seq<u8>, now: u64) -> bool {
    &&& text.len() <= usize::MAX / 8
    &&& match base64_decoded(text) {
        Some(b) => b.len() == 72 && hmac_sha256(secret, b.subrange(0, 40)) == b.subrange(40, 72)
            && be_value(b.subrange(32, 40)) > now,
        None => false,
    }
}

/// The secrets of the server: the shared secret clients log in with, the
/// key tokens are signed with, and how long a token is valid.
#[derive(Clone, Debug)]
pub struct Secrets {
    shared_secret: Vec<u8>,
    server_secret: Vec<u8>,
    token_validity_hours: u32,
}

impl Secrets {
    /// The bytes of the shared secret.
    pub closed spec fn shared(&self) -> Seq<u8> {
        self.shared_secret@
    }

    /// The key tokens are signed with.
    pub closed spec fn server(&self) -> Seq<u8> {
        self.server_secret@
    }

    pub closed spec fn hours(&self) -> u32 {
        self.token_validity_hours
    }

    pub fn new(shared_secret: &str, server_secret: Vec<u8>, token_validity_hours: u32) -> (r: Secrets)
        ensures
            r.shared() == shared_secret.spec_bytes(),
            r.server() == server_secret@,
            r.hours() == token_validity_hours,
    {
        let b = shared_secret.as_bytes();
        let mut v: Vec<u8> = Vec::new();
        let mut i: usize = 0;
        while i < b.len()
            invariant
                i <= b@.len(),
                v@ == b@.subrange(0, i as int),
            decreases b@.len() - i,
        {
            v.push(b[i]);
            i = i + 1;
        }
        assert(b@.subrange(0, b@.len() as int) =~= b@);
        Secrets { shared_secret: v, server_secret, token_validity_hours }
    }

    /// Whether a login text proves knowledge of the shared secret.
    pub fn auth_token_ok(&self, token: &str) -> (r: bool)
        ensures
            r == login_ok(self.shared(), token.spec_bytes()),
    {
        let b = token.as_bytes();
        if b.len() > usize::MAX / 8 {
            return false;
        }
        let ghost whole = b@;
        let mut cur: Vec<u8> = Vec::new();
        let mut dec: Vec<Vec<u8>> = Vec::new();
        let ghost done: Seq<Seq<u8>> = Seq::empty();
        let ghost dv: Seq<Seq<u8>> = Seq::empty();
        let mut i: usize = 0;
        assert(whole.subrange(0, 0) =~= Seq::<u8>::empty());
        while i < b.len()
            invariant
                b@ == whole,
                whole.len() <= usize::MAX / 8,
                i <= whole.len(),
                split_bar(whole.subrange(0, i as int)) == done.push(cur@),
                cur@.len() <= i,
                dv == decoded_parts(done),
                dec@.len() == dv.len(),
                forall|k: int| 0 <= k < dv.len() ==> (#[trigger] dec@[k])@ == dv[k],
            decreases whole.len() - i,
        {
            let c = b[i];
            proof {
                assert(whole.subrange(0, i + 1).drop_last() =~= whole.subrange(0, i as int));
                assert(whole.subrange(0, i + 1).last() == c);
            }
            if c == 124u8 {
                let ghost part = cur@;
                match base64_decode(cur.as_slice()) {
                    Some(x) => {
                        proof {
                            dv = dv.push(x@);
                        }
                        dec.push(x);
                    },
                    None => {},
                }
                proof {
                    assert(done.push(part).drop_last() =~= done);
                    done = done.push(part);
                    assert forall|k: int| 0 <= k < dv.len() implies (#[trigger] dec@[k])@ == dv[k] by {}
                }
                cur = Vec::new();
            } else {
                let ghost p0 = done.push(cur@);
                cur.push(c);
                assert(p0.update(p0.len() - 1, p0.last().push(c)) =~= done.push(cur@));
            }
            i = i + 1;
        }
        let ghost part = cur@;
        match base64_decode(cur.as_slice()) {
            Some(x) => {
                proof {
                    dv = dv.push(x@);
                }
                dec.push(x);
            },
            None => {},
        }
        proof {
            assert(whole.subrange(0, i as int) =~= whole);
            assert(done.push(part).drop_last() =~= done);
            assert(decoded_parts(split_bar(whole)) == dv);
        }
        if dec.len() != 2 {
            return false;
        }
        if dec[0].len() != 32 {
            return false;
        }
        let salted = prepare_data(self.shared_secret.as_slice(), dec[0].as_slice());
        let hash = sha256_digest(salted.as_slice());
        bytes_eq(&hash, &dec[1])
    }

    /// A fresh token text valid for the configured hours from `now`;
    /// `None` when the system's random source fails.
    pub fn new_auth_token(&self, now: u64) -> (r: Option<String>)
        ensures
            r matches Some(s) ==> exists|t: Token| t.wf() && s@ == base64_of(#[trigger] t.bytes())
                && t.signature() == hmac_sha256(self.server(), t.random() + t.validity_bytes())
                && be_value(t.validity_bytes()) == if now + self.hours() * 3600 <= u64::MAX {
                now + self.hours() * 3600
            } else {
                u64::MAX as int
            },
    {
        match Token::new(self.token_validity_hours, self.server_secret.as_slice(), now) {
            Some(t) => {
                let s = t.to_text();
                assert(t.wf() && s@ == base64_of(t.bytes()));
                Some(s)
            },
            None => None,
        }
    }

    /// Whether a token text is accepted at `now`.
    pub fn token_ok(&self, token: &str, now: u64) -> (r: bool)
        ensures
            r == token_accepted(self.server(), token.spec_bytes(), now),
    {
        match Token::from_text(token) {
            Ok(t) => {
                let r = t.is_valid(self.server_secret.as_slice(), now);
                proof {
                    let b = t.bytes();
                    assert(b.subrange(0, 40) =~= t.random() + t.validity_bytes());
                    assert(b.subrange(40, 72) =~= t.signature());
                    assert(b.subrange(32, 40) =~= t.validity_bytes());
                }
                r
            },
            Err(_) => false,
        }
    }
}

/// Whether two byte strings are equal.
fn bytes_eq(a: &Vec<u8>, b: &Vec<u8>) -> (r: bool)
    ensures
        r == (a@ == b@),
{
    if a.len() != b.len() {
        return false;
    }
    let mut i: usize = 0;
    while i < a.len()
        invariant
            a@.len() == b@.len(),
            i <= a@.len(),
            forall|k: int| 0 <= k < i ==> a@[k] == b@[k],
        decreases a@.len() - i,
    {
        if a[i] != b[i] {
            assert(a@[i as int] != b@[i as int]);
            return false;
        }
        i = i + 1;
    }
    assert(a@ =~= b@);
    true
}

} // verus!
