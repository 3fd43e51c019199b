use chacha20poly1305::aead::generic_array::GenericArray;
use chacha20poly1305::aead::stream::{NewStream, StreamBE32, StreamPrimitive};
use chacha20poly1305::{ChaCha20Poly1305, Key, KeyInit};
use vstd::arithmetic::div_mod::lemma_fundamental_div_mod_converse;
use super::{FileMetadata, Resource};
use vstd::prelude::*;

verus! {

/// Plaintext bytes per sealed segment.
pub const CHUNK_SIZE: usize = 65536;

/// Bytes of authentication tag that sealing adds to each segment.
pub const TAG_SIZE: usize = 16;

/// Bytes of stream nonce written in front of the sealed segments.
pub const NONCE_SIZE: usize = 7;

/// Size of a full sealed segment.
pub open spec fn block_size() -> int {
    CHUNK_SIZE + TAG_SIZE
}

/// The plaintext size that a stored object of `encrypted_size` bytes
/// decrypts to; objects too short to hold a nonce and one tag count as empty.
pub open spec fn spec_plaintext_size(encrypted_size: int) -> int {
    if encrypted_size < NONCE_SIZE + TAG_SIZE {
        0
    } else {
        let body = encrypted_size - NONCE_SIZE;
        let last = body % block_size();
        body / block_size() * CHUNK_SIZE + if last >= TAG_SIZE {
            last - TAG_SIZE
        } else {
            0
        }
    }
}

/// Number of sealed segments for `n` plaintext bytes: every full chunk,
/// then a final (possibly empty) one.
pub open spec fn segment_count(n: int) -> int {
    n / CHUNK_SIZE as int + 1
}

/// Size of the stored object for `n` plaintext bytes.
pub open spec fn sealed_size(n: int) -> int {
    NONCE_SIZE + n + TAG_SIZE * segment_count(n)
}

/// Reconstructs the plaintext size from the size of a stored object.
pub fn plaintext_size(encrypted_size: u64) -> (n: u64)
    ensures
        n == spec_plaintext_size(encrypted_size as int),
{
    let min_size = (NONCE_SIZE + TAG_SIZE) as u64;
    if encrypted_size < min_size {
        return 0;
    }
    let ciphertext_size = encrypted_size - NONCE_SIZE as u64;
    let chunk_with_tag = (CHUNK_SIZE + TAG_SIZE) as u64;
    let full_chunks = ciphertext_size / chunk_with_tag;
    let last_chunk_ciphertext = ciphertext_size % chunk_with_tag;
    let last_chunk_plaintext = if last_chunk_ciphertext >= TAG_SIZE as u64 {
        last_chunk_ciphertext - TAG_SIZE as u64
    } else {
        0
    };
    assert(full_chunks * 65536 <= ciphertext_size) by (nonlinear_arith)
        requires
            full_chunks == ciphertext_size / 65552,
    ;
    assert(full_chunks * 65536 + last_chunk_ciphertext <= ciphertext_size) by (nonlinear_arith)
        requires
            full_chunks == ciphertext_size / 65552,
            last_chunk_ciphertext == ciphertext_size % 65552,
    ;
    full_chunks * CHUNK_SIZE as u64 + last_chunk_plaintext
}

/// The size reconstruction undoes the size growth of sealing: an object
/// sealed from `n` plaintext bytes reports `n` bytes again.
pub proof fn lemma_plaintext_size_of_sealed(n: nat)
    ensures
        spec_plaintext_size(sealed_size(n as int)) == n,
{
    let q = n as int / 65536;
    let r = n as int % 65536;
    assert(n == q * 65536 + r && 0 <= r < 65536) by (nonlinear_arith)
        requires
            q == n as int / 65536,
            r == n as int % 65536,
    ;
    let body = sealed_size(n as int) - NONCE_SIZE;
    assert(body == q * 65552 + (r + 16)) by (nonlinear_arith)
        requires
            body == n + 16 * (q + 1),
            n == q * 65536 + r,
    ;
    lemma_fundamental_div_mod_converse(body, 65552, q, r + 16);
    assert(q * 65536 + r == n);
}

} // verus!

verus! {

#[verifier::external_type_specification]
#[verifier::external_body]
pub struct ExAeadError(chacha20poly1305::aead::Error);

/// What the STREAM construction (32-bit big-endian counter) over
/// ChaCha20-Poly1305 produces when it seals `plaintext` as segment
/// `position` of the stream keyed by `key` and `nonce`, `last` marking the
/// final segment.
pub uninterp spec fn chacha_stream_seal(
    key: Seq<u8>,
    nonce: Seq<u8>,
    position: u32,
    last: bool,
    plaintext: Seq<u8>,
) -> Seq<u8>;

/// What the same construction gives back when it opens `ciphertext` as
/// segment `position`: the plaintext, or `None` when authentication fails.
pub uninterp spec fn chacha_stream_open(
    key: Seq<u8>,
    nonce: Seq<u8>,
    position: u32,
    last: bool,
    ciphertext: Seq<u8>,
) -> Option<Seq<u8>>;

/// Seals one segment of at most a chunk with
/// `StreamBE32::<ChaCha20Poly1305>::encrypt` of the `aead` crate.  Trusted:
/// at that size the call succeeds (the cipher refuses only messages of
/// `u32::MAX` or more 64-byte blocks), the output is the plaintext followed
/// by a 16-byte tag, and opening it at the same key, nonce, position and
/// flag gives the plaintext back.
#[verifier::external_body]
fn stream_seal_segment(
    key: &[u8; 32],
    nonce: &[u8; 7],
    position: u32,
    last: bool,
    plaintext: &[u8],
) -> (res: Result<Vec<u8>, chacha20poly1305::aead::Error>)
    requires
        plaintext@.len() <= CHUNK_SIZE,
    ensures
        res is Ok,
        res matches Ok(c) ==> {
            &&& c@ == chacha_stream_seal(key@, nonce@, position, last, plaintext@)
            &&& c@.len() == plaintext@.len() + TAG_SIZE
            &&& chacha_stream_open(key@, nonce@, position, last, c@) == Some(plaintext@)
        },
{
    let cipher = ChaCha20Poly1305::new(Key::from_slice(key));
    let stream = StreamBE32::from_aead(cipher, GenericArray::from_slice(nonce));
    stream.encrypt(position, last, plaintext)
}

/// Opens one segment with `StreamBE32::<ChaCha20Poly1305>::decrypt` of the
/// `aead` crate.  Trusted: the result is the named opening of the segment.
#[verifier::external_body]
fn stream_open_segment(
    key: &[u8; 32],
    nonce: &[u8; 7],
    position: u32,
    last: bool,
    ciphertext: &[u8],
) -> (res: Result<Vec<u8>, chacha20poly1305::aead::Error>)
    ensures
        res is Ok <==> chacha_stream_open(key@, nonce@, position, last, ciphertext@) is Some,
        res matches Ok(p) ==> chacha_stream_open(key@, nonce@, position, last, ciphertext@)
            == Some(p@),
{
    let cipher = ChaCha20Poly1305::new(Key::from_slice(key));
    let stream = StreamBE32::from_aead(cipher, GenericArray::from_slice(nonce));
    stream.decrypt(position, last, ciphertext)
}

/// Fills a buffer of `len` bytes with `rand::fill` (thread-local CSPRNG).
/// Trusted only for the length; the contents are random.
#[verifier::external_body]
fn random_bytes(len: usize) -> (b: Vec<u8>)
    ensures
        b@.len() == len,
{
    let mut buf = vec![0u8; len];
    rand::fill(&mut buf[..]);
    buf
}

/// Sealing failed: the STREAM counter or the cipher's length limit ran out.
#[derive(Debug)]
pub struct SealError;

/// Why a stored object could not be decrypted.
#[derive(Debug)]
pub enum OpenError {
    /// The object is shorter than the nonce.
    Truncated,
    /// A full segment did not authenticate.
    Segment,
    /// The final segment did not authenticate.
    FinalSegment,
}

/// Seals a plaintext stream one chunk at a time: full chunks as inner
/// segments, the first short chunk as the final segment.
pub struct SegmentSealer {
    key: [u8; 32],
    nonce: [u8; 7],
    position: u32,
    finished: bool,
}

impl SegmentSealer {
    pub closed spec fn key(&self) -> Seq<u8> {
        self.key@
    }

    pub closed spec fn nonce(&self) -> Seq<u8> {
        self.nonce@
    }

    pub closed spec fn position(&self) -> u32 {
        self.position
    }

    pub closed spec fn finished(&self) -> bool {
        self.finished
    }

    /// A sealer for the stream keyed by `key` and `nonce`, at its first segment.
    pub fn new(key: [u8; 32], nonce: [u8; 7]) -> (s: Self)
        ensures
            s.key() == key@,
            s.nonce() == nonce@,
            s.position() == 0,
            !s.finished(),
    {
        SegmentSealer { key, nonce, position: 0, finished: false }
    }

    /// A sealer for a fresh stream under `key`, with a random nonce.
    pub fn start(key: [u8; 32]) -> (s: Self)
        ensures
            s.key() == key@,
            s.nonce().len() == NONCE_SIZE,
            s.position() == 0,
            !s.finished(),
    {
        let b = random_bytes(NONCE_SIZE);
        let nonce = [b[0], b[1], b[2], b[3], b[4], b[5], b[6]];
        SegmentSealer::new(key, nonce)
    }

    /// The nonce, which is stored in front of the sealed segments.
    pub fn nonce_bytes(&self) -> (b: Vec<u8>)
        ensures
            b@ == self.nonce(),
    {
        let b = vec![
            self.nonce[0],
            self.nonce[1],
            self.nonce[2],
            self.nonce[3],
            self.nonce[4],
            self.nonce[5],
            self.nonce[6],
        ];
        assert(b@ =~= self.nonce@);
        b
    }

    /// Seals the next chunk read from the plaintext.  A full chunk becomes an
    /// inner segment (refused once the counter has reached its maximum); a
    /// shorter one, possibly empty, becomes the final segment and ends the
    /// stream.
    pub fn seal_chunk(&mut self, chunk: &[u8]) -> (res: Result<Vec<u8>, SealError>)
        requires
            !old(self).finished(),
            chunk@.len() <= CHUNK_SIZE,
        ensures
            final(self).key() == old(self).key(),
            final(self).nonce() == old(self).nonce(),
            final(self).finished() == (chunk@.len() < CHUNK_SIZE || res is Err),
            chunk@.len() < CHUNK_SIZE ==> res is Ok,
            chunk@.len() == CHUNK_SIZE ==> (res is Err <==> old(self).position() == u32::MAX),
            res is Ok && chunk@.len() == CHUNK_SIZE ==> final(self).position() == old(self).position() + 1,
            res matches Ok(c) ==> {
                let last = chunk@.len() < CHUNK_SIZE;
                &&& c@ == chacha_stream_seal(
                    old(self).key(),
                    old(self).nonce(),
                    old(self).position(),
                    last,
                    chunk@,
                )
                &&& c@.len() == chunk@.len() + TAG_SIZE
                &&& chacha_stream_open(old(self).key(), old(self).nonce(), old(self).position(), last, c@)
                    == Some(chunk@)
            },
    {
        let last = chunk.len() < CHUNK_SIZE;
        if !last && self.position == u32::MAX {
            self.finished = true;
            return Err(SealError);
        }
        let sealed = stream_seal_segment(&self.key, &self.nonce, self.position, last, chunk);
        match sealed {
            Ok(c) => {
                if last {
                    self.finished = true;
                } else {
                    self.position = self.position + 1;
                }
                Ok(c)
            },
            Err(_) => {
                self.finished = true;
                Err(SealError)
            },
        }
    }
}

/// Opens a sealed stream one block at a time: a full block is an inner
/// segment, a shorter one the final segment.
pub struct SegmentOpener {
    key: [u8; 32],
    nonce: [u8; 7],
    position: u32,
    finished: bool,
}

impl SegmentOpener {
    pub closed spec fn key(&self) -> Seq<u8> {
        self.key@
    }

    pub closed spec fn nonce(&self) -> Seq<u8> {
        self.nonce@
    }

    pub closed spec fn position(&self) -> u32 {
        self.position
    }

    pub closed spec fn finished(&self) -> bool {
        self.finished
    }

    /// An opener for the stream keyed by `key` and `nonce`, at its first segment.
    pub fn new(key: [u8; 32], nonce: [u8; 7]) -> (s: Self)
        ensures
            s.key() == key@,
            s.nonce() == nonce@,
            s.position() == 0,
            !s.finished(),
    {
        SegmentOpener { key, nonce, position: 0, finished: false }
    }

    /// An opener for a stored object whose first bytes are `header`; `None`
    /// when fewer than the nonce's bytes are there.
    pub fn from_header(key: [u8; 32], header: &[u8]) -> (s: Option<Self>)
        ensures
            header@.len() < NONCE_SIZE <==> s is None,
            s matches Some(o) ==> {
                &&& o.key() == key@
                &&& o.nonce() == header@.take(NONCE_SIZE as int)
                &&& o.position() == 0
                &&& !o.finished()
            },
    {
        if header.len() < NONCE_SIZE {
            return None;
        }
        let nonce = [header[0], header[1], header[2], header[3], header[4], header[5], header[6]];
        assert(nonce@ =~= header@.take(7));
        Some(SegmentOpener::new(key, nonce))
    }

    /// Opens the next block read from the stored object.
    pub fn open_block(&mut self, block: &[u8]) -> (res: Result<Vec<u8>, OpenError>)
        requires
            !old(self).finished(),
            0 < block@.len() <= block_size(),
        ensures
            final(self).key() == old(self).key(),
            final(self).nonce() == old(self).nonce(),
            bytes_result(res) == open_segment_result(
                old(self).key(),
                old(self).nonce(),
                old(self).position(),
                block@,
            ),
            final(self).finished() == (block@.len() < block_size() || res is Err),
            res is Ok && block@.len() == block_size() ==> final(self).position() == old(self).position() + 1,
    {
        let last = block.len() < CHUNK_SIZE + TAG_SIZE;
        if !last && self.position == u32::MAX {
            self.finished = true;
            return Err(OpenError::Segment);
        }
        match stream_open_segment(&self.key, &self.nonce, self.position, last, block) {
            Ok(p) => {
                if last {
                    self.finished = true;
                } else {
                    self.position = self.position + 1;
                }
                Ok(p)
            },
            Err(_) => {
                self.finished = true;
                if last {
                    Err(OpenError::FinalSegment)
                } else {
                    Err(OpenError::Segment)
                }
            },
        }
    }
}

/// A decryption result with the plaintext taken as a byte sequence.
pub open spec fn bytes_result<E>(r: Result<Vec<u8>, E>) -> Result<Seq<u8>, E> {
    match r {
        Ok(v) => Ok(v@),
        Err(e) => Err(e),
    }
}

/// The outcome of opening one block (non-empty, at most a full block) at
/// `position`, with the plaintext as a byte sequence.
pub open spec fn open_segment_result(
    key: Seq<u8>,
    nonce: Seq<u8>,
    position: u32,
    block: Seq<u8>,
) -> Result<Seq<u8>, OpenError> {
    let last = block.len() < block_size();
    if !last && position == u32::MAX {
        Err(OpenError::Segment)
    } else {
        match chacha_stream_open(key, nonce, position, last, block) {
            Some(p) => Ok(p),
            None => if last {
                Err(OpenError::FinalSegment)
            } else {
                Err(OpenError::Segment)
            },
        }
    }
}

} // verus!

verus! {

/// Segment `i` of the plaintext: the `i`-th full chunk, or the remainder
/// for the final segment.
pub open spec fn segment_of(pt: Seq<u8>, i: int) -> Seq<u8> {
    let end = if (i + 1) * CHUNK_SIZE <= pt.len() {
        (i + 1) * CHUNK_SIZE
    } else {
        pt.len() as int
    };
    pt.subrange(i * CHUNK_SIZE, end)
}

/// Segment `i` as sealed under `key` and `nonce`.
pub open spec fn sealed_segment(key: Seq<u8>, nonce: Seq<u8>, pt: Seq<u8>, i: int) -> Seq<u8> {
    chacha_stream_seal(
        key,
        nonce,
        i as u32,
        i == segment_count(pt.len() as int) - 1,
        segment_of(pt, i),
    )
}

/// The sealed segments from `i` to the end of the stream.
pub open spec fn sealed_from(key: Seq<u8>, nonce: Seq<u8>, pt: Seq<u8>, i: int) -> Seq<u8>
    decreases segment_count(pt.len() as int) - i,
{
    if i < 0 || i >= segment_count(pt.len() as int) {
        Seq::empty()
    } else {
        sealed_segment(key, nonce, pt, i) + sealed_from(key, nonce, pt, i + 1)
    }
}

/// The stored form of `pt`: the nonce followed by every sealed segment.
pub open spec fn sealed_stream(key: Seq<u8>, nonce: Seq<u8>, pt: Seq<u8>) -> Seq<u8> {
    nonce + sealed_from(key, nonce, pt, 0)
}

/// Opens the blocks of `body` in order, starting at segment `position`:
/// full blocks as inner segments, a shorter rest as the final segment.
pub open spec fn open_blocks(key: Seq<u8>, nonce: Seq<u8>, body: Seq<u8>, position: nat) -> Result<
    Seq<u8>,
    OpenError,
>
    decreases body.len(),
{
    if body.len() == 0 {
        Ok(Seq::empty())
    } else if body.len() >= block_size() {
        if position >= u32::MAX {
            Err(OpenError::Segment)
        } else {
            match chacha_stream_open(key, nonce, position as u32, false, body.take(block_size())) {
                None => Err(OpenError::Segment),
                Some(p) => match open_blocks(key, nonce, body.skip(block_size()), position + 1) {
                    Ok(rest) => Ok(p + rest),
                    Err(e) => Err(e),
                },
            }
        }
    } else {
        match chacha_stream_open(key, nonce, position as u32, true, body) {
            None => Err(OpenError::FinalSegment),
            Some(p) => Ok(p),
        }
    }
}

/// What reading a stored object back gives: its nonce, then its blocks opened.
pub open spec fn opened_stream(key: Seq<u8>, data: Seq<u8>) -> Result<Seq<u8>, OpenError> {
    if data.len() < NONCE_SIZE {
        Err(OpenError::Truncated)
    } else {
        open_blocks(key, data.take(NONCE_SIZE as int), data.skip(NONCE_SIZE as int), 0)
    }
}

/// What a successful seal of segment `i` established about it.
pub open spec fn segment_sealed_ok(key: Seq<u8>, nonce: Seq<u8>, pt: Seq<u8>, i: int) -> bool {
    let last = i == segment_count(pt.len() as int) - 1;
    &&& sealed_segment(key, nonce, pt, i).len() == segment_of(pt, i).len() + TAG_SIZE
    &&& chacha_stream_open(key, nonce, i as u32, last, sealed_segment(key, nonce, pt, i)) == Some(
        segment_of(pt, i),
    )
}

pub open spec fn prefixed(out: Seq<u8>, r: Result<Seq<u8>, OpenError>) -> Result<Seq<u8>, OpenError> {
    match r {
        Ok(rest) => Ok(out + rest),
        Err(e) => Err(e),
    }
}

proof fn lemma_segment_lengths(n: int, i: int)
    requires
        0 <= i < segment_count(n),
        n >= 0,
    ensures
        i < segment_count(n) - 1 ==> (i + 1) * CHUNK_SIZE <= n,
        i == segment_count(n) - 1 ==> n < (i + 1) * CHUNK_SIZE && i * CHUNK_SIZE <= n,
{
    let q = n / 65536;
    assert(q * 65536 <= n < (q + 1) * 65536) by (nonlinear_arith)
        requires
            q == n / 65536,
            n >= 0,
    ;
    if i < q {
        assert((i + 1) * 65536 <= q * 65536) by (nonlinear_arith)
            requires
                i + 1 <= q,
        ;
    }
}

proof fn lemma_open_sealed_from(key: Seq<u8>, nonce: Seq<u8>, pt: Seq<u8>, i: int)
    requires
        0 <= i < segment_count(pt.len() as int),
        segment_count(pt.len() as int) - 1 <= u32::MAX,
        forall|j: int|
            i <= j < segment_count(pt.len() as int) ==> #[trigger] segment_sealed_ok(key, nonce, pt, j),
    ensures
        open_blocks(key, nonce, sealed_from(key, nonce, pt, i), i as nat) == Ok::<Seq<u8>, OpenError>(
            pt.subrange(i * CHUNK_SIZE, pt.len() as int),
        ),
    decreases segment_count(pt.len() as int) - i,
{
    let n = pt.len() as int;
    let c = sealed_segment(key, nonce, pt, i);
    let body = sealed_from(key, nonce, pt, i);
    assert(segment_sealed_ok(key, nonce, pt, i));
    lemma_segment_lengths(n, i);
    if i < segment_count(n) - 1 {
        lemma_open_sealed_from(key, nonce, pt, i + 1);
        assert(body == c + sealed_from(key, nonce, pt, i + 1));
        assert(c.len() == block_size());
        assert(body.take(block_size()) =~= c);
        assert(body.skip(block_size()) =~= sealed_from(key, nonce, pt, i + 1));
        assert(segment_of(pt, i) + pt.subrange((i + 1) * CHUNK_SIZE, n) =~= pt.subrange(
            i * CHUNK_SIZE,
            n,
        ));
    } else {
        assert(sealed_from(key, nonce, pt, i + 1) =~= Seq::<u8>::empty());
        assert(body =~= c);
        assert(c.len() < block_size());
        assert(c.len() > 0);
    }
}

fn append_bytes(out: &mut Vec<u8>, src: &[u8])
    ensures
        final(out)@ == old(out)@ + src@,
{
    let mut k: usize = 0;
    while k < src.len()
        invariant
            k <= src@.len(),
            out@ == old(out)@ + src@.take(k as int),
        decreases src@.len() - k,
    {
        out.push(src[k]);
        assert(src@.take(k + 1) =~= src@.take(k as int).push(src@[k as int]));
        k = k + 1;
    }
    assert(src@.take(src@.len() as int) =~= src@);
}

/// Seals a whole plaintext held in memory, in the stored format: the nonce,
/// then each 64 KiB chunk as an inner segment and the remainder as the
/// final segment.  Fails only when the plaintext has more full chunks than
/// the STREAM counter can number.  What it produces reads back as the
/// plaintext, and its size reports the plaintext's size.
pub fn seal_stream(key: [u8; 32], nonce: [u8; 7], plaintext: &[u8]) -> (res: Result<Vec<u8>, SealError>)
    ensures
        res is Ok <==> plaintext@.len() as int / (CHUNK_SIZE as int) <= u32::MAX,
        res matches Ok(c) ==> {
            &&& c@ == sealed_stream(key@, nonce@, plaintext@)
            &&& c@.len() == sealed_size(plaintext@.len() as int)
            &&& opened_stream(key@, c@) == Ok::<Seq<u8>, OpenError>(plaintext@)
        },
{
    let ghost pt = plaintext@;
    let ghost k = key@;
    let ghost nn = nonce@;
    let n = plaintext.len();
    let mut sealer = SegmentSealer::new(key, nonce);
    let mut out: Vec<u8> = Vec::new();
    append_bytes(&mut out, &nonce);
    let mut off: usize = 0;
    let mut i: usize = 0;
    proof {
        assert(sealed_from(k, nn, pt, 0) =~= Seq::<u8>::empty() + sealed_from(k, nn, pt, 0));
    }
    while n - off >= CHUNK_SIZE
        invariant
            n == pt.len(),
            plaintext@ == pt,
            k == key@,
            nn == nonce@,
            off == i * CHUNK_SIZE,
            off <= n,
            i <= u32::MAX + 1,
            sealer.key() == k,
            sealer.nonce() == nn,
            sealer.position() == i,
            !sealer.finished(),
            i < segment_count(n as int),
            out@.len() == NONCE_SIZE + i * (CHUNK_SIZE + TAG_SIZE),
            out@.take(NONCE_SIZE as int) == nn,
            sealed_from(k, nn, pt, 0) == out@.skip(NONCE_SIZE as int) + sealed_from(k, nn, pt, i as int),
            forall|j: int| 0 <= j < i ==> #[trigger] segment_sealed_ok(k, nn, pt, j),
        decreases n - off,
    {
        proof {
            lemma_segment_lengths(n as int, i as int);
        }
        if i == u32::MAX as usize {
            proof {
                assert((u32::MAX + 1) * 65536 <= n);
                assert(n as int / 65536 >= u32::MAX + 1) by (nonlinear_arith)
                    requires
                        (u32::MAX + 1) * 65536 <= n,
                ;
            }
            return Err(SealError);
        }
        let chunk = &plaintext[off..off + CHUNK_SIZE];
        let sealed = sealer.seal_chunk(chunk);
        let c = match sealed {
            Ok(c) => c,
            Err(_) => {
                return Err(SealError);
            },
        };
        proof {
            assert((i + 1) * 65536 <= n) by (nonlinear_arith)
                requires
                    off == i * 65536,
                    n - off >= 65536,
            ;
            assert(i + 1 <= n as int / 65536) by (nonlinear_arith)
                requires
                    (i + 1) * 65536 <= n,
            ;
            assert(chunk@ =~= segment_of(pt, i as int));
            assert(c@ == sealed_segment(k, nn, pt, i as int));
            assert(segment_sealed_ok(k, nn, pt, i as int));
        }
        let ghost before = out@;
        append_bytes(&mut out, &c);
        proof {
            assert(sealed_from(k, nn, pt, i as int) == c@ + sealed_from(k, nn, pt, i + 1));
            assert(out@.skip(NONCE_SIZE as int) =~= before.skip(NONCE_SIZE as int) + c@);
            assert(out@.take(NONCE_SIZE as int) =~= before.take(NONCE_SIZE as int));
            assert(out@.len() == 7 + (i + 1) * 65552) by (nonlinear_arith)
                requires
                    out@.len() == before.len() + 65552,
                    before.len() == 7 + i * 65552,
            ;
        }
        off = off + CHUNK_SIZE;
        i = i + 1;
    }
    proof {
        lemma_fundamental_div_mod_converse(n as int, 65536, i as int, n - off);
        lemma_segment_lengths(n as int, i as int);
    }
    let chunk = &plaintext[off..n];
    let sealed = sealer.seal_chunk(chunk);
    let c = match sealed {
        Ok(c) => c,
        Err(_) => {
            return Err(SealError);
        },
    };
    proof {
        assert(chunk@ =~= segment_of(pt, i as int));
        assert(c@ == sealed_segment(k, nn, pt, i as int));
        assert(segment_sealed_ok(k, nn, pt, i as int));
    }
    let ghost before = out@;
    append_bytes(&mut out, &c);
    proof {
        assert(sealed_from(k, nn, pt, i + 1) =~= Seq::<u8>::empty());
        assert(sealed_from(k, nn, pt, i as int) =~= c@);
        assert(out@.skip(NONCE_SIZE as int) =~= before.skip(NONCE_SIZE as int) + c@);
        assert(out@.take(NONCE_SIZE as int) =~= before.take(NONCE_SIZE as int));
        assert(out@ =~= nn + sealed_from(k, nn, pt, 0));
        lemma_open_sealed_from(k, nn, pt, 0);
        assert(pt.subrange(0, n as int) =~= pt);
        assert(out@.take(NONCE_SIZE as int) =~= nn);
        assert(out@.skip(NONCE_SIZE as int) =~= sealed_from(k, nn, pt, 0));
        assert(out@.len() == sealed_size(n as int)) by (nonlinear_arith)
            requires
                out@.len() == before.len() + c@.len(),
                before.len() == 7 + i * 65552,
                c@.len() == (n - i * 65536) + 16,
                segment_count(n as int) == i + 1,
                sealed_size(n as int) == 7 + n + 16 * segment_count(n as int),
        ;
    }
    Ok(out)
}

} // verus!

verus! {

proof fn lemma_open_step(key: Seq<u8>, nonce: Seq<u8>, rest: Seq<u8>, pos: u32, block: Seq<u8>)
    requires
        rest.len() > 0,
        rest.len() >= block_size() ==> block == rest.take(block_size()),
        rest.len() < block_size() ==> block == rest,
    ensures
        match open_segment_result(key, nonce, pos, block) {
            Err(e) => open_blocks(key, nonce, rest, pos as nat) == Err::<Seq<u8>, OpenError>(e),
            Ok(p) => if rest.len() >= block_size() {
                open_blocks(key, nonce, rest, pos as nat) == prefixed(
                    p,
                    open_blocks(key, nonce, rest.skip(block_size()), pos as nat + 1),
                )
            } else {
                open_blocks(key, nonce, rest, pos as nat) == Ok::<Seq<u8>, OpenError>(p)
            },
        },
{
    if rest.len() >= block_size() {
        assert(block.len() == block_size());
    }
}

/// Decrypts a whole stored object held in memory: reads the nonce, then
/// opens full blocks as inner segments and a shorter rest as the final
/// segment.  The result is exactly `opened_stream` of the object.
pub fn open_stream(key: [u8; 32], data: &[u8]) -> (res: Result<Vec<u8>, OpenError>)
    ensures
        bytes_result(res) == opened_stream(key@, data@),
{
    let ghost d = data@;
    let n = data.len();
    let opener = SegmentOpener::from_header(key, data);
    let mut opener = match opener {
        Some(o) => o,
        None => {
            return Err(OpenError::Truncated);
        },
    };
    let ghost nn = opener.nonce();
    let mut out: Vec<u8> = Vec::new();
    let mut off: usize = NONCE_SIZE;
    proof {
        assert(out@ + d.skip(7) =~= d.skip(7));
        assert(prefixed(out@, open_blocks(key@, nn, d.skip(off as int), 0)) == open_blocks(
            key@,
            nn,
            d.skip(7),
            0,
        )) by {
            match open_blocks(key@, nn, d.skip(7), 0) {
                Ok(r) => {
                    assert(out@ + r =~= r);
                },
                Err(_) => {},
            }
        }
    }
    while off < n
        invariant
            d == data@,
            n == d.len(),
            NONCE_SIZE <= off <= n,
            opener.key() == key@,
            opener.nonce() == nn,
            nn == d.take(NONCE_SIZE as int),
            !opener.finished(),
            opened_stream(key@, d) == prefixed(
                out@,
                open_blocks(key@, nn, d.skip(off as int), opener.position() as nat),
            ),
        decreases n - off,
    {
        let end = if n - off >= CHUNK_SIZE + TAG_SIZE {
            off + CHUNK_SIZE + TAG_SIZE
        } else {
            n
        };
        let block = &data[off..end];
        let ghost pos = opener.position();
        let ghost rest = d.skip(off as int);
        proof {
            if n - off >= CHUNK_SIZE + TAG_SIZE {
                assert(rest.take(block_size()) =~= block@);
                assert(rest.skip(block_size()) =~= d.skip(end as int));
            } else {
                assert(rest =~= block@);
            }
        }
        proof {
            lemma_open_step(key@, nn, rest, pos, block@);
        }
        let r = opener.open_block(block);
        match r {
            Ok(p) => {
                let ghost before = out@;
                append_bytes(&mut out, &p);
                proof {
                    if n - off >= CHUNK_SIZE + TAG_SIZE {
                        match open_blocks(key@, nn, d.skip(end as int), pos as nat + 1) {
                            Ok(tail) => {
                                assert(before + (p@ + tail) =~= out@ + tail);
                            },
                            Err(_) => {},
                        }
                    } else {
                        assert(d.skip(n as int) =~= Seq::<u8>::empty());
                        assert(out@ + Seq::<u8>::empty() =~= out@);
                    }
                }
                if end == n {
                    proof {
                        assert(opened_stream(key@, d) == Ok::<Seq<u8>, OpenError>(out@));
                    }
                    return Ok(out);
                }
            },
            Err(e) => {
                return Err(e);
            },
        }
        off = end;
    }
    proof {
        assert(d.skip(off as int) =~= Seq::<u8>::empty());
        assert(out@ + Seq::<u8>::empty() =~= out@);
    }
    Ok(out)
}

} // verus!

verus! {

/// Per-request context of the encrypting layer: the inner layer's context
/// and the stream key.
#[derive(Clone, Default)]
pub struct EncryptedContext<C> {
    pub inner: C,
    pub key: [u8; 32],
}

/// A storage layer that keeps every object sealed with ChaCha20-Poly1305
/// in the STREAM construction.
pub struct EncryptedStorage<S> {
    inner: S,
    password_salt: String,
}

impl<S> EncryptedStorage<S> {
    pub closed spec fn spec_inner(&self) -> S {
        self.inner
    }

    pub closed spec fn spec_password_salt(&self) -> Seq<char> {
        self.password_salt@
    }

    /// Wraps `inner`, remembering the salt that keys are derived with.
    pub fn new(inner: S, password_salt: String) -> (s: Self)
        ensures
            s.spec_inner() == inner,
            s.spec_password_salt() == password_salt@,
    {
        EncryptedStorage { inner, password_salt }
    }

    /// The wrapped storage layer.
    pub fn inner(&self) -> (r: &S)
        ensures
            *r == self.spec_inner(),
    {
        &self.inner
    }

    /// The salt given at construction.
    pub fn password_salt(&self) -> (r: &str)
        ensures
            r@ == self.spec_password_salt(),
    {
        self.password_salt.as_str()
    }
}

/// The entry as the encrypting layer reports it: files with their
/// plaintext size, directories as they are.
pub open spec fn plaintext_entry(r: Resource) -> Resource {
    match r {
        Resource::File { path, metadata } => Resource::File {
            path,
            metadata: FileMetadata {
                size: spec_plaintext_size(metadata.size as int) as u64,
                modified: metadata.modified,
            },
        },
        Resource::Directory { .. } => r,
    }
}

/// Metadata of a stored object with its size turned into the plaintext size.
pub fn plaintext_metadata(meta: Option<FileMetadata>) -> (r: Option<FileMetadata>)
    ensures
        match meta {
            None => r is None,
            Some(m) => r == Some(
                FileMetadata {
                    size: spec_plaintext_size(m.size as int) as u64,
                    modified: m.modified,
                },
            ),
        },
{
    match meta {
        None => None,
        Some(m) => Some(FileMetadata { size: plaintext_size(m.size), modified: m.modified }),
    }
}

/// A listing of the inner layer with every file's size turned into its
/// plaintext size; order and everything else are kept.
pub fn plaintext_listing(resources: Vec<Resource>) -> (out: Vec<Resource>)
    ensures
        out@.len() == resources@.len(),
        forall|i: int| 0 <= i < out@.len() ==> #[trigger] out@[i] == plaintext_entry(resources@[i]),
{
    let ghost src = resources@;
    let mut out: Vec<Resource> = Vec::new();
    for r in it: resources.into_iter()
        invariant
            it.seq() == src,
            out@.len() == it.index(),
            forall|i: int| 0 <= i < it.index() ==> #[trigger] out@[i] == plaintext_entry(src[i]),
    {
        let adjusted = match r {
            Resource::File { path, metadata } => Resource::File {
                path,
                metadata: FileMetadata {
                    size: plaintext_size(metadata.size),
                    modified: metadata.modified,
                },
            },
            Resource::Directory { path, metadata } => Resource::Directory { path, metadata },
        };
        out.push(adjusted);
    }
    out
}

} // verus!
