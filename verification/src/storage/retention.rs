use super::{FileMetadata, Resource};
use super::encryption::bytes_result;
use std::time::{Duration, SystemTime, SystemTimeError, UNIX_EPOCH};
use vstd::arithmetic::div_mod::lemma_mod_breakdown;
use crate::totp::decimal;
use vstd::prelude::*;

verus! {

/// Header format version written by this library.
pub const CURRENT_VERSION: u16 = 1;

/// Size of the version-1 header: magic (4), version (2), size (2), instant (8).
pub const HEADER_V1_SIZE: u16 = 16;

/// The four bytes every retention header starts with: `RETE`.
pub open spec fn magic() -> Seq<u8> {
    seq![0x52u8, 0x45u8, 0x54u8, 0x45u8]
}

pub open spec fn pow256(n: nat) -> nat
    decreases n,
{
    if n == 0 {
        1
    } else {
        256 * pow256((n - 1) as nat)
    }
}

/// The low `n` bytes of `x`, most significant first.
pub open spec fn be_bytes(x: nat, n: nat) -> Seq<u8>
    decreases n,
{
    if n == 0 {
        Seq::empty()
    } else {
        be_bytes(x / 256, (n - 1) as nat).push((x % 256) as u8)
    }
}

/// The number that the bytes of `s` spell, most significant first.
pub open spec fn be_value(s: Seq<u8>) -> nat
    decreases s.len(),
{
    if s.len() == 0 {
        0
    } else {
        be_value(s.drop_last()) * 256 + s.last() as nat
    }
}

proof fn lemma_pow256_positive(n: nat)
    ensures
        pow256(n) > 0,
    decreases n,
{
    if n > 0 {
        lemma_pow256_positive((n - 1) as nat);
    }
}

proof fn lemma_be_bytes_len(x: nat, n: nat)
    ensures
        be_bytes(x, n).len() == n,
    decreases n,
{
    if n > 0 {
        lemma_be_bytes_len(x / 256, (n - 1) as nat);
    }
}

/// Reading back the bytes of `x` gives `x` modulo the width.
proof fn lemma_be_value_of_bytes(x: nat, n: nat)
    ensures
        be_value(be_bytes(x, n)) == x % pow256(n),
    decreases n,
{
    if n > 0 {
        lemma_be_value_of_bytes(x / 256, (n - 1) as nat);
        lemma_pow256_positive((n - 1) as nat);
        lemma_mod_breakdown(x as int, 256, pow256((n - 1) as nat) as int);
        let s = be_bytes(x, n);
        assert(s.drop_last() =~= be_bytes(x / 256, (n - 1) as nat));
    } else {
        assert(x % 1 == 0);
    }
}

/// Writing back the value of some bytes gives the same bytes.
proof fn lemma_be_bytes_of_value(s: Seq<u8>)
    ensures
        be_bytes(be_value(s), s.len()) == s,
    decreases s.len(),
{
    if s.len() > 0 {
        let s0 = s.drop_last();
        lemma_be_bytes_of_value(s0);
        let v = be_value(s);
        assert(v / 256 == be_value(s0) && v % 256 == s.last() as nat) by (nonlinear_arith)
            requires
                v == be_value(s0) * 256 + s.last(),
                s.last() < 256,
        ;
        assert(s0.push(s.last()) =~= s);
    }
}

proof fn lemma_be_value_bound(s: Seq<u8>)
    ensures
        be_value(s) < pow256(s.len()),
    decreases s.len(),
{
    if s.len() > 0 {
        lemma_be_value_bound(s.drop_last());
        let v0 = be_value(s.drop_last());
        let p = pow256((s.len() - 1) as nat);
        assert(v0 * 256 + s.last() < 256 * p) by (nonlinear_arith)
            requires
                v0 < p,
                s.last() < 256,
        ;
    }
}

/// Appends the low `n` bytes of `x`, most significant first.
fn push_be(out: &mut Vec<u8>, x: u128, n: usize)
    requires
        n <= 16,
    ensures
        final(out)@ == old(out)@ + be_bytes(x as nat, n as nat),
    decreases n,
{
    if n > 0 {
        push_be(out, x / 256, n - 1);
        out.push((x % 256) as u8);
        assert(out@ =~= old(out)@ + be_bytes(x as nat, n as nat));
    }
}

/// The number spelled by `input[start..start + n]`, most significant first.
fn read_be(input: &[u8], start: usize, n: usize) -> (v: u128)
    requires
        start + n <= input@.len(),
        n <= 8,
    ensures
        v == be_value(input@.subrange(start as int, start + n)),
{
    let mut acc: u128 = 0;
    let mut k: usize = 0;
    proof {
        reveal_with_fuel(pow256, 9);
        assert(input@.subrange(start as int, start as int) =~= Seq::<u8>::empty());
    }
    while k < n
        invariant
            k <= n <= 8,
            start + n <= input.len(),
            acc == be_value(input@.subrange(start as int, start + k)),
            acc < pow256(k as nat),
            pow256(8) == 18446744073709551616,
        decreases n - k,
    {
        let ghost sub = input@.subrange(start as int, start + k + 1);
        assert(sub.drop_last() =~= input@.subrange(start as int, start + k));
        proof {
            lemma_pow256_le8((k + 1) as nat);
        }
        let b = input[start + k];
        assert(acc * 256 + b < pow256((k + 1) as nat)) by (nonlinear_arith)
            requires
                acc < pow256(k as nat),
                pow256((k + 1) as nat) == 256 * pow256(k as nat),
                b < 256,
        ;
        assert(acc * 256 + b <= 18446744073709551616);
        acc = acc * 256 + b as u128;
        k = k + 1;
    }
    acc
}

proof fn lemma_pow256_le8(k: nat)
    requires
        k <= 8,
    ensures
        pow256(k) <= 18446744073709551616,
{
    reveal_with_fuel(pow256, 9);
}

/// The fixed part of the header that precedes every retained object.
#[derive(Debug, Clone, Copy)]
pub struct RetentionHeader {
    pub version: u16,
    pub header_size: u16,
    /// Nanoseconds since the Unix epoch until which the object is locked.
    pub retain_until: u128,
}

/// The header's bytes: magic, version and size as big-endian `u16`, then
/// the instant as a big-endian `u64` (its low 64 bits).
pub open spec fn encoded_header(h: RetentionHeader) -> Seq<u8> {
    magic() + be_bytes(h.version as nat, 2) + be_bytes(h.header_size as nat, 2) + be_bytes(
        h.retain_until as nat,
        8,
    )
}

/// Why a header could not be read.
#[derive(Debug)]
pub enum HeaderError {
    /// The input ended before the fixed part of the header.
    Truncated,
    /// The input does not start with the header's magic.
    BadMagic,
}

/// Bytes beyond the fixed part that a header of declared size `header_size`
/// asks the reader to skip, limited by the `available` bytes after it.
pub open spec fn extra_skip(header_size: u16, available: int) -> int {
    if header_size > HEADER_V1_SIZE {
        let want = header_size - HEADER_V1_SIZE;
        if want <= available {
            want
        } else {
            available
        }
    } else {
        0
    }
}

/// Reading a header from the front of `input`: the header and the number
/// of bytes it occupies, or why it cannot be read.  The magic is checked
/// as soon as its first eight bytes are there.
pub open spec fn decoded_header(input: Seq<u8>) -> Result<(RetentionHeader, int), HeaderError> {
    if input.len() < 8 {
        Err(HeaderError::Truncated)
    } else if input.take(4) != magic() {
        Err(HeaderError::BadMagic)
    } else if input.len() < 16 {
        Err(HeaderError::Truncated)
    } else {
        let h = RetentionHeader {
            version: be_value(input.subrange(4, 6)) as u16,
            header_size: be_value(input.subrange(6, 8)) as u16,
            retain_until: be_value(input.subrange(8, 16)) as u128,
        };
        Ok((h, 16 + extra_skip(h.header_size, input.len() - 16)))
    }
}

impl RetentionHeader {
    /// A current-version header locking until `retain_until`.
    pub fn new(retain_until: u128) -> (h: Self)
        ensures
            h.version == CURRENT_VERSION,
            h.header_size == HEADER_V1_SIZE,
            h.retain_until == retain_until,
    {
        RetentionHeader { version: CURRENT_VERSION, header_size: HEADER_V1_SIZE, retain_until }
    }

    /// The header's bytes.
    pub fn encode(&self) -> (b: Vec<u8>)
        ensures
            b@ == encoded_header(*self),
            b@.len() == 16,
    {
        let mut b: Vec<u8> = Vec::new();
        b.push(0x52);
        b.push(0x45);
        b.push(0x54);
        b.push(0x45);
        assert(b@ =~= magic());
        push_be(&mut b, self.version as u128, 2);
        push_be(&mut b, self.header_size as u128, 2);
        push_be(&mut b, self.retain_until, 8);
        proof {
            lemma_be_bytes_len(self.version as nat, 2);
            lemma_be_bytes_len(self.header_size as nat, 2);
            lemma_be_bytes_len(self.retain_until as nat, 8);
        }
        b
    }

    /// Whether `prefix` starts with the header magic.
    pub fn has_magic(prefix: &[u8]) -> (r: bool)
        requires
            prefix@.len() >= 4,
        ensures
            r == (prefix@.take(4) == magic()),
    {
        let r = prefix[0] == 0x52 && prefix[1] == 0x45 && prefix[2] == 0x54 && prefix[3] == 0x45;
        proof {
            if r {
                assert(prefix@.take(4) =~= magic());
            } else {
                if prefix@.take(4) == magic() {
                    assert(prefix@.take(4)[0] == 0x52u8);
                    assert(prefix@.take(4)[1] == 0x45u8);
                    assert(prefix@.take(4)[2] == 0x54u8);
                    assert(prefix@.take(4)[3] == 0x45u8);
                }
            }
        }
        r
    }

    /// Reads a header from the front of `input`.
    pub fn decode_bytes(input: &[u8]) -> (res: Result<(RetentionHeader, usize), HeaderError>)
        ensures
            match decoded_header(input@) {
                Ok((h, n)) => res matches Ok((h2, n2)) && h2 == h && n2 == n,
                Err(e) => res matches Err(e2) && e2 == e,
            },
    {
        let len = input.len();
        if len < 8 {
            return Err(HeaderError::Truncated);
        }
        if !RetentionHeader::has_magic(input) {
            return Err(HeaderError::BadMagic);
        }
        if len < 16 {
            return Err(HeaderError::Truncated);
        }
        proof {
            lemma_be_value_bound(input@.subrange(4, 6));
            lemma_be_value_bound(input@.subrange(6, 8));
            lemma_be_value_bound(input@.subrange(8, 16));
            reveal_with_fuel(pow256, 9);
        }
        let version = read_be(input, 4, 2) as u16;
        let header_size = read_be(input, 6, 2) as u16;
        let retain_until = read_be(input, 8, 8);
        let h = RetentionHeader { version, header_size, retain_until };
        let used = 16 + h.extra_len(len - 16);
        Ok((h, used))
    }

    /// Bytes beyond the fixed part that must be skipped, given `available`
    /// bytes after it.
    pub fn extra_len(&self, available: usize) -> (n: usize)
        ensures
            n == extra_skip(self.header_size, available as int),
            n <= available,
    {
        if self.header_size > HEADER_V1_SIZE {
            let want = (self.header_size - HEADER_V1_SIZE) as usize;
            if want <= available {
                want
            } else {
                available
            }
        } else {
            0
        }
    }
}

/// Reading back an encoded header gives the header again, its instant cut
/// to the 64 bits the format stores, and it occupies the fixed 16 bytes
/// plus whatever extra its declared size asks for and the input has.
pub proof fn lemma_decode_encoded(h: RetentionHeader, rest: Seq<u8>)
    ensures
        decoded_header(encoded_header(h) + rest) == Ok::<(RetentionHeader, int), HeaderError>(
            (
                RetentionHeader {
                    version: h.version,
                    header_size: h.header_size,
                    retain_until: (h.retain_until as nat % pow256(8)) as u128,
                },
                16 + extra_skip(h.header_size, rest.len() as int),
            ),
        ),
{
    let e = encoded_header(h);
    let all = e + rest;
    lemma_be_bytes_len(h.version as nat, 2);
    lemma_be_bytes_len(h.header_size as nat, 2);
    lemma_be_bytes_len(h.retain_until as nat, 8);
    lemma_be_value_of_bytes(h.version as nat, 2);
    lemma_be_value_of_bytes(h.header_size as nat, 2);
    lemma_be_value_of_bytes(h.retain_until as nat, 8);
    reveal_with_fuel(pow256, 9);
    assert(all.take(4) =~= magic());
    assert(all.subrange(4, 6) =~= be_bytes(h.version as nat, 2));
    assert(all.subrange(6, 8) =~= be_bytes(h.header_size as nat, 2));
    assert(all.subrange(8, 16) =~= be_bytes(h.retain_until as nat, 8));
    assert(h.version as nat % 65536 == h.version);
    assert(h.header_size as nat % 65536 == h.header_size);
}

/// A header that could be read encodes back to exactly the bytes it was
/// read from.
pub proof fn lemma_encode_decoded(input: Seq<u8>)
    requires
        decoded_header(input) is Ok,
    ensures
        encoded_header(decoded_header(input)->Ok_0.0) == input.take(16),
{
    let h = decoded_header(input)->Ok_0.0;
    lemma_be_value_bound(input.subrange(4, 6));
    lemma_be_value_bound(input.subrange(6, 8));
    lemma_be_value_bound(input.subrange(8, 16));
    lemma_be_bytes_of_value(input.subrange(4, 6));
    lemma_be_bytes_of_value(input.subrange(6, 8));
    lemma_be_bytes_of_value(input.subrange(8, 16));
    reveal_with_fuel(pow256, 9);
    assert(input.take(4) =~= magic());
    assert(encoded_header(h) =~= input.take(16));
}

} // verus!

verus! {

/// The latest instant, in nanoseconds since the epoch, that a `Duration`
/// since the epoch can express (`u64::MAX` seconds and 999 999 999 ns).
pub open spec fn max_instant() -> int {
    (u64::MAX as int + 1) * 1_000_000_000 - 1
}

/// Reads the system clock with `SystemTime::now`.  Trusted: nothing is
/// claimed of the reading.
#[verifier::external_body]
fn system_now() -> SystemTime {
    SystemTime::now()
}

/// `SystemTime::duration_since(UNIX_EPOCH)`: the time since the epoch, or
/// the error that tells how far before the epoch the instant lies.
/// Trusted for nothing beyond that shape.
#[verifier::external_body]
fn since_epoch(t: &SystemTime) -> Result<Duration, SystemTimeError> {
    t.duration_since(UNIX_EPOCH)
}

/// What `Duration::as_nanos` gives for a duration.
pub uninterp spec fn duration_as_nanos(d: Duration) -> u128;

/// `Duration::as_nanos`.  Trusted: the result is the named value, which
/// fits a `Duration` and so is at most `max_instant()`.
#[verifier::external_body]
fn duration_nanos(d: &Duration) -> (n: u128)
    ensures
        n == duration_as_nanos(*d),
        n <= max_instant(),
{
    d.as_nanos()
}

/// The current time in nanoseconds since the Unix epoch; a clock set
/// before the epoch reads as one nanosecond before it, so that, as for the
/// clock itself, every header instant still lies ahead.  The reading
/// depends on the clock, so the contract states only the range that every
/// reading lies in.
pub fn now_nanos() -> (n: i128)
    ensures
        -1 <= n <= max_instant(),
{
    match since_epoch(&system_now()) {
        Ok(d) => duration_nanos(&d) as i128,
        Err(_) => -1,
    }
}

/// The instant a header records for a moment `t` nanoseconds from the
/// epoch: moments before the epoch are recorded as the epoch.
pub open spec fn stored_instant(t: int) -> u128 {
    if t < 0 {
        0
    } else {
        t as u128
    }
}

/// Nanoseconds in one hour.
pub const NANOS_PER_HOUR: u128 = 3_600_000_000_000;

/// Per-request context of the retaining layer: the inner layer's context
/// and, when the request asked for one, the instant until which new
/// objects are locked.
#[derive(Clone, Debug, Default)]
pub struct RetentionContext<C> {
    pub inner: C,
    pub retain_until: Option<u128>,
}

impl<C> RetentionContext<C> {
    /// A context that locks new objects for `hours` hours after `now`, or
    /// leaves the choice to the storage's default.
    pub fn at(inner: C, hours: Option<u64>, now: i128) -> (ctx: Self)
        requires
            -max_instant() <= now <= max_instant(),
            hours matches Some(h) ==> h <= u64::MAX / 3600,
        ensures
            ctx.inner == inner,
            ctx.retain_until == match hours {
                Some(h) => Some(stored_instant(now + h * NANOS_PER_HOUR)),
                None => None::<u128>,
            },
    {
        let retain_until = match hours {
            Some(h) => {
                let t = now + (h as i128) * (NANOS_PER_HOUR as i128);
                if t < 0 {
                    Some(0)
                } else {
                    Some(t as u128)
                }
            },
            None => None,
        };
        RetentionContext { inner, retain_until }
    }

    /// Like `at`, reading the clock for `now`.
    pub fn new(inner: C, hours: Option<u64>) -> (ctx: Self)
        requires
            hours matches Some(h) ==> h <= u64::MAX / 3600,
        ensures
            ctx.inner == inner,
            hours is None ==> ctx.retain_until is None,
            hours matches Some(h) ==> exists|now: int|
                #![trigger hours_after(now, h)]
                -1 <= now <= max_instant() && ctx.retain_until == Some(
                    hours_after(now, h),
                ),
    {
        let now = now_nanos();
        let ctx = RetentionContext::at(inner, hours, now);
        proof {
            if hours is Some {
                assert(ctx.retain_until == Some(hours_after(now as int, hours->Some_0)));
            }
        }
        ctx
    }
}

/// The instant recorded for `h` hours after the moment `now`.
pub open spec fn hours_after(now: int, h: u64) -> u128 {
    stored_instant(now + h * NANOS_PER_HOUR)
}

/// Why the retaining layer refused a change.
#[derive(Debug)]
pub enum RetentionError {
    /// Overwriting an object whose retention has not yet expired.
    OverwriteLocked,
    /// Deleting an object whose retention has not yet expired.
    DeleteLocked,
}

impl RetentionError {
    pub open spec fn spec_message(&self) -> Seq<char> {
        match self {
            RetentionError::OverwriteLocked => "File is locked via SystemTime retention"@,
            RetentionError::DeleteLocked => "Retention active"@,
        }
    }

    /// The message the refusal is reported with.
    pub fn message(&self) -> (m: &'static str)
        ensures
            m@ == self.spec_message(),
    {
        match self {
            RetentionError::OverwriteLocked => "File is locked via SystemTime retention",
            RetentionError::DeleteLocked => "Retention active",
        }
    }
}

/// Whether an object with this header is still locked at the moment `now`
/// (nanoseconds from the epoch, negative before it).
pub open spec fn locked_at(existing: Option<RetentionHeader>, now: int) -> bool {
    existing matches Some(h) && h.retain_until > now
}

/// What a put decides at the moment `now`: refused while the object there
/// is locked, otherwise the header bytes that lock the new content until
/// the context's instant or, without one, `default_nanos` after now.
pub open spec fn put_outcome(
    ctx_retain_until: Option<u128>,
    existing: Option<RetentionHeader>,
    now: int,
    default_nanos: int,
) -> Result<Seq<u8>, RetentionError> {
    if locked_at(existing, now) {
        Err(RetentionError::OverwriteLocked)
    } else {
        Ok(
            encoded_header(
                RetentionHeader::new_spec(
                    match ctx_retain_until {
                        Some(t) => t,
                        None => stored_instant(now + default_nanos),
                    },
                ),
            ),
        )
    }
}

/// What a delete decides at the moment `now`.
pub open spec fn delete_outcome(existing: Option<RetentionHeader>, now: int) -> Result<
    (),
    RetentionError,
> {
    if locked_at(existing, now) {
        Err(RetentionError::DeleteLocked)
    } else {
        Ok(())
    }
}

/// A storage layer that puts a retention header in front of every object
/// and refuses to overwrite or delete an object before its instant.
pub struct RetentionStorage<S> {
    inner: S,
    default_duration: Duration,
}

impl<S> RetentionStorage<S> {
    pub closed spec fn spec_inner(&self) -> S {
        self.inner
    }

    pub closed spec fn spec_default_duration(&self) -> Duration {
        self.default_duration
    }

    /// Wraps `inner`; objects put without an explicit instant are locked for
    /// `default_duration`.
    pub fn new(inner: S, default_duration: Duration) -> (s: Self)
        ensures
            s.spec_inner() == inner,
            s.spec_default_duration() == default_duration,
    {
        RetentionStorage { inner, default_duration }
    }

    /// The wrapped storage layer.
    pub fn inner(&self) -> (r: &S)
        ensures
            *r == self.spec_inner(),
    {
        &self.inner
    }

    /// Decides a put at the moment `now`: refused while the object already
    /// stored there (whose header is `existing`, when one could be read) is
    /// locked; otherwise the header to write in front of the new content,
    /// locking it until the context's instant or, without one,
    /// `default_nanos` after now.
    pub fn put_header_at(
        ctx_retain_until: Option<u128>,
        existing: Option<RetentionHeader>,
        now: i128,
        default_nanos: u128,
    ) -> (res: Result<Vec<u8>, RetentionError>)
        requires
            -max_instant() <= now <= max_instant(),
            default_nanos <= max_instant(),
        ensures
            bytes_result(res) == put_outcome(ctx_retain_until, existing, now as int, default_nanos as int),
            res matches Ok(b) ==> b@.len() == 16,
    {
        if let Some(h) = existing {
            if now < 0 || h.retain_until > now as u128 {
                return Err(RetentionError::OverwriteLocked);
            }
        }
        let until = match ctx_retain_until {
            Some(t) => t,
            None => {
                let t = now + default_nanos as i128;
                if t < 0 {
                    0
                } else {
                    t as u128
                }
            },
        };
        Ok(RetentionHeader::new(until).encode())
    }

    /// Like `put_header_at`, reading the clock (a clock set before the epoch
    /// reads as one nanosecond before it) and this storage's default.  The reading is not
    /// known here, so the contract says that the outcome is the decision at
    /// some moment the clock can show.
    pub fn put_header(&self, ctx_retain_until: Option<u128>, existing: Option<RetentionHeader>) -> (res:
        Result<Vec<u8>, RetentionError>)
        ensures
            exists|now: int|
                #![trigger put_outcome(ctx_retain_until, existing, now, duration_as_nanos(self.spec_default_duration()) as int)]
                -1 <= now <= max_instant() && bytes_result(res) == put_outcome(
                    ctx_retain_until,
                    existing,
                    now,
                    duration_as_nanos(self.spec_default_duration()) as int,
                ),
            existing is None ==> res is Ok,
            existing matches Some(h) && h.retain_until > max_instant() ==> res is Err,
            res matches Ok(b) ==> b@.len() == 16 && b@.take(4) == magic(),
    {
        let now = now_nanos();
        let default_nanos = duration_nanos(&self.default_duration);
        let res = RetentionStorage::<S>::put_header_at(ctx_retain_until, existing, now, default_nanos);
        proof {
            if res is Ok {
                assert(res->Ok_0@.take(4) =~= magic());
            }
            assert(bytes_result(res) == put_outcome(
                ctx_retain_until,
                existing,
                now as int,
                duration_as_nanos(self.spec_default_duration()) as int,
            ));
        }
        res
    }

    /// Decides a delete at the moment `now`: refused while the stored object
    /// (whose header is `existing`, when one could be read) is locked.
    pub fn delete_allowed_at(existing: Option<RetentionHeader>, now: i128) -> (res: Result<
        (),
        RetentionError,
    >)
        ensures
            res == delete_outcome(existing, now as int),
    {
        if let Some(h) = existing {
            if now < 0 || h.retain_until > now as u128 {
                return Err(RetentionError::DeleteLocked);
            }
        }
        Ok(())
    }

    /// Like `delete_allowed_at`, reading the clock; the outcome is the
    /// decision at some moment the clock can show.
    pub fn delete_allowed(existing: Option<RetentionHeader>) -> (res: Result<(), RetentionError>)
        ensures
            exists|now: int|
                #![trigger delete_outcome(existing, now)]
                -1 <= now <= max_instant() && res == delete_outcome(existing, now),
            existing is None ==> res is Ok,
            existing matches Some(h) && h.retain_until > max_instant() ==> res is Err,
    {
        let now = now_nanos();
        let res = RetentionStorage::<S>::delete_allowed_at(existing, now);
        assert(res == delete_outcome(existing, now as int));
        res
    }
}

impl RetentionHeader {
    pub open spec fn new_spec(retain_until: u128) -> RetentionHeader {
        RetentionHeader { version: CURRENT_VERSION, header_size: HEADER_V1_SIZE, retain_until }
    }
}

/// Payload bytes of a stored object of `stored` bytes (header removed).
pub open spec fn payload_size(stored: u64) -> u64 {
    if stored >= HEADER_V1_SIZE {
        (stored - HEADER_V1_SIZE) as u64
    } else {
        0
    }
}

/// Bytes of content a put wrote, from the bytes the inner layer wrote.
pub fn payload_written(written: u64) -> (n: u64)
    ensures
        n == payload_size(written),
{
    written.saturating_sub(HEADER_V1_SIZE as u64)
}

/// The entry as the retaining layer reports it: files without their header
/// bytes, directories as they are.
pub open spec fn payload_entry(r: Resource) -> Resource {
    match r {
        Resource::File { path, metadata } => Resource::File {
            path,
            metadata: FileMetadata { size: payload_size(metadata.size), modified: metadata.modified },
        },
        Resource::Directory { .. } => r,
    }
}

/// Metadata of a stored object with its header bytes taken off the size.
pub fn payload_metadata(meta: Option<FileMetadata>) -> (r: Option<FileMetadata>)
    ensures
        match meta {
            None => r is None,
            Some(m) => r == Some(FileMetadata { size: payload_size(m.size), modified: m.modified }),
        },
{
    match meta {
        None => None,
        Some(m) => Some(FileMetadata { size: payload_written(m.size), modified: m.modified }),
    }
}

/// A listing of the inner layer with every file's header bytes taken off
/// its size; order and everything else are kept.
pub fn payload_listing(resources: Vec<Resource>) -> (out: Vec<Resource>)
    ensures
        out@.len() == resources@.len(),
        forall|i: int| 0 <= i < out@.len() ==> #[trigger] out@[i] == payload_entry(resources@[i]),
{
    let ghost src = resources@;
    let mut out: Vec<Resource> = Vec::new();
    for r in it: resources.into_iter()
        invariant
            it.seq() == src,
            out@.len() == it.index(),
            forall|i: int| 0 <= i < it.index() ==> #[trigger] out@[i] == payload_entry(src[i]),
    {
        let adjusted = match r {
            Resource::File { path, metadata } => Resource::File {
                path,
                metadata: FileMetadata {
                    size: payload_written(metadata.size),
                    modified: metadata.modified,
                },
            },
            Resource::Directory { path, metadata } => Resource::Directory { path, metadata },
        };
        out.push(adjusted);
    }
    out
}

} // verus!

verus! {

pub open spec fn is_digit(c: char) -> bool {
    '0' <= c <= '9'
}

/// The number the decimal digits of `s` spell.
pub open spec fn digits_value(s: Seq<char>) -> nat
    decreases s.len(),
{
    if s.len() == 0 {
        0
    } else {
        digits_value(s.drop_last()) * 10 + (s.last() as nat - 48) as nat
    }
}

/// The text after an optional leading `+`.
pub open spec fn number_body(s: Seq<char>) -> Seq<char> {
    if s.len() > 0 && s[0] == '+' {
        s.skip(1)
    } else {
        s
    }
}

/// How an unsigned integer is read from text: an optional leading `+`,
/// then at least one decimal digit and nothing else, within `u64`.
pub open spec fn parsed_u64(s: Seq<char>) -> Option<u64> {
    let body = number_body(s);
    if body.len() == 0 || !(forall|i: int| 0 <= i < body.len() ==> is_digit(#[trigger] body[i])) {
        None
    } else if digits_value(body) > u64::MAX {
        None
    } else {
        Some(digits_value(body) as u64)
    }
}

/// Every unsigned decimal text within `u64`, with or without a leading
/// `+`, reads as the number its digits spell, whatever that number is; a
/// text with anything but digits after the optional `+` is refused.
pub proof fn lemma_parse_accepts_every_u64_text(s: Seq<char>)
    ensures
        (s.len() > 0 && (forall|i: int| 0 <= i < s.len() ==> is_digit(#[trigger] s[i]))
            && digits_value(s) <= u64::MAX) ==> {
            &&& parsed_u64(s) == Some(digits_value(s) as u64)
            &&& parsed_u64(seq!['+'] + s) == Some(digits_value(s) as u64)
        },
        (exists|i: int| 0 <= i < number_body(s).len() && !is_digit(#[trigger] number_body(s)[i]))
            ==> parsed_u64(s) is None,
{
    let t = seq!['+'] + s;
    assert(t.skip(1) =~= s);
    if s.len() > 0 && (forall|i: int| 0 <= i < s.len() ==> is_digit(#[trigger] s[i])) {
        assert(is_digit(s[0]));
        assert(number_body(s) == s);
    }
}

/// The decimal digits of a number spell that number.
pub proof fn lemma_digits_value_of_decimal(n: nat)
    ensures
        digits_value(decimal(n)) == n,
        decimal(n).len() > 0,
        forall|i: int| 0 <= i < decimal(n).len() ==> is_digit(#[trigger] decimal(n)[i]),
    decreases n,
{
    if n >= 10 {
        lemma_digits_value_of_decimal(n / 10);
        let d = decimal(n);
        let c = (48 + n % 10) as char;
        assert(d == decimal(n / 10).push(c));
        assert(d.drop_last() =~= decimal(n / 10));
        assert(c as nat == 48 + n % 10);
        assert(d.last() == c);
        assert(digits_value(d) == digits_value(d.drop_last()) * 10 + (d.last() as nat - 48) as nat);
        assert((n / 10) * 10 + n % 10 == n);
        assert forall|i: int| 0 <= i < d.len() implies is_digit(#[trigger] d[i]) by {
            if i < d.len() - 1 {
                assert(d[i] == decimal(n / 10)[i]);
            }
        }
    } else {
        let c = (48 + n) as char;
        let d = decimal(n);
        assert(c as nat == 48 + n);
        assert(d == seq![c]);
        assert(d.drop_last() =~= Seq::<char>::empty());
        assert(d.last() == c);
        assert(digits_value(d.drop_last()) == 0);
        assert(digits_value(d) == digits_value(d.drop_last()) * 10 + (d.last() as nat - 48) as nat);
    }
}

/// Any number's own decimal text, with or without a leading `+`, reads
/// back as that number: every retention from 0 to `u64::MAX` hours can be
/// asked for.
pub proof fn lemma_parse_reads_back_decimal(n: u64)
    ensures
        parsed_u64(decimal(n as nat)) == Some(n),
        parsed_u64(seq!['+'] + decimal(n as nat)) == Some(n),
{
    lemma_digits_value_of_decimal(n as nat);
    lemma_parse_accepts_every_u64_text(decimal(n as nat));
}

/// Reads the retention hours a request asks for from its header value;
/// `None` when the value is not an unsigned decimal number that fits `u64`.
pub fn parse_retention_hours(value: &str) -> (r: Option<u64>)
    ensures
        r == parsed_u64(value@),
{
    let ghost s = value@;
    let total = value.unicode_len();
    let ghost body = number_body(s);
    let start: usize = if total > 0 && value.get_char(0) == '+' {
        1
    } else {
        0
    };
    assert(body =~= s.skip(start as int));
    if total == start {
        assert(body.len() == 0);
        assert(parsed_u64(s) == None::<u64>);
        return None;
    }
    let mut acc: u64 = 0;
    let mut overflow = false;
    let mut idx: usize = 0;
    for c in it: value.chars()
        invariant
            it.seq() == s,
            total == s.len(),
            idx == it.index(),
            start <= 1,
            start < total,
            body == s.skip(start as int),
            body == number_body(s),
            s == value@,
            idx >= start ==> (forall|i: int| start <= i < idx ==> is_digit(#[trigger] s[i])),
            idx >= start && !overflow ==> acc == digits_value(s.subrange(start as int, idx as int)),
            idx >= start && overflow ==> digits_value(s.subrange(start as int, idx as int)) > u64::MAX,
            idx < start ==> acc == 0 && !overflow && idx == 0,
    {
        if idx >= start {
            if !('0' <= c && c <= '9') {
                proof {
                    assert(s[idx as int] == c);
                    assert(body[idx - start] == c);
                    assert(!is_digit(body[idx - start]));
                }
                return None;
            }
            let ghost prev = s.subrange(start as int, idx as int);
            let ghost next = s.subrange(start as int, idx + 1);
            assert(next.drop_last() =~= prev);
            let d = (c as u32 - 48) as u64;
            if !overflow {
                if acc > (u64::MAX - d) / 10 {
                    overflow = true;
                    assert(acc * 10 + d > u64::MAX) by (nonlinear_arith)
                        requires
                            acc > (u64::MAX - d) / 10,
                            d <= 9,
                    ;
                } else {
                    assert(acc * 10 + d <= u64::MAX) by (nonlinear_arith)
                        requires
                            acc <= (u64::MAX - d) / 10,
                            d <= 9,
                    ;
                    acc = acc * 10 + d;
                }
            } else {
                assert(digits_value(next) >= digits_value(prev));
            }
        } else {
            assert(s.subrange(start as int, start as int) =~= Seq::<char>::empty());
        }
        idx = idx + 1;
    }
    assert(s.subrange(start as int, total as int) =~= body);
    if overflow {
        None
    } else {
        Some(acc)
    }
}

} // verus!

verus! {

/// A put that takes the storage's default retention locks the object: at
/// any moment before the default has run out, the header it wrote, read
/// back, refuses both a delete and another put, as long as the instant it
/// locks until fits the stored 64 bits.
pub proof fn lemma_fresh_put_is_locked(now: int, default_nanos: int, later: int, rest: Seq<u8>)
    requires
        0 <= now + default_nanos < pow256(8),
        later < now + default_nanos,
    ensures
        put_outcome(None, None, now, default_nanos) is Ok,
        ({
            let written = put_outcome(None, None, now, default_nanos)->Ok_0;
            &&& decoded_header(written + rest) is Ok
            &&& delete_outcome(Some(decoded_header(written + rest)->Ok_0.0), later)
                == Err::<(), RetentionError>(RetentionError::DeleteLocked)
            &&& put_outcome(None, Some(decoded_header(written + rest)->Ok_0.0), later, default_nanos)
                == Err::<Seq<u8>, RetentionError>(RetentionError::OverwriteLocked)
        }),
{
    reveal_with_fuel(pow256, 9);
    let h = RetentionHeader::new_spec(stored_instant(now + default_nanos));
    lemma_decode_encoded(h, rest);
    assert((h.retain_until as nat) % pow256(8) == h.retain_until as nat) by {
        vstd::arithmetic::div_mod::lemma_small_mod(h.retain_until as nat, pow256(8));
    }
}

/// What the retaining layer writes reads back: in front of the content it
/// finds the header that was written (instant cut to the stored 64 bits),
/// and what follows the header is exactly the content.
pub proof fn lemma_stored_content_reads_back(until: u128, content: Seq<u8>)
    ensures
        ({
            let stored = encoded_header(RetentionHeader::new_spec(until)) + content;
            &&& decoded_header(stored) matches Ok((h, used)) && used == 16
                && h == RetentionHeader::new_spec((until as nat % pow256(8)) as u128)
            &&& stored.skip(16) == content
        }),
{
    let h = RetentionHeader::new_spec(until);
    lemma_decode_encoded(h, content);
    lemma_be_bytes_len(h.version as nat, 2);
    lemma_be_bytes_len(h.header_size as nat, 2);
    lemma_be_bytes_len(h.retain_until as nat, 8);
    let stored = encoded_header(h) + content;
    assert(stored.skip(16) =~= content);
}

/// The instant a put locks new content until: the context's instant, or
/// the default after now.
pub open spec fn chosen_instant(ctx_retain_until: Option<u128>, now: int, default_nanos: int) -> u128 {
    match ctx_retain_until {
        Some(t) => t,
        None => stored_instant(now + default_nanos),
    }
}

/// A put over an object whose header locks it beyond `now` is refused,
/// whatever instant the context asks for; otherwise it succeeds, and the
/// header it writes reads back as a current-version header of sixteen
/// bytes locking until the context's instant (or the default after now),
/// cut to the 64 bits the format stores.  A put is refused exactly when a
/// delete at the same moment is.
pub proof fn lemma_put_refused_exactly_while_locked(
    ctx_retain_until: Option<u128>,
    existing: Option<RetentionHeader>,
    now: int,
    default_nanos: int,
)
    ensures
        (existing matches Some(h) && h.retain_until > now) ==> put_outcome(
            ctx_retain_until,
            existing,
            now,
            default_nanos,
        ) == Err::<Seq<u8>, RetentionError>(RetentionError::OverwriteLocked),
        !(existing matches Some(h) && h.retain_until > now) ==> ({
            let out = put_outcome(ctx_retain_until, existing, now, default_nanos);
            &&& out is Ok
            &&& out->Ok_0.len() == 16
            &&& decoded_header(out->Ok_0) == Ok::<(RetentionHeader, int), HeaderError>(
                (
                    RetentionHeader {
                        version: CURRENT_VERSION,
                        header_size: HEADER_V1_SIZE,
                        retain_until: (chosen_instant(ctx_retain_until, now, default_nanos) as nat
                            % pow256(8)) as u128,
                    },
                    16,
                ),
            )
        }),
        put_outcome(ctx_retain_until, existing, now, default_nanos) is Err <==> delete_outcome(
            existing,
            now,
        ) is Err,
{
    let h = RetentionHeader::new_spec(chosen_instant(ctx_retain_until, now, default_nanos));
    lemma_decode_encoded(h, Seq::<u8>::empty());
    assert(encoded_header(h) + Seq::<u8>::empty() =~= encoded_header(h));
    lemma_be_bytes_len(h.version as nat, 2);
    lemma_be_bytes_len(h.header_size as nat, 2);
    lemma_be_bytes_len(h.retain_until as nat, 8);
    assert(extra_skip(h.header_size, 0) == 0);
}

/// A delete is refused exactly while the stored object's header locks it:
/// an object without a readable header, or whose instant is not after
/// `now`, is deleted; one whose instant lies after `now` is not.
pub proof fn lemma_delete_refused_exactly_while_locked(existing: Option<RetentionHeader>, now: int)
    ensures
        (existing matches Some(h) && h.retain_until > now) ==> delete_outcome(existing, now)
            == Err::<(), RetentionError>(RetentionError::DeleteLocked),
        existing is None ==> delete_outcome(existing, now) == Ok::<(), RetentionError>(()),
        (existing matches Some(h) && h.retain_until <= now) ==> delete_outcome(existing, now)
            == Ok::<(), RetentionError>(()),
{
}

/// Once the instant a header locks until has come, the object may be
/// deleted or overwritten again.
pub proof fn lemma_expired_is_unlocked(h: RetentionHeader, now: int)
    requires
        h.retain_until <= now,
    ensures
        !locked_at(Some(h), now),
{
}

/// The size the retaining layer reports for an object whose content was
/// `n` bytes is `n` again: the header's bytes come off.
pub proof fn lemma_payload_size_of_stored(n: u64)
    requires
        n + HEADER_V1_SIZE <= u64::MAX,
    ensures
        payload_size((n + HEADER_V1_SIZE) as u64) == n,
{
}

} // verus!
