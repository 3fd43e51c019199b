use pbkdf2::pbkdf2_hmac;
use sha2::Sha256;
use totp_rs::{Algorithm, TotpUrlError, TOTP};
use vstd::prelude::*;
use vstd::utf8::encode_utf8;
use vstd::arithmetic::power2::pow2;

verus! {

#[verifier::external_type_specification]
#[verifier::external_body]
pub struct ExTotp(TOTP);

#[verifier::external_type_specification]
#[verifier::external_body]
pub struct ExTotpUrlError(TotpUrlError);

/// What PBKDF2 with HMAC-SHA-256 derives from `password` and `salt` in
/// `rounds` rounds, `len` bytes long.
pub uninterp spec fn pbkdf2_sha256_output(password: Seq<u8>, salt: Seq<u8>, rounds: u32, len: nat) -> Seq<
    u8,
>;

/// `pbkdf2::pbkdf2_hmac::<Sha256>` into a fresh buffer of `len` bytes.
/// Trusted: the buffer holds the named derivation.  The crate numbers
/// 32-byte output blocks with a `u32`, and the buffer must be allocatable,
/// hence the length bounds.
#[verifier::external_body]
fn pbkdf2_hmac_sha256(password: &[u8], salt: &[u8], rounds: u32, len: usize) -> (out: Vec<u8>)
    requires
        len / 32 < u32::MAX,
        len <= isize::MAX,
    ensures
        out@.len() == len,
        out@ == pbkdf2_sha256_output(password@, salt@, rounds, len as nat),
{
    let mut out = vec![0u8; len];
    pbkdf2_hmac::<Sha256>(password, salt, rounds, &mut out);
    out
}

/// The HMAC hash a one-time-password generator uses.
pub enum TotpAlgorithm {
    Sha1,
    Sha256,
    Sha512,
}

/// The hash algorithm of a generator (the public field `algorithm` of a
/// `TOTP`).
pub uninterp spec fn totp_algorithm(t: TOTP) -> TotpAlgorithm;

/// The number of digits of a generator's codes (the field `digits`).
pub uninterp spec fn totp_digit_count(t: TOTP) -> usize;

/// The steps of clock skew a generator accepts (the field `skew`).
pub uninterp spec fn totp_skew_steps(t: TOTP) -> u8;

/// The length of a generator's step in seconds (the field `step`).
pub uninterp spec fn totp_step_seconds(t: TOTP) -> u64;

/// The secret bytes a generator derives its codes from (the field
/// `secret`).
pub uninterp spec fn totp_secret_bytes(t: TOTP) -> Seq<u8>;

/// Whether checking a code with this generator stays within the crate's
/// arithmetic: a positive step (it divides by it), at most nine digits (it
/// takes ten to that power in a `u32`), and a skew window whose span in
/// seconds fits beside any clock reading in a `u64`.
pub open spec fn totp_checkable(t: TOTP) -> bool {
    &&& totp_step_seconds(t) > 0
    &&& totp_digit_count(t) <= 9
    &&& totp_skew_steps(t) * totp_step_seconds(t) <= i64::MAX
}

/// `TOTP::new` of `totp-rs` (built without its `otpauth` feature).
/// Trusted: it fails exactly when `digits` is outside 6..=8 or the secret
/// is shorter than 16 bytes, and on success the generator's fields are the
/// arguments as given (the crate builds the struct from them unchanged).
#[verifier::external_body]
fn totp_new(algorithm: TotpAlgorithm, digits: usize, skew: u8, step: u64, secret: Vec<u8>) -> (res:
    Result<TOTP, TotpUrlError>)
    ensures
        res is Ok <==> (6 <= digits <= 8 && secret@.len() >= 16),
        res matches Ok(t) ==> {
            &&& totp_algorithm(t) == algorithm
            &&& totp_digit_count(t) == digits
            &&& totp_skew_steps(t) == skew
            &&& totp_step_seconds(t) == step
            &&& totp_secret_bytes(t) == secret@
        },
{
    let algorithm = match algorithm {
        TotpAlgorithm::Sha1 => Algorithm::SHA1,
        TotpAlgorithm::Sha256 => Algorithm::SHA256,
        TotpAlgorithm::Sha512 => Algorithm::SHA512,
    };
    TOTP::new(algorithm, digits, skew, step, secret)
}

/// Bit `k` of the bytes read most significant bit first; zero past the end.
pub open spec fn base32_bit(b: Seq<u8>, k: int) -> int {
    if 0 <= k < 8 * b.len() {
        (b[k / 8] as int / pow2((7 - k % 8) as nat) as int) % 2
    } else {
        0
    }
}

/// The value of the `i`-th group of five bits.
pub open spec fn base32_digit(b: Seq<u8>, i: int) -> int {
    16 * base32_bit(b, 5 * i) + 8 * base32_bit(b, 5 * i + 1) + 4 * base32_bit(b, 5 * i + 2) + 2
        * base32_bit(b, 5 * i + 3) + base32_bit(b, 5 * i + 4)
}

/// The RFC 4648 base32 alphabet: `A`-`Z` for 0 to 25, `2`-`7` for 26 to 31.
pub open spec fn base32_char(d: int) -> char {
    if d < 26 {
        (65 + d) as char
    } else {
        (24 + d) as char
    }
}

/// RFC 4648 base32 of the bytes without padding: one character for each
/// group of five bits, the last group filled up with zero bits.
pub open spec fn base32_unpadded(b: Seq<u8>) -> Seq<char> {
    Seq::new(((8 * b.len() + 4) / 5) as nat, |i: int| base32_char(base32_digit(b, i)))
}

/// `TOTP::get_secret_base32`: the secret in unpadded RFC 4648 base32
/// (`base32::encode` with `Rfc4648 { padding: false }`).  Trusted: the text
/// is `base32_unpadded` of the secret.  The crate reserves room for five
/// characters per four bytes, which must be allocatable.
#[verifier::external_body]
fn totp_secret_base32(totp: &TOTP) -> (s: String)
    requires
        totp_secret_bytes(*totp).len() <= isize::MAX / 2,
    ensures
        s@ == base32_unpadded(totp_secret_bytes(*totp)),
{
    totp.get_secret_base32()
}

/// The `digits` field of a `TOTP`.
#[verifier::external_body]
fn totp_digits(totp: &TOTP) -> (d: usize)
    ensures
        d == totp_digit_count(*totp),
{
    totp.digits
}

/// The `step` field of a `TOTP`.
#[verifier::external_body]
fn totp_step(totp: &TOTP) -> (s: u64)
    ensures
        s == totp_step_seconds(*totp),
{
    totp.step
}

/// PBKDF2 rounds used to turn a password into a TOTP seed.
pub const SEED_ROUNDS: u32 = 600_000;

/// Bytes of TOTP seed derived from a password.
pub const SEED_LEN: usize = 20;

/// Decimal digits of `n`, most significant first.
pub open spec fn decimal(n: nat) -> Seq<char>
    decreases n,
{
    if n < 10 {
        seq![(48 + n) as char]
    } else {
        decimal(n / 10).push((48 + n % 10) as char)
    }
}

fn digit_str(d: u64) -> (s: &'static str)
    requires
        d < 10,
    ensures
        s@ == seq![(48 + d) as char],
{
    proof {
        reveal_strlit("0");
        reveal_strlit("1");
        reveal_strlit("2");
        reveal_strlit("3");
        reveal_strlit("4");
        reveal_strlit("5");
        reveal_strlit("6");
        reveal_strlit("7");
        reveal_strlit("8");
        reveal_strlit("9");
    }
    match d {
        0 => "0",
        1 => "1",
        2 => "2",
        3 => "3",
        4 => "4",
        5 => "5",
        6 => "6",
        7 => "7",
        8 => "8",
        _ => "9",
    }
}

fn push_decimal(out: &mut String, n: u64)
    ensures
        final(out)@ == old(out)@ + decimal(n as nat),
    decreases n,
{
    if n >= 10 {
        push_decimal(out, n / 10);
    }
    out.append(digit_str(n % 10));
    proof {
        if n >= 10 {
            assert(decimal(n as nat) == decimal((n / 10) as nat).push((48 + n % 10) as char));
        }
    }
    assert(final(out)@ =~= old(out)@ + decimal(n as nat));
}

/// The `otpauth://` provisioning URL of a TOTP secret.
pub open spec fn otpauth_url_text(
    account_name: Seq<char>,
    issuer: Seq<char>,
    secret_base32: Seq<char>,
    digits: nat,
    step: nat,
) -> Seq<char> {
    "otpauth://totp/"@ + issuer + ":"@ + account_name + "?secret="@ + secret_base32 + "&issuer="@
        + issuer + "&digits="@ + decimal(digits) + "&period="@ + decimal(step)
}

/// Builds the `otpauth://` provisioning URL from its parts.
pub fn otpauth_url(account_name: &str, issuer: &str, secret_base32: &str, digits: usize, step: u64) -> (url:
    String)
    ensures
        url@ == otpauth_url_text(account_name@, issuer@, secret_base32@, digits as nat, step as nat),
{
    let mut url = String::from_str("otpauth://totp/");
    url.append(issuer);
    url.append(":");
    url.append(account_name);
    url.append("?secret=");
    url.append(secret_base32);
    url.append("&issuer=");
    url.append(issuer);
    url.append("&digits=");
    push_decimal(&mut url, digits as u64);
    url.append("&period=");
    push_decimal(&mut url, step);
    url
}

/// One-time passwords derived from a shared password.
pub trait TotpExt: Sized {
    /// A generator seeded from `password` and `salt`.
    fn from_password(password: &str, salt: &str) -> Result<Self, TotpUrlError>;

    /// Whether the generator's secret is small enough to be written out.
    spec fn secret_fits_url(&self) -> bool;

    /// The `otpauth://` URL an authenticator app is provisioned with.
    fn gen_url(&self, account_name: &str, issuer: &str) -> String
        requires
            self.secret_fits_url(),
    ;
}

impl TotpExt for TOTP {
    /// Base32 text takes five characters per four bytes of secret, which
    /// must be allocatable.
    open spec fn secret_fits_url(&self) -> bool {
        totp_secret_bytes(*self).len() <= isize::MAX / 2
    }

    /// SHA-1, six digits, one step of skew and thirty-second steps, seeded
    /// with twenty bytes of PBKDF2-HMAC-SHA-256 (600 000 rounds) of the
    /// password's and salt's UTF-8 bytes.  Always succeeds.
    fn from_password(password: &str, salt: &str) -> (res: Result<TOTP, TotpUrlError>)
        ensures
            res matches Ok(t) && {
                &&& totp_algorithm(t) == TotpAlgorithm::Sha1
                &&& totp_digit_count(t) == 6
                &&& totp_skew_steps(t) == 1
                &&& totp_step_seconds(t) == 30
                &&& totp_secret_bytes(t) == pbkdf2_sha256_output(
                    encode_utf8(password@),
                    encode_utf8(salt@),
                    SEED_ROUNDS,
                    SEED_LEN as nat,
                )
            },
    {
        let seed = pbkdf2_hmac_sha256(password.as_bytes(), salt.as_bytes(), SEED_ROUNDS, SEED_LEN);
        totp_new(TotpAlgorithm::Sha1, 6, 1, 30, seed)
    }

    /// The URL with this generator's secret, digit count and step.
    fn gen_url(&self, account_name: &str, issuer: &str) -> (url: String)
        ensures
            url@ == otpauth_url_text(
                account_name@,
                issuer@,
                base32_unpadded(totp_secret_bytes(*self)),
                totp_digit_count(*self) as nat,
                totp_step_seconds(*self) as nat,
            ),
    {
        let secret = totp_secret_base32(self);
        let digits = totp_digits(self);
        let step = totp_step(self);
        otpauth_url(account_name, issuer, secret.as_str(), digits, step)
    }
}

} // verus!
