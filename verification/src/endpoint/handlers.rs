use super::sanitize::{
    all_plain, error_message, is_parent_piece, keep_piece, lemma_pieces_render, lemma_pieces_shape,
    lemma_resolve_from_pieces, lemma_resolve_plain, sanitized,
    lemma_split_append_name, pieces, plain_name, render, render_stack, resolve, sanitize_names,
    sanitized_names, split_state, stack_text, SanitizeError,
};
use crate::path_text::{join_path, joined};
use rand::distr::{Alphanumeric, Distribution};
use std::time::SystemTimeError;
use crate::totp::totp_checkable;
use totp_rs::TOTP;
use vstd::prelude::*;
use vstd::utf8::{decode_utf8, encode_utf8, valid_utf8};

verus! {

#[verifier::external_type_specification]
#[verifier::external_body]
pub struct ExSystemTimeError(SystemTimeError);

#[verifier::external_type_specification]
#[verifier::external_body]
pub struct ExHexError(base16ct::Error);

/// The lowercase hex digit of `n` (below 16).
pub open spec fn hex_digit(n: u8) -> char {
    if n < 10 {
        (48 + n) as char
    } else {
        (87 + n) as char
    }
}

/// Lowercase hex of the bytes, two digits per byte, high nibble first.
pub open spec fn hex_lower(b: Seq<u8>) -> Seq<char>
    decreases b.len(),
{
    if b.len() == 0 {
        Seq::empty()
    } else {
        hex_lower(b.drop_last()) + seq![hex_digit(b.last() / 16), hex_digit(b.last() % 16)]
    }
}

/// The value of a lowercase hex digit given as its ASCII byte.
pub open spec fn hex_value(c: u8) -> Option<u8> {
    if 48 <= c <= 57 {
        Some((c - 48) as u8)
    } else if 97 <= c <= 102 {
        Some((c - 87) as u8)
    } else {
        None
    }
}

/// The bytes that lowercase hex text spells; `None` for an odd length or
/// any byte that is not `0`-`9` or `a`-`f`.
pub open spec fn hex_decoded(s: Seq<u8>) -> Option<Seq<u8>>
    decreases s.len(),
{
    if s.len() % 2 == 1 {
        None
    } else if s.len() == 0 {
        Some(Seq::empty())
    } else {
        match hex_decoded(s.subrange(0, s.len() - 2)) {
            None => None,
            Some(d) => match (hex_value(s[s.len() - 2]), hex_value(s[s.len() - 1])) {
                (Some(h), Some(l)) => Some(d.push((h * 16 + l) as u8)),
                _ => None,
            },
        }
    }
}

pub open spec fn is_ascii_alphanumeric(c: char) -> bool {
    ('0' <= c <= '9') || ('a' <= c <= 'z') || ('A' <= c <= 'Z')
}

/// What `String::from_utf8_lossy` makes of the bytes.
pub uninterp spec fn utf8_lossy_text(bytes: Seq<u8>) -> Seq<char>;

/// `base16ct::lower::encode_string`.  Trusted: the result is the lowercase
/// hex of the input (the crate allocates twice the input's length, which
/// must stay within `isize::MAX`).
#[verifier::external_body]
fn hex_encode_lower(input: &[u8]) -> (s: String)
    requires
        input@.len() * 2 <= isize::MAX,
    ensures
        s@ == hex_lower(input@),
{
    base16ct::lower::encode_string(input)
}

/// `base16ct::lower::decode_vec`.  Trusted: it succeeds exactly on even-length
/// lowercase hex and gives the bytes it spells.
#[verifier::external_body]
fn hex_decode_lower(input: &[u8]) -> (res: Result<Vec<u8>, base16ct::Error>)
    ensures
        res is Ok <==> hex_decoded(input@) is Some,
        res matches Ok(v) ==> hex_decoded(input@) == Some(v@),
{
    base16ct::lower::decode_vec(input)
}

/// `String::from_utf8_lossy(..).into_owned()`.  Trusted: the result is the
/// named lossy decoding, which for valid UTF-8 is the decoded text.
#[verifier::external_body]
fn utf8_lossy(bytes: &[u8]) -> (s: String)
    ensures
        s@ == utf8_lossy_text(bytes@),
        valid_utf8(bytes@) ==> s@ == decode_utf8(bytes@),
{
    String::from_utf8_lossy(bytes).into_owned()
}

/// `len` characters sampled from `rand::distr::Alphanumeric` with the
/// thread-local generator.  Trusted: the length, and that each character
/// is an ASCII letter or digit; which ones is chance.
#[verifier::external_body]
fn random_alphanumeric(len: usize) -> (s: String)
    ensures
        s@.len() == len,
        forall|i: int| 0 <= i < len ==> is_ascii_alphanumeric(#[trigger] s@[i]),
{
    Alphanumeric.sample_iter(rand::rng()).take(len).map(char::from).collect()
}

/// What `TOTP::check` of `totp-rs` answers: whether `token` is a valid code
/// of the generator at `unix_time` seconds since the epoch, within its skew.
pub uninterp spec fn totp_accepts(t: TOTP, token: Seq<char>, unix_time: u64) -> bool;

/// `TOTP::check_current` of `totp-rs`: whether `token` is valid now, that
/// is `TOTP::check` at the clock's reading in whole seconds since the
/// epoch.  Trusted: a `bool` it returns is that check at some reading; which
/// reading depends on the clock, and an error means the clock read before
/// the epoch.  The crate divides
/// by the step, raises ten to the digit count in a `u32` and multiplies
/// steps back into seconds, so the generator must be checkable; it also
/// subtracts the skew from the current step, which assumes a clock set at
/// least that many steps after 1970 (the environment, not an argument).
#[verifier::external_body]
fn totp_check_current(totp: &TOTP, token: &str) -> (res: Result<bool, SystemTimeError>)
    requires
        totp_checkable(*totp),
    ensures
        res matches Ok(b) ==> exists|now: u64| #[trigger] totp_accepts(*totp, token@, now) == b,
{
    totp.check_current(token)
}

/// Characters in the random directory name of an upload.
pub const RANDOM_DIR_LEN: usize = 8;

/// Where an upload of a file named `filename` is stored: a random
/// directory of eight ASCII letters and digits, then the name's UTF-8
/// bytes in lowercase hex.
pub fn generate_random_path(filename: &str) -> (p: String)
    requires
        filename@.len() * 8 <= isize::MAX,
    ensures
        p@.len() == RANDOM_DIR_LEN + 1 + hex_lower(encode_utf8(filename@)).len(),
        forall|i: int| 0 <= i < RANDOM_DIR_LEN ==> is_ascii_alphanumeric(#[trigger] p@[i]),
        p@[RANDOM_DIR_LEN as int] == '/',
        p@.skip(RANDOM_DIR_LEN + 1) == hex_lower(encode_utf8(filename@)),
{
    let random_dir = random_alphanumeric(RANDOM_DIR_LEN);
    let bytes = filename.as_bytes();
    proof {
        lemma_encode_utf8_len(filename@);
    }
    let encoded = hex_encode_lower(bytes);
    let p = join_path(random_dir.as_str(), encoded.as_str());
    proof {
        assert(random_dir@.len() > 0);
        assert(random_dir@.last() != '/') by {
            assert(is_ascii_alphanumeric(random_dir@[7]));
        }
        lemma_hex_lower_digits(bytes@);
        if encoded@.len() > 0 {
            assert(is_hex_char(encoded@[0]));
        }
        assert(p@ == random_dir@ + seq!['/'] + encoded@);
        assert(p@.skip(9) =~= encoded@);
        assert forall|i: int| 0 <= i < RANDOM_DIR_LEN implies is_ascii_alphanumeric(#[trigger] p@[i]) by {
            assert(p@[i] == random_dir@[i]);
        }
    }
    p
}

pub open spec fn is_hex_char(c: char) -> bool {
    ('0' <= c <= '9') || ('a' <= c <= 'f')
}

/// Hex text is twice as long as its bytes and made of hex digits only.
pub proof fn lemma_hex_lower_digits(b: Seq<u8>)
    ensures
        hex_lower(b).len() == 2 * b.len(),
        forall|i: int| 0 <= i < hex_lower(b).len() ==> is_hex_char(#[trigger] hex_lower(b)[i]),
    decreases b.len(),
{
    if b.len() > 0 {
        lemma_hex_lower_digits(b.drop_last());
        let prev = hex_lower(b.drop_last());
        let hi = hex_digit(b.last() / 16);
        let lo = hex_digit(b.last() % 16);
        assert(is_hex_char(hi) && is_hex_char(lo));
        assert forall|i: int| 0 <= i < hex_lower(b).len() implies is_hex_char(#[trigger] hex_lower(b)[i]) by {
            if i < prev.len() {
                assert(hex_lower(b)[i] == prev[i]);
            }
        }
    }
}

/// UTF-8 takes at most four bytes per character.
proof fn lemma_encode_utf8_len(s: Seq<char>)
    ensures
        encode_utf8(s).len() <= 4 * s.len(),
    decreases s.len(),
{
    if s.len() > 0 {
        lemma_encode_utf8_len(s.drop_first());
        assert(encode_utf8(s).len() <= 4 + encode_utf8(s.drop_first()).len());
    }
}

} // verus!

verus! {

/// Refusal text for an upload path with more than one name.
pub open spec fn sub_paths_message() -> Seq<char> {
    "Sub-paths are not allowed in upload\n"@
}

/// The file name an upload request path is accepted with: a path that
/// sanitises to exactly one name, or the reason it is refused.
pub open spec fn upload_name(raw: Seq<char>) -> Result<Seq<char>, Seq<char>> {
    match sanitized_names(raw) {
        Err(e) => Err(error_message(e)),
        Ok(names) => if names.len() == 1 {
            Ok(names[0])
        } else {
            Err(sub_paths_message())
        },
    }
}

proof fn lemma_render_single(n: Seq<char>)
    ensures
        render(seq![n]) == seq!['.', '/'] + n,
{
    let single = seq![n];
    assert(single.drop_last() =~= Seq::<Seq<char>>::empty());
    assert(render(single.drop_last()) == seq!['.']);
    assert(single.last() == n);
    assert(render(single) =~= seq!['.'] + seq!['/'] + n);
    assert(seq!['.'] + seq!['/'] + n =~= seq!['.', '/'] + n);
}

/// An upload is accepted exactly for the paths that sanitise to `./name`
/// for a single plain file name, whatever its length or characters, and
/// it is accepted with that name; a path that sanitises to several names
/// is refused as a sub-path, and a path that cannot be sanitised is
/// refused for the reason sanitising gives.
pub proof fn lemma_upload_accepts_single_names(raw: Seq<char>, name: Seq<char>)
    ensures
        upload_name(raw) == Ok::<Seq<char>, Seq<char>>(name) <==> (sanitized(raw)
            == Ok::<Seq<char>, SanitizeError>(seq!['.', '/'] + name) && plain_name(name)),
        sanitized(raw) matches Err(e) ==> upload_name(raw) == Err::<Seq<char>, Seq<char>>(
            error_message(e),
        ),
        sanitized(raw) is Ok && upload_name(raw) is Err ==> upload_name(raw) == Err::<
            Seq<char>,
            Seq<char>,
        >("Sub-paths are not allowed in upload\n"@),
{
    reveal_strlit("Sub-paths are not allowed in upload\n");
    let single = seq![name];
    lemma_render_single(name);
    if sanitized(raw) is Ok {
        lemma_pieces_shape(raw);
        lemma_resolve_from_pieces(pieces(raw));
        let names = resolve(pieces(raw)).unwrap();
        assert(sanitized_names(raw) == Ok::<Seq<Seq<char>>, SanitizeError>(names));
        lemma_pieces_render(names);
        if names.len() == 1 {
            assert(names =~= seq![names[0]]);
            lemma_render_single(names[0]);
            assert(plain_name(names[0]));
            if sanitized(raw) == Ok::<Seq<char>, SanitizeError>(seq!['.', '/'] + name) {
                assert(seq!['.', '/'] + names[0] == seq!['.', '/'] + name);
                assert(names[0] =~= (seq!['.', '/'] + name).skip(2));
                assert(name =~= (seq!['.', '/'] + name).skip(2));
            }
        }
        if sanitized(raw) == Ok::<Seq<char>, SanitizeError>(seq!['.', '/'] + name) && plain_name(
            name,
        ) {
            assert(all_plain(single));
            lemma_pieces_render(single);
            assert(names == single);
        }
    }
}

/// Checks an upload request path: it must sanitise to a single file name,
/// which is returned.
pub fn upload_filename(raw_path: &str) -> (res: Result<String, &'static str>)
    ensures
        match upload_name(raw_path@) {
            Ok(n) => res matches Ok(f) && f@ == n,
            Err(m) => res matches Err(e) && e@ == m,
        },
{
    match sanitize_names(raw_path) {
        Err(e) => Err(e.message()),
        Ok(names) => {
            if names.len() == 1 {
                let r = names[0];
                let piece = raw_path.substring_char(r.0, r.1);
                Ok(String::from_str(piece))
            } else {
                Err("Sub-paths are not allowed in upload\n")
            }
        },
    }
}

/// Why an upload was turned away before anything was stored.
#[derive(Debug)]
pub enum UploadRejection {
    /// The one-time password did not match.
    Unauthorized,
    /// The clock could not be read to check the one-time password.
    Clock(SystemTimeError),
    /// The request path was refused, with the reason.
    BadRequest(&'static str),
}

/// Decides an upload from the outcome of the one-time-password check and
/// the request path: the file name to store under, or why not.
pub fn decide_upload(check: Result<bool, SystemTimeError>, raw_path: &str) -> (res: Result<
    String,
    UploadRejection,
>)
    ensures
        match check {
            Err(e) => res matches Err(UploadRejection::Clock(e2)) && e2 == e,
            Ok(false) => res matches Err(UploadRejection::Unauthorized),
            Ok(true) => match upload_name(raw_path@) {
                Ok(n) => res matches Ok(f) && f@ == n,
                Err(m) => res matches Err(UploadRejection::BadRequest(e)) && e@ == m,
            },
        },
{
    match check {
        Err(e) => Err(UploadRejection::Clock(e)),
        Ok(false) => Err(UploadRejection::Unauthorized),
        Ok(true) => match upload_filename(raw_path) {
            Ok(f) => Ok(f),
            Err(m) => Err(UploadRejection::BadRequest(m)),
        },
    }
}

/// Checks the one-time password `token` against `totp` at the current time,
/// then the request path.  Which second the clock shows is not known here:
/// an upload goes past the password only if `token` is a valid code at
/// some reading, is refused as unauthorised only if it is not valid at some
/// reading, and then has the file name its path sanitises to, or is refused
/// for the reason sanitising gives.
pub fn check_upload(totp: &TOTP, token: &str, raw_path: &str) -> (res: Result<String, UploadRejection>)
    requires
        totp_checkable(*totp),
    ensures
        res is Ok ==> exists|now: u64| #[trigger] totp_accepts(*totp, token@, now),
        res matches Err(UploadRejection::BadRequest(_)) ==> exists|now: u64|
            #[trigger] totp_accepts(*totp, token@, now),
        res matches Err(UploadRejection::Unauthorized) ==> exists|now: u64|
            !#[trigger] totp_accepts(*totp, token@, now),
        res matches Ok(f) ==> upload_name(raw_path@) == Ok::<Seq<char>, Seq<char>>(f@),
        res matches Err(UploadRejection::BadRequest(e)) ==> upload_name(raw_path@) == Err::<
            Seq<char>,
            Seq<char>,
        >(e@),
{
    let check = totp_check_current(totp, token);
    decide_upload(check, raw_path)
}

/// The storage key of an upload stored at `randomized`: `./` then the path.
pub fn storage_key(randomized: &str) -> (k: String)
    ensures
        k@ == joined("."@, randomized@),
{
    join_path(".", randomized)
}

/// The URL an upload is announced under: `scheme://host` joined with the
/// stored path.
pub fn file_url(scheme: &str, host: &str, randomized: &str) -> (u: String)
    ensures
        u@ == joined(scheme@ + "://"@ + host@, randomized@),
{
    let mut base = String::from_str(scheme);
    base.append("://");
    base.append(host);
    join_path(base.as_str(), randomized)
}

/// The file name a download is offered under, from the last name of its
/// path: the UTF-8 text (lossily decoded) that the name spells in lowercase
/// hex, or `file.bin` when it is not such hex.
pub open spec fn download_name(hex_name: Seq<char>) -> Seq<char> {
    match hex_decoded(encode_utf8(hex_name)) {
        Some(b) => if valid_utf8(b) {
            decode_utf8(b)
        } else {
            utf8_lossy_text(b)
        },
        None => "file.bin"@,
    }
}

/// What a download request resolves to: the storage key and the file name
/// to offer.
#[derive(Debug)]
pub struct DownloadTarget {
    pub path: String,
    pub filename: String,
}

/// Checks a download request path and works out what to read and the name
/// to offer it under.
pub fn download_target(raw_path: &str) -> (res: Result<DownloadTarget, &'static str>)
    ensures
        match sanitized_names(raw_path@) {
            Err(e) => res matches Err(m) && m@ == error_message(e),
            Ok(names) => res matches Ok(t) && t.path@ == render(names) && t.filename@
                == download_name(names.last()),
        },
{
    match sanitize_names(raw_path) {
        Err(e) => Err(e.message()),
        Ok(names) => {
            let path = render_stack(raw_path, &names);
            let r = names[names.len() - 1];
            let hex_name = raw_path.substring_char(r.0, r.1);
            let filename = match hex_decode_lower(hex_name.as_bytes()) {
                Ok(bytes) => utf8_lossy(bytes.as_slice()),
                Err(_) => String::from_str("file.bin"),
            };
            proof {
                let v = stack_text(raw_path@, names@);
                assert(v.last() == hex_name@);
            }
            Ok(DownloadTarget { path, filename })
        },
    }
}

} // verus!

verus! {

proof fn lemma_hex_value_digit(n: u8)
    requires
        n < 16,
    ensures
        hex_value(hex_digit(n) as u8) == Some(n),
{
}

/// Lowercase hex, read back byte for byte, spells the bytes it was made from.
proof fn lemma_hex_decoded_of_lower(b: Seq<u8>, q: Seq<u8>)
    requires
        q.len() == hex_lower(b).len(),
        forall|i: int| 0 <= i < q.len() ==> q[i] == #[trigger] hex_lower(b)[i] as u8,
    ensures
        hex_decoded(q) == Some(b),
    decreases b.len(),
{
    lemma_hex_lower_digits(b);
    if b.len() == 0 {
    } else {
        let b0 = b.drop_last();
        let x = b.last();
        let prev = hex_lower(b0);
        lemma_hex_lower_digits(b0);
        let q0 = q.subrange(0, q.len() - 2);
        assert forall|i: int| 0 <= i < q0.len() implies q0[i] == #[trigger] hex_lower(b0)[i] as u8 by {
            assert(hex_lower(b)[i] == prev[i]);
        }
        lemma_hex_decoded_of_lower(b0, q0);
        lemma_hex_value_digit(x / 16);
        lemma_hex_value_digit(x % 16);
        assert(q[q.len() - 2] == hex_lower(b)[q.len() - 2] as u8);
        assert(q[q.len() - 1] == hex_lower(b)[q.len() - 1] as u8);
        assert(hex_lower(b)[q.len() - 2] == hex_digit(x / 16));
        assert(hex_lower(b)[q.len() - 1] == hex_digit(x % 16));
        assert((x / 16) * 16 + x % 16 == x);
        assert(b0.push(x) =~= b);
    }
}

/// The path a file is uploaded under is accepted for download as the same
/// storage key, and the download offers the uploaded file name again.
pub proof fn lemma_download_offers_uploaded_name(dir: Seq<char>, name: Seq<char>)
    requires
        dir.len() == RANDOM_DIR_LEN,
        forall|i: int| 0 <= i < dir.len() ==> is_ascii_alphanumeric(#[trigger] dir[i]),
        name.len() > 0,
    ensures
        ({
            let hex = hex_lower(encode_utf8(name));
            let p = dir + seq!['/'] + hex;
            &&& sanitized_names(p) == Ok::<Seq<Seq<char>>, SanitizeError>(seq![dir, hex])
            &&& render(seq![dir, hex]) == joined("."@, p)
            &&& download_name(hex) == name
        }),
{
    let bytes = encode_utf8(name);
    let hex = hex_lower(bytes);
    let p = dir + seq!['/'] + hex;
    vstd::utf8::encode_utf8_first_scalar(name);
    vstd::utf8::encode_utf8_valid_utf8(name);
    vstd::utf8::encode_utf8_decode_utf8(name);
    assert(bytes.len() > 0);
    lemma_hex_lower_digits(bytes);
    // the two names are plain
    assert(!dir.contains('/')) by {
        if dir.contains('/') {
            let k = choose|k: int| 0 <= k < dir.len() && dir[k] == '/';
            assert(is_ascii_alphanumeric(dir[k]));
        }
    }
    assert(!hex.contains('/')) by {
        if hex.contains('/') {
            let k = choose|k: int| 0 <= k < hex.len() && hex[k] == '/';
            assert(is_hex_char(hex[k]));
        }
    }
    assert(dir != seq!['.']) by {
        assert(dir.len() != 1);
    }
    assert(!is_parent_piece(dir)) by {
        assert(dir.len() != 2);
    }
    assert(hex[0] != '.') by {
        assert(is_hex_char(hex[0]));
    }
    assert(hex != seq!['.']) by {
        if hex == seq!['.'] {
            assert(hex[0] == '.');
        }
    }
    assert(!is_parent_piece(hex)) by {
        if is_parent_piece(hex) {
            assert(hex[0] == '.');
        }
    }
    assert(plain_name(dir));
    assert(plain_name(hex));
    // splitting
    assert(split_state(Seq::<char>::empty()) == (Seq::<Seq<char>>::empty(), Seq::<char>::empty()));
    lemma_split_append_name(Seq::<char>::empty(), dir);
    assert(Seq::<char>::empty() + dir =~= dir);
    assert(Seq::<char>::empty() + dir =~= dir);
    let with_sep = dir + seq!['/'];
    assert(with_sep.drop_last() =~= dir);
    assert(split_state(with_sep) == (keep_piece(Seq::<Seq<char>>::empty(), dir), Seq::<char>::empty()));
    assert(keep_piece(Seq::<Seq<char>>::empty(), dir) =~= seq![dir]);
    lemma_split_append_name(with_sep, hex);
    assert(Seq::<char>::empty() + hex =~= hex);
    assert(pieces(p) =~= seq![dir, hex]);
    let names = seq![dir, hex];
    assert(all_plain(names));
    lemma_resolve_plain(names);
    assert(p[0] == dir[0]);
    assert(is_ascii_alphanumeric(dir[0]));
    // rendering
    assert(names.drop_last() =~= seq![dir]);
    assert(seq![dir].drop_last() =~= Seq::<Seq<char>>::empty());
    reveal_strlit(".");
    assert("."@ =~= seq!['.']);
    assert(render(Seq::<Seq<char>>::empty()) == seq!['.']);
    assert(render(seq![dir]) == seq!['.'] + seq!['/'] + dir);
    assert(render(names) == render(seq![dir]) + seq!['/'] + hex);
    assert(p[0] != '/');
    assert(joined("."@, p) == seq!['.'] + seq!['/'] + p);
    assert(render(names) =~= joined("."@, p));
    // the name comes back
    assert(vstd::utf8::is_ascii_chars(hex)) by {
        assert forall|i: int| 0 <= i < hex.len() implies '\0' <= #[trigger] hex[i] <= '\u{7f}' by {
            assert(is_hex_char(hex[i]));
        }
    }
    vstd::utf8::is_ascii_chars_encode_utf8(hex);
    lemma_hex_decoded_of_lower(bytes, encode_utf8(hex));
}

} // verus!
