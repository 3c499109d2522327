use vstd::prelude::*;

use vstd::string::{StrSliceExecFns, StringExecFns, StringSliceAdditionalSpecFns};
use vstd::utf8::encode_utf8;

use crate::codec::{b32_of, base32_decode, base32_encode};
use crate::text::{ascii_chars_of, ascii_to_string, is_digit_byte, spec_dec, u64_to_dec};
use crate::{HashAlgorithm, TotpConfig, TotpError};

verus! {

/// Bytes that stand for themselves in a percent-encoded component: the
/// URI "unreserved" set (letters, digits, '-', '.', '_', '~').
pub open spec fn is_unreserved(b: u8) -> bool {
    (65 <= b <= 90) || (97 <= b <= 122) || (48 <= b <= 57) || b == 45 || b == 46 || b == 95
        || b == 126
}

/// The upper-case hexadecimal digit for a value below sixteen.
pub open spec fn spec_hex_digit(v: u8) -> u8
    recommends
        v < 16,
{
    if v < 10 {
        (48 + v) as u8
    } else {
        (55 + v) as u8
    }
}

/// The percent-encoding of one byte: itself when unreserved, otherwise
/// '%' followed by two upper-case hexadecimal digits.
pub open spec fn pct_byte(b: u8) -> Seq<u8> {
    if is_unreserved(b) {
        seq![b]
    } else {
        seq![37u8, spec_hex_digit(b >> 4), spec_hex_digit(b & 0x0f)]
    }
}

/// The percent-encoding of a byte sequence.
pub open spec fn pct_bytes(b: Seq<u8>) -> Seq<u8>
    decreases b.len(),
{
    if b.len() == 0 {
        seq![]
    } else {
        pct_byte(b.first()) + pct_bytes(b.drop_first())
    }
}

/// The percent-encoding of a component string: its UTF-8 bytes, each kept
/// or escaped, read back as ASCII characters.
pub open spec fn spec_pct(s: Seq<char>) -> Seq<char> {
    ascii_chars_of(pct_bytes(encode_utf8(s)))
}

fn hex_digit(v: u8) -> (r: u8)
    requires
        v < 16,
    ensures
        r == spec_hex_digit(v),
        r < 128,
{
    if v < 10 {
        48 + v
    } else {
        55 + v
    }
}

fn pct_encode_bytes(b: &[u8]) -> (r: Vec<u8>)
    ensures
        r@ == pct_bytes(b@),
        forall|i: int| 0 <= i < r@.len() ==> r@[i] < 128,
{
    let n = b.len();
    let mut out: Vec<u8> = Vec::new();
    proof {
        assert(b@.skip(0) == b@);
    }
    let mut i: usize = 0;
    while i < n
        invariant
            n == b@.len(),
            i <= n,
            pct_bytes(b@) == out@ + pct_bytes(b@.skip(i as int)),
            forall|j: int| 0 <= j < out@.len() ==> out@[j] < 128,
        decreases n - i,
    {
        let x = b[i];
        proof {
            assert(b@.skip(i as int).first() == b@[i as int]);
            assert(b@.skip(i as int).drop_first() == b@.skip(i + 1));
            assert(pct_bytes(b@.skip(i as int)) == pct_byte(b@[i as int]) + pct_bytes(
                b@.skip(i + 1),
            ));
            assert(x >> 4 < 16 && x & 0x0f < 16) by (bit_vector);
        }
        if (x >= 65 && x <= 90) || (x >= 97 && x <= 122) || (x >= 48 && x <= 57) || x == 45 || x
            == 46 || x == 95 || x == 126 {
            out.push(x);
        } else {
            out.push(37);
            out.push(hex_digit(x >> 4));
            out.push(hex_digit(x & 0x0f));
        }
        i = i + 1;
        proof {
            assert(pct_bytes(b@) =~= out@ + pct_bytes(b@.skip(i as int)));
        }
    }
    proof {
        assert(pct_bytes(b@) =~= out@);
    }
    out
}

/// Percent-encode a component for use inside the otpauth URI. Every input
/// encodes deterministically: ASCII unreserved bytes stand for themselves
/// and all others, including multi-byte UTF-8, become '%' escapes.
pub fn pct_encode(s: &str) -> (r: String)
    ensures
        r@ == spec_pct(s@),
{
    let bytes = s.as_bytes();
    let out = pct_encode_bytes(bytes);
    ascii_to_string(out)
}

/// The parameter value naming each hash algorithm in the URI.
pub open spec fn alg_label(alg: HashAlgorithm) -> Seq<char> {
    match alg {
        HashAlgorithm::Sha1 => "SHA1"@,
        HashAlgorithm::Sha256 => "SHA256"@,
        HashAlgorithm::Sha512 => "SHA512"@,
    }
}

fn alg_label_str(alg: HashAlgorithm) -> (r: &'static str)
    ensures
        r@ == alg_label(alg),
{
    match alg {
        HashAlgorithm::Sha1 => "SHA1",
        HashAlgorithm::Sha256 => "SHA256",
        HashAlgorithm::Sha512 => "SHA512",
    }
}

/// The decimal spelling of `n` as characters.
pub open spec fn dec_chars(n: nat) -> Seq<char> {
    ascii_chars_of(spec_dec(n))
}

/// The full otpauth enrollment URI for a configuration: label and issuer
/// percent-encoded, the secret in unpadded Base32, and the algorithm,
/// digit count and period spelled out.
pub open spec fn spec_uri(cfg: TotpConfig, label: Seq<char>, issuer: Seq<char>) -> Seq<char> {
    "otpauth://totp/"@ + spec_pct(issuer) + ":"@ + spec_pct(label) + "?secret="@ + b32_of(
        cfg.secret@,
    ) + "&issuer="@ + spec_pct(issuer) + "&algorithm="@ + alg_label(cfg.algorithm) + "&digits="@
        + dec_chars(cfg.digits as nat) + "&period="@ + dec_chars(cfg.step_seconds as nat)
}

/// Serialize the configuration and enrollment identity into the standard
/// otpauth URI that authenticator apps enroll from. Deterministic and total:
/// every label and issuer percent-encodes.
pub fn to_uri(cfg: &TotpConfig, label: &str, issuer: &str) -> (r: String)
    ensures
        r@ == spec_uri(*cfg, label@, issuer@),
{
    let pct_issuer = pct_encode(issuer);
    let pct_label = pct_encode(label);
    let secret_b32 = base32_encode(cfg.secret.as_slice());
    let digits_s = dec_string(cfg.digits as u64);
    let period_s = dec_string(cfg.step_seconds);
    let mut out = String::new();
    out.append("otpauth://totp/");
    out.append(pct_issuer.as_str());
    out.append(":");
    out.append(pct_label.as_str());
    out.append("?secret=");
    out.append(secret_b32.as_str());
    out.append("&issuer=");
    out.append(pct_issuer.as_str());
    out.append("&algorithm=");
    out.append(alg_label_str(cfg.algorithm));
    out.append("&digits=");
    out.append(digits_s.as_str());
    out.append("&period=");
    out.append(period_s.as_str());
    out
}

/// The decimal spelling of `n` as an owned string.
pub fn dec_string(n: u64) -> (r: String)
    ensures
        r@ == dec_chars(n as nat),
{
    let bytes = u64_to_dec(n);
    proof {
        assert(forall|i: int|
            0 <= i < bytes@.len() ==> is_digit_byte(#[trigger] bytes@[i]) && bytes@[i] < 128);
    }
    ascii_to_string(bytes)
}

/// The enrollment label: the account name and the host it belongs to.
pub fn make_label(user: &str, host: &str) -> (r: String)
    ensures
        r@ == user@ + "@"@ + host@,
{
    let mut out = String::new();
    out.append(user);
    out.append("@");
    out.append(host);
    out
}

pub uninterp spec fn qr_png_of(uri: Seq<char>) -> Seq<u8>;

/// Whether a text fits in a QR code as qrcodegen_image draws it: error
/// correction level Medium, no other inputs, so success is a condition on
/// the text alone.
pub uninterp spec fn qr_fits(uri: Seq<char>) -> bool;

/// Relies on qrcodegen_image::draw_png: it encodes exactly the given text
/// into a QR code at error-correction level Medium and draws the bitmap as
/// PNG bytes. No randomness, time or environment is involved, so both the
/// bytes and whether the call succeeds are pure functions of the text; it
/// fails (in practice) only when the text is too long for a QR code.
#[verifier::external_body]
fn draw_qr_png(uri: &str) -> (r: Option<Vec<u8>>)
    ensures
        r is Some <==> qr_fits(uri@),
        r matches Some(v) ==> v@ == qr_png_of(uri@),
{
    match qrcodegen_image::draw_png(uri) {
        Ok(v) => Some(v),
        Err(_) => None,
    }
}

/// Render the enrollment URI as a PNG image of a QR code. The payload the
/// QR code carries is byte-for-byte the string `to_uri` returns for the
/// same arguments. Success is owed, and delivered, exactly when that URI
/// fits in a QR code; `EncodingError` comes back otherwise and only then.
pub fn to_qr_payload(cfg: &TotpConfig, label: &str, issuer: &str) -> (r: Result<
    Vec<u8>,
    TotpError,
>)
    ensures
        r is Ok <==> qr_fits(spec_uri(*cfg, label@, issuer@)),
        r matches Ok(v) ==> v@ == qr_png_of(spec_uri(*cfg, label@, issuer@)),
        r matches Err(e) ==> e == TotpError::EncodingError,
{
    let uri = to_uri(cfg, label, issuer);
    match draw_qr_png(uri.as_str()) {
        Some(v) => Ok(v),
        None => Err(TotpError::EncodingError),
    }
}

/// Percent-encoded output never contains the URI delimiters '&' (38) or
/// '?' (63), and stays within ASCII.
proof fn lemma_pct_charset(b: Seq<u8>)
    ensures
        forall|i: int|
            0 <= i < pct_bytes(b).len() ==> (#[trigger] pct_bytes(b)[i]) < 128 && pct_bytes(b)[i]
                != 38 && pct_bytes(b)[i] != 63,
    decreases b.len(),
{
    if b.len() > 0 {
        let x = b.first();
        lemma_pct_charset(b.drop_first());
        assert(x >> 4 < 16 && x & 0x0f < 16) by (bit_vector);
        let h = pct_byte(x);
        let t = pct_bytes(b.drop_first());
        assert(pct_bytes(b) == h + t);
        assert(forall|i: int|
            0 <= i < h.len() ==> (#[trigger] h[i]) < 128 && h[i] != 38 && h[i] != 63);
        assert forall|i: int|
            0 <= i < pct_bytes(b).len() implies (#[trigger] pct_bytes(b)[i]) < 128 && pct_bytes(
            b,
        )[i] != 38 && pct_bytes(b)[i] != 63 by {
            if i < h.len() {
                assert(pct_bytes(b)[i] == h[i]);
            } else {
                assert(pct_bytes(b)[i] == t[i - h.len()]);
            }
        }
    }
}

/// Character index of the '?' that opens the query part.
pub open spec fn uri_q(cfg: TotpConfig, label: Seq<char>, issuer: Seq<char>) -> int {
    15 + spec_pct(issuer).len() as int + 1 + spec_pct(label).len() as int
}

/// Character index of the '&' before each successive query parameter.
pub open spec fn uri_a1(cfg: TotpConfig, label: Seq<char>, issuer: Seq<char>) -> int {
    uri_q(cfg, label, issuer) + 8 + b32_of(cfg.secret@).len() as int
}

pub open spec fn uri_a2(cfg: TotpConfig, label: Seq<char>, issuer: Seq<char>) -> int {
    uri_a1(cfg, label, issuer) + 8 + spec_pct(issuer).len() as int
}

pub open spec fn uri_a3(cfg: TotpConfig, label: Seq<char>, issuer: Seq<char>) -> int {
    uri_a2(cfg, label, issuer) + 11 + alg_label(cfg.algorithm).len() as int
}

pub open spec fn uri_a4(cfg: TotpConfig, label: Seq<char>, issuer: Seq<char>) -> int {
    uri_a3(cfg, label, issuer) + 8 + dec_chars(cfg.digits as nat).len() as int
}

/// The exact layout of an enrollment URI, parameter by parameter.
#[verifier::rlimit(100)]
#[verifier::spinoff_prover]
proof fn lemma_uri_shape(u: Seq<char>, cfg: TotpConfig, label: Seq<char>, issuer: Seq<char>)
    requires
        u == spec_uri(cfg, label, issuer),
    ensures
        u.len() == uri_a4(cfg, label, issuer) + 8 + dec_chars(cfg.step_seconds as nat).len(),
        u.subrange(uri_q(cfg, label, issuer), uri_q(cfg, label, issuer) + 8) == "?secret="@,
        u.subrange(uri_q(cfg, label, issuer) + 8, uri_a1(cfg, label, issuer)) == b32_of(
            cfg.secret@,
        ),
        u.subrange(uri_a1(cfg, label, issuer), uri_a1(cfg, label, issuer) + 8) == "&issuer="@,
        u.subrange(uri_a2(cfg, label, issuer), uri_a2(cfg, label, issuer) + 11)
            == "&algorithm="@,
        u.subrange(uri_a2(cfg, label, issuer) + 11, uri_a3(cfg, label, issuer)) == alg_label(
            cfg.algorithm,
        ),
        u.subrange(uri_a3(cfg, label, issuer), uri_a3(cfg, label, issuer) + 8) == "&digits="@,
        u.subrange(uri_a3(cfg, label, issuer) + 8, uri_a4(cfg, label, issuer)) == dec_chars(
            cfg.digits as nat,
        ),
        u.subrange(uri_a4(cfg, label, issuer), uri_a4(cfg, label, issuer) + 8) == "&period="@,
        u.subrange(uri_a4(cfg, label, issuer) + 8, u.len() as int) == dec_chars(
            cfg.step_seconds as nat,
        ),
        forall|j: int| 0 <= j < uri_q(cfg, label, issuer) ==> u[j] != '?',
        u[uri_q(cfg, label, issuer)] == '?',
        u[uri_a1(cfg, label, issuer)] == '&',
        u[uri_a2(cfg, label, issuer)] == '&',
        u[uri_a3(cfg, label, issuer)] == '&',
        u[uri_a4(cfg, label, issuer)] == '&',
        forall|j: int|
            uri_a1(cfg, label, issuer) < j < uri_a2(cfg, label, issuer) ==> u[j] != '&',
        forall|j: int|
            uri_a2(cfg, label, issuer) < j < uri_a3(cfg, label, issuer) ==> u[j] != '&',
        forall|j: int|
            uri_a3(cfg, label, issuer) < j < uri_a4(cfg, label, issuer) ==> u[j] != '&',
        forall|j: int| uri_a4(cfg, label, issuer) < j < u.len() ==> u[j] != '&',
{
    reveal_strlit("otpauth://totp/");
    reveal_strlit(":");
    reveal_strlit("?secret=");
    reveal_strlit("&issuer=");
    reveal_strlit("&algorithm=");
    reveal_strlit("&digits=");
    reveal_strlit("&period=");
    reveal_strlit("SHA1");
    reveal_strlit("SHA256");
    reveal_strlit("SHA512");
    lemma_pct_charset(encode_utf8(issuer));
    lemma_pct_charset(encode_utf8(label));
    crate::text::lemma_dec_digits(cfg.digits as nat);
    crate::text::lemma_dec_digits(cfg.step_seconds as nat);
    let q = uri_q(cfg, label, issuer);
    let a1 = uri_a1(cfg, label, issuer);
    let a2 = uri_a2(cfg, label, issuer);
    let a3 = uri_a3(cfg, label, issuer);
    let a4 = uri_a4(cfg, label, issuer);
    assert(u.subrange(0, 15) =~= "otpauth://totp/"@);
    assert(u.subrange(15, 15 + spec_pct(issuer).len() as int) =~= spec_pct(issuer));
    assert(u.subrange(q - 1 - spec_pct(label).len() as int, q - spec_pct(label).len() as int)
        =~= ":"@);
    assert(u.subrange(q - spec_pct(label).len() as int, q) =~= spec_pct(label));
    assert(u.subrange(q, q + 8) =~= "?secret="@);
    assert(u.subrange(q + 8, a1) =~= b32_of(cfg.secret@));
    assert(u.subrange(a1, a1 + 8) =~= "&issuer="@);
    assert(u.subrange(a1 + 8, a2) =~= spec_pct(issuer));
    assert(u.subrange(a2, a2 + 11) =~= "&algorithm="@);
    assert(u.subrange(a2 + 11, a3) =~= alg_label(cfg.algorithm));
    assert(u.subrange(a3, a3 + 8) =~= "&digits="@);
    assert(u.subrange(a3 + 8, a4) =~= dec_chars(cfg.digits as nat));
    assert(u.subrange(a4, a4 + 8) =~= "&period="@);
    assert(u.subrange(a4 + 8, u.len() as int) =~= dec_chars(cfg.step_seconds as nat));
    // no '?' before the query part
    assert forall|j: int| 0 <= j < q implies u[j] != '?' by {
        if j < 15 {
            assert(u[j] == "otpauth://totp/"@[j]);
        } else if j < 15 + spec_pct(issuer).len() {
            assert(u[j] == spec_pct(issuer)[j - 15]);
            assert(u[j] == (pct_bytes(encode_utf8(issuer))[j - 15]) as char);
        } else if j == 15 + spec_pct(issuer).len() {
            assert(u[j] == ":"@[0]);
        } else {
            assert(u[j] == spec_pct(label)[j - (15 + spec_pct(issuer).len() as int + 1)]);
            assert(u[j] == (pct_bytes(encode_utf8(label))[j - (15 + spec_pct(issuer).len()
                as int + 1)]) as char);
        }
    }
    // no '&' between each separator and the next
    assert forall|j: int| a1 < j < a2 implies u[j] != '&' by {
        if j < a1 + 8 {
            assert(u[j] == "&issuer="@[j - a1]);
        } else {
            assert(u[j] == (pct_bytes(encode_utf8(issuer))[j - (a1 + 8)]) as char);
        }
    }
    assert forall|j: int| a2 < j < a3 implies u[j] != '&' by {
        if j < a2 + 11 {
            assert(u[j] == "&algorithm="@[j - a2]);
        } else {
            assert(u[j] == alg_label(cfg.algorithm)[j - (a2 + 11)]);
            match cfg.algorithm {
                HashAlgorithm::Sha1 => {},
                HashAlgorithm::Sha256 => {},
                HashAlgorithm::Sha512 => {},
            }
        }
    }
    assert forall|j: int| a3 < j < a4 implies u[j] != '&' by {
        if j < a3 + 8 {
            assert(u[j] == "&digits="@[j - a3]);
        } else {
            assert(u[j] == (spec_dec(cfg.digits as nat)[j - (a3 + 8)]) as char);
            assert(is_digit_byte(spec_dec(cfg.digits as nat)[j - (a3 + 8)]));
        }
    }
    assert forall|j: int| a4 < j < u.len() implies u[j] != '&' by {
        if j < a4 + 8 {
            assert(u[j] == "&period="@[j - a4]);
        } else {
            assert(u[j] == (spec_dec(cfg.step_seconds as nat)[j - (a4 + 8)]) as char);
            assert(is_digit_byte(spec_dec(cfg.step_seconds as nat)[j - (a4 + 8)]));
        }
    }
}

/// The last '&' strictly before position `upto`.
fn find_last_amp(s: &str, upto: usize) -> (r: Option<usize>)
    requires
        upto <= s@.len(),
    ensures
        r matches Some(i) ==> i < upto && s@[i as int] == '&' && forall|j: int|
            i < j < upto ==> s@[j] != '&',
        r is None ==> forall|j: int| 0 <= j < upto ==> s@[j] != '&',
{
    let mut k = upto;
    while k > 0
        invariant
            k <= upto <= s@.len(),
            forall|j: int| k <= j < upto ==> s@[j] != '&',
        decreases k,
    {
        let c = s.get_char(k - 1);
        if c == '&' {
            return Some(k - 1);
        }
        k = k - 1;
    }
    None
}

/// The first '?' in the string.
fn find_question(s: &str) -> (r: Option<usize>)
    ensures
        r matches Some(i) ==> i < s@.len() && s@[i as int] == '?' && forall|j: int|
            0 <= j < i ==> s@[j] != '?',
        r is None ==> forall|j: int| 0 <= j < s@.len() ==> s@[j] != '?',
{
    let n = s.unicode_len();
    let mut k: usize = 0;
    while k < n
        invariant
            k <= n == s@.len(),
            forall|j: int| 0 <= j < k ==> s@[j] != '?',
        decreases n - k,
    {
        let c = s.get_char(k);
        if c == '?' {
            return Some(k);
        }
        k = k + 1;
    }
    None
}

/// Whether the characters of `pat` occur in `s` at position `pos`.
fn expect_chars(s: &str, pos: usize, pat: &str) -> (r: bool)
    requires
        pos <= s@.len(),
    ensures
        r == (pos + pat@.len() <= s@.len() && s@.subrange(pos as int, pos + pat@.len() as int)
            == pat@),
{
    let n = s.unicode_len();
    let m = pat.unicode_len();
    if n - pos < m {
        return false;
    }
    let mut j: usize = 0;
    while j < m
        invariant
            n == s@.len(),
            m == pat@.len(),
            pos + m <= n,
            j <= m,
            forall|t: int| 0 <= t < j ==> s@[pos + t] == pat@[t],
        decreases m - j,
    {
        if s.get_char(pos + j) != pat.get_char(j) {
            proof {
                assert(s@.subrange(pos as int, pos + pat@.len() as int)[j as int] == s@[pos
                    + j]);
            }
            return false;
        }
        j = j + 1;
    }
    proof {
        assert(s@.subrange(pos as int, pos + pat@.len() as int) =~= pat@);
    }
    true
}

/// Read the configuration parameters back out of an enrollment URI: the
/// secret's bytes (the Base32 value decoded), the algorithm, the digit
/// count and the period. Parsing the URI that `to_uri` produced for a
/// well-formed configuration always succeeds and recovers exactly the
/// values that went in; anything unrecognizable is `None`.
#[verifier::rlimit(100)]
#[verifier::spinoff_prover]
pub fn parse_totp_uri(uri: &str) -> (r: Option<(Vec<u8>, HashAlgorithm, u64, u64)>)
    ensures
        forall|cfg: TotpConfig, label: Seq<char>, issuer: Seq<char>|
            cfg.wf() && uri@ == #[trigger] spec_uri(cfg, label, issuer) ==> (r matches Some(t)
                && t.0@ == cfg.secret@ && t.1 == cfg.algorithm && t.2 == cfg.digits && t.3
                == cfg.step_seconds),
{
    proof {
        reveal_strlit("?secret=");
        reveal_strlit("&issuer=");
        reveal_strlit("&algorithm=");
        reveal_strlit("&digits=");
        reveal_strlit("&period=");
        crate::config::lemma_alg_name_facts();
    }
    let n = uri.unicode_len();
    let a4 = match find_last_amp(uri, n) {
        Some(i) => i,
        None => {
            proof {
                assert forall|cfg: TotpConfig, label: Seq<char>, issuer: Seq<char>|
                    !(cfg.wf() && uri@ == #[trigger] spec_uri(cfg, label, issuer)) by {
                    if cfg.wf() && uri@ == spec_uri(cfg, label, issuer) {
                        lemma_uri_shape(uri@, cfg, label, issuer);
                    }
                }
            }
            return None;
        },
    };
    proof {
        assert forall|cfg: TotpConfig, label: Seq<char>, issuer: Seq<char>|
            cfg.wf() && uri@ == #[trigger] spec_uri(cfg, label, issuer) implies a4 == uri_a4(
            cfg,
            label,
            issuer,
        ) by {
            lemma_uri_shape(uri@, cfg, label, issuer);
            if a4 < uri_a4(cfg, label, issuer) {
                assert(uri@[uri_a4(cfg, label, issuer)] == '&');
            }
        }
    }
    if !expect_chars(uri, a4, "&period=") {
        proof {
            assert forall|cfg: TotpConfig, label: Seq<char>, issuer: Seq<char>|
                !(cfg.wf() && uri@ == #[trigger] spec_uri(cfg, label, issuer)) by {
                if cfg.wf() && uri@ == spec_uri(cfg, label, issuer) {
                    lemma_uri_shape(uri@, cfg, label, issuer);
                }
            }
        }
        return None;
    }
    let v4 = uri.substring_char(a4 + 8, n);
    let period = match crate::config::parse_dec(v4.as_bytes(), 0, v4.as_bytes().len()) {
        Some(v) => v,
        None => {
            proof {
                assert forall|cfg: TotpConfig, label: Seq<char>, issuer: Seq<char>|
                    !(cfg.wf() && uri@ == #[trigger] spec_uri(cfg, label, issuer)) by {
                    if cfg.wf() && uri@ == spec_uri(cfg, label, issuer) {
                        lemma_uri_shape(uri@, cfg, label, issuer);
                        crate::text::lemma_dec_digits(cfg.step_seconds as nat);
                        crate::text::lemma_ascii_chars_bytes(spec_dec(cfg.step_seconds as nat));
                        crate::text::lemma_dec_val_round_trip(cfg.step_seconds as nat);
                        assert(v4@ == dec_chars(cfg.step_seconds as nat));
                        assert(v4.spec_bytes() =~= spec_dec(cfg.step_seconds as nat));
                        assert(v4.spec_bytes().subrange(0, v4.spec_bytes().len() as int)
                            =~= spec_dec(cfg.step_seconds as nat));
                    }
                }
            }
            return None;
        },
    };
    proof {
        assert forall|cfg: TotpConfig, label: Seq<char>, issuer: Seq<char>|
            cfg.wf() && uri@ == #[trigger] spec_uri(cfg, label, issuer) implies period
            == cfg.step_seconds by {
            lemma_uri_shape(uri@, cfg, label, issuer);
            crate::text::lemma_dec_digits(cfg.step_seconds as nat);
            crate::text::lemma_ascii_chars_bytes(spec_dec(cfg.step_seconds as nat));
            crate::text::lemma_dec_val_round_trip(cfg.step_seconds as nat);
            assert(v4@ == dec_chars(cfg.step_seconds as nat));
            assert(v4.spec_bytes() =~= spec_dec(cfg.step_seconds as nat));
            assert(v4.spec_bytes().subrange(0, v4.spec_bytes().len() as int) =~= spec_dec(
                cfg.step_seconds as nat,
            ));
        }
    }
    let a3 = match find_last_amp(uri, a4) {
        Some(i) => i,
        None => {
            proof {
                assert forall|cfg: TotpConfig, label: Seq<char>, issuer: Seq<char>|
                    !(cfg.wf() && uri@ == #[trigger] spec_uri(cfg, label, issuer)) by {
                    if cfg.wf() && uri@ == spec_uri(cfg, label, issuer) {
                        lemma_uri_shape(uri@, cfg, label, issuer);
                        assert(uri@[uri_a3(cfg, label, issuer)] == '&');
                    }
                }
            }
            return None;
        },
    };
    proof {
        assert forall|cfg: TotpConfig, label: Seq<char>, issuer: Seq<char>|
            cfg.wf() && uri@ == #[trigger] spec_uri(cfg, label, issuer) implies a3 == uri_a3(
            cfg,
            label,
            issuer,
        ) by {
            lemma_uri_shape(uri@, cfg, label, issuer);
            if a3 < uri_a3(cfg, label, issuer) {
                assert(uri@[uri_a3(cfg, label, issuer)] == '&');
            }
        }
    }
    if !expect_chars(uri, a3, "&digits=") {
        proof {
            assert forall|cfg: TotpConfig, label: Seq<char>, issuer: Seq<char>|
                !(cfg.wf() && uri@ == #[trigger] spec_uri(cfg, label, issuer)) by {
                if cfg.wf() && uri@ == spec_uri(cfg, label, issuer) {
                    lemma_uri_shape(uri@, cfg, label, issuer);
                }
            }
        }
        return None;
    }
    if a3 + 8 > a4 {
        proof {
            assert forall|cfg: TotpConfig, label: Seq<char>, issuer: Seq<char>|
                !(cfg.wf() && uri@ == #[trigger] spec_uri(cfg, label, issuer)) by {
                if cfg.wf() && uri@ == spec_uri(cfg, label, issuer) {
                    lemma_uri_shape(uri@, cfg, label, issuer);
                    crate::text::lemma_dec_digits(cfg.digits as nat);
                }
            }
        }
        return None;
    }
    let v3 = uri.substring_char(a3 + 8, a4);
    let digits = match crate::config::parse_dec(v3.as_bytes(), 0, v3.as_bytes().len()) {
        Some(v) => v,
        None => {
            proof {
                assert forall|cfg: TotpConfig, label: Seq<char>, issuer: Seq<char>|
                    !(cfg.wf() && uri@ == #[trigger] spec_uri(cfg, label, issuer)) by {
                    if cfg.wf() && uri@ == spec_uri(cfg, label, issuer) {
                        lemma_uri_shape(uri@, cfg, label, issuer);
                        crate::text::lemma_dec_digits(cfg.digits as nat);
                        crate::text::lemma_ascii_chars_bytes(spec_dec(cfg.digits as nat));
                        crate::text::lemma_dec_val_round_trip(cfg.digits as nat);
                        assert(v3@ == dec_chars(cfg.digits as nat));
                        assert(v3.spec_bytes() =~= spec_dec(cfg.digits as nat));
                        assert(v3.spec_bytes().subrange(0, v3.spec_bytes().len() as int)
                            =~= spec_dec(cfg.digits as nat));
                    }
                }
            }
            return None;
        },
    };
    proof {
        assert forall|cfg: TotpConfig, label: Seq<char>, issuer: Seq<char>|
            cfg.wf() && uri@ == #[trigger] spec_uri(cfg, label, issuer) implies digits
            == cfg.digits by {
            lemma_uri_shape(uri@, cfg, label, issuer);
            crate::text::lemma_dec_digits(cfg.digits as nat);
            crate::text::lemma_ascii_chars_bytes(spec_dec(cfg.digits as nat));
            crate::text::lemma_dec_val_round_trip(cfg.digits as nat);
            assert(v3@ == dec_chars(cfg.digits as nat));
            assert(v3.spec_bytes() =~= spec_dec(cfg.digits as nat));
            assert(v3.spec_bytes().subrange(0, v3.spec_bytes().len() as int) =~= spec_dec(
                cfg.digits as nat,
            ));
        }
    }
    let a2 = match find_last_amp(uri, a3) {
        Some(i) => i,
        None => {
            proof {
                assert forall|cfg: TotpConfig, label: Seq<char>, issuer: Seq<char>|
                    !(cfg.wf() && uri@ == #[trigger] spec_uri(cfg, label, issuer)) by {
                    if cfg.wf() && uri@ == spec_uri(cfg, label, issuer) {
                        lemma_uri_shape(uri@, cfg, label, issuer);
                        assert(uri@[uri_a2(cfg, label, issuer)] == '&');
                    }
                }
            }
            return None;
        },
    };
    proof {
        assert forall|cfg: TotpConfig, label: Seq<char>, issuer: Seq<char>|
            cfg.wf() && uri@ == #[trigger] spec_uri(cfg, label, issuer) implies a2 == uri_a2(
            cfg,
            label,
            issuer,
        ) by {
            lemma_uri_shape(uri@, cfg, label, issuer);
            if a2 < uri_a2(cfg, label, issuer) {
                assert(uri@[uri_a2(cfg, label, issuer)] == '&');
            }
        }
    }
    if !expect_chars(uri, a2, "&algorithm=") {
        proof {
            assert forall|cfg: TotpConfig, label: Seq<char>, issuer: Seq<char>|
                !(cfg.wf() && uri@ == #[trigger] spec_uri(cfg, label, issuer)) by {
                if cfg.wf() && uri@ == spec_uri(cfg, label, issuer) {
                    lemma_uri_shape(uri@, cfg, label, issuer);
                }
            }
        }
        return None;
    }
    if a2 + 11 > a3 {
        proof {
            assert forall|cfg: TotpConfig, label: Seq<char>, issuer: Seq<char>|
                !(cfg.wf() && uri@ == #[trigger] spec_uri(cfg, label, issuer)) by {
                if cfg.wf() && uri@ == spec_uri(cfg, label, issuer) {
                    lemma_uri_shape(uri@, cfg, label, issuer);
                }
            }
        }
        return None;
    }
    let v2 = uri.substring_char(a2 + 11, a3);
    let alg = match crate::config::parse_alg(v2.as_bytes(), 0, v2.as_bytes().len()) {
        Some(a) => a,
        None => {
            proof {
                assert forall|cfg: TotpConfig, label: Seq<char>, issuer: Seq<char>|
                    !(cfg.wf() && uri@ == #[trigger] spec_uri(cfg, label, issuer)) by {
                    if cfg.wf() && uri@ == spec_uri(cfg, label, issuer) {
                        lemma_uri_shape(uri@, cfg, label, issuer);
                        assert(v2@ == alg_label(cfg.algorithm));
                        assert(v2.spec_bytes() =~= crate::config::alg_name_bytes(cfg.algorithm));
                        assert(v2.spec_bytes().subrange(0, v2.spec_bytes().len() as int)
                            =~= crate::config::alg_name_bytes(cfg.algorithm));
                    }
                }
            }
            return None;
        },
    };
    proof {
        assert forall|cfg: TotpConfig, label: Seq<char>, issuer: Seq<char>|
            cfg.wf() && uri@ == #[trigger] spec_uri(cfg, label, issuer) implies alg
            == cfg.algorithm by {
            lemma_uri_shape(uri@, cfg, label, issuer);
            assert(v2@ == alg_label(cfg.algorithm));
            assert(v2.spec_bytes() =~= crate::config::alg_name_bytes(cfg.algorithm));
            assert(v2.spec_bytes().subrange(0, v2.spec_bytes().len() as int)
                =~= crate::config::alg_name_bytes(cfg.algorithm));
        }
    }
    let a1 = match find_last_amp(uri, a2) {
        Some(i) => i,
        None => {
            proof {
                assert forall|cfg: TotpConfig, label: Seq<char>, issuer: Seq<char>|
                    !(cfg.wf() && uri@ == #[trigger] spec_uri(cfg, label, issuer)) by {
                    if cfg.wf() && uri@ == spec_uri(cfg, label, issuer) {
                        lemma_uri_shape(uri@, cfg, label, issuer);
                        assert(uri@[uri_a1(cfg, label, issuer)] == '&');
                    }
                }
            }
            return None;
        },
    };
    proof {
        assert forall|cfg: TotpConfig, label: Seq<char>, issuer: Seq<char>|
            cfg.wf() && uri@ == #[trigger] spec_uri(cfg, label, issuer) implies a1 == uri_a1(
            cfg,
            label,
            issuer,
        ) by {
            lemma_uri_shape(uri@, cfg, label, issuer);
            if a1 < uri_a1(cfg, label, issuer) {
                assert(uri@[uri_a1(cfg, label, issuer)] == '&');
            }
        }
    }
    if !expect_chars(uri, a1, "&issuer=") {
        proof {
            assert forall|cfg: TotpConfig, label: Seq<char>, issuer: Seq<char>|
                !(cfg.wf() && uri@ == #[trigger] spec_uri(cfg, label, issuer)) by {
                if cfg.wf() && uri@ == spec_uri(cfg, label, issuer) {
                    lemma_uri_shape(uri@, cfg, label, issuer);
                }
            }
        }
        return None;
    }
    let q = match find_question(uri) {
        Some(i) => i,
        None => {
            proof {
                assert forall|cfg: TotpConfig, label: Seq<char>, issuer: Seq<char>|
                    !(cfg.wf() && uri@ == #[trigger] spec_uri(cfg, label, issuer)) by {
                    if cfg.wf() && uri@ == spec_uri(cfg, label, issuer) {
                        lemma_uri_shape(uri@, cfg, label, issuer);
                        assert(uri@[uri_q(cfg, label, issuer)] == '?');
                    }
                }
            }
            return None;
        },
    };
    proof {
        assert forall|cfg: TotpConfig, label: Seq<char>, issuer: Seq<char>|
            cfg.wf() && uri@ == #[trigger] spec_uri(cfg, label, issuer) implies q == uri_q(
            cfg,
            label,
            issuer,
        ) by {
            lemma_uri_shape(uri@, cfg, label, issuer);
            if q > uri_q(cfg, label, issuer) {
                assert(uri@[uri_q(cfg, label, issuer)] == '?');
            }
        }
    }
    if !expect_chars(uri, q, "?secret=") {
        proof {
            assert forall|cfg: TotpConfig, label: Seq<char>, issuer: Seq<char>|
                !(cfg.wf() && uri@ == #[trigger] spec_uri(cfg, label, issuer)) by {
                if cfg.wf() && uri@ == spec_uri(cfg, label, issuer) {
                    lemma_uri_shape(uri@, cfg, label, issuer);
                }
            }
        }
        return None;
    }
    if q + 8 > a1 {
        proof {
            assert forall|cfg: TotpConfig, label: Seq<char>, issuer: Seq<char>|
                !(cfg.wf() && uri@ == #[trigger] spec_uri(cfg, label, issuer)) by {
                if cfg.wf() && uri@ == spec_uri(cfg, label, issuer) {
                    lemma_uri_shape(uri@, cfg, label, issuer);
                }
            }
        }
        return None;
    }
    let secret_str = uri.substring_char(q + 8, a1);
    let secret = match base32_decode(secret_str) {
        Some(v) => v,
        None => {
            proof {
                assert forall|cfg: TotpConfig, label: Seq<char>, issuer: Seq<char>|
                    !(cfg.wf() && uri@ == #[trigger] spec_uri(cfg, label, issuer)) by {
                    if cfg.wf() && uri@ == spec_uri(cfg, label, issuer) {
                        lemma_uri_shape(uri@, cfg, label, issuer);
                        assert(secret_str@ == b32_of(cfg.secret@));
                    }
                }
            }
            return None;
        },
    };
    proof {
        assert forall|cfg: TotpConfig, label: Seq<char>, issuer: Seq<char>|
            cfg.wf() && uri@ == #[trigger] spec_uri(cfg, label, issuer) implies secret@
            == cfg.secret@ by {
            lemma_uri_shape(uri@, cfg, label, issuer);
            assert(secret_str@ == b32_of(cfg.secret@));
        }
    }
    Some((secret, alg, digits, period))
}

} // verus!
