use vstd::prelude::*;

use vstd::string::StringSliceAdditionalSpecFns;
use vstd::utf8::{encode_utf8, is_ascii_chars_encode_utf8};

use crate::codec::{b64_of, base64_decode, base64_encode};
use vstd::arithmetic::div_mod::lemma_fundamental_div_mod;

use crate::text::{
    all_digits, dec_val, is_digit_byte, lemma_dec_digits, lemma_dec_val_mono,
    lemma_dec_val_round_trip, spec_dec, u64_to_dec,
};
use crate::uri::alg_label;
use crate::{HashAlgorithm, TotpConfig, TotpError, SECRET_LEN};

verus! {

/// The UTF-8 bytes of an algorithm's name as it is written in the config
/// file and in the URI.
pub open spec fn alg_name_bytes(alg: HashAlgorithm) -> Seq<u8> {
    encode_utf8(alg_label(alg))
}

pub open spec fn key_algorithm() -> Seq<u8> {
    encode_utf8("algorithm: "@)
}

pub open spec fn key_digits() -> Seq<u8> {
    encode_utf8("digits: "@)
}

pub open spec fn key_step() -> Seq<u8> {
    encode_utf8("step_seconds: "@)
}

pub open spec fn key_skew() -> Seq<u8> {
    encode_utf8("skew_steps: "@)
}

pub open spec fn key_secret() -> Seq<u8> {
    encode_utf8("secret: "@)
}

/// One "key: value" line, newline-terminated.
pub open spec fn spec_line(key: Seq<u8>, value: Seq<u8>) -> Seq<u8> {
    key + value + seq![10u8]
}

/// The persisted document: one line per field in a fixed order, the
/// Base64-coded secret last, with no trailing newline. Human-diffable
/// ASCII throughout.
pub open spec fn spec_encode_config(cfg: TotpConfig) -> Seq<u8> {
    spec_line(key_algorithm(), alg_name_bytes(cfg.algorithm)) + (spec_line(
        key_digits(),
        spec_dec(cfg.digits as nat),
    ) + (spec_line(key_step(), spec_dec(cfg.step_seconds as nat)) + (spec_line(
        key_skew(),
        spec_dec(cfg.skew_steps as nat),
    ) + (key_secret() + b64_of(cfg.secret@)))))
}

/// Two configurations hold the same parameters and the same secret bytes.
pub open spec fn cfg_matches(a: TotpConfig, b: TotpConfig) -> bool {
    &&& a.algorithm == b.algorithm
    &&& a.digits == b.digits
    &&& a.step_seconds == b.step_seconds
    &&& a.skew_steps == b.skew_steps
    &&& a.secret@ == b.secret@
}

/// `pre` occurs in `s` at position `p`.
pub open spec fn starts_with_seq(s: Seq<u8>, p: int, pre: Seq<u8>) -> bool {
    p >= 0 && p + pre.len() <= s.len() && s.subrange(p, p + pre.len()) == pre
}

/// A recognized field starts at position `p`.
pub open spec fn is_known_at(s: Seq<u8>, p: int) -> bool {
    ||| starts_with_seq(s, p, key_algorithm())
    ||| starts_with_seq(s, p, key_digits())
    ||| starts_with_seq(s, p, key_step())
    ||| starts_with_seq(s, p, key_skew())
    ||| starts_with_seq(s, p, key_secret())
}

/// The position of the first newline at or after `from`, or the length
/// of the document when there is none.
pub open spec fn first_nl(s: Seq<u8>, from: int) -> int
    decreases s.len() - from,
{
    if from < 0 || from >= s.len() {
        s.len() as int
    } else if s[from] == 10 {
        from
    } else {
        first_nl(s, from + 1)
    }
}

pub proof fn lemma_first_nl(s: Seq<u8>, from: int)
    requires
        0 <= from <= s.len(),
    ensures
        from <= first_nl(s, from) <= s.len(),
        first_nl(s, from) < s.len() ==> s[first_nl(s, from)] == 10,
        forall|j: int| from <= j < first_nl(s, from) ==> s[j] != 10,
    decreases s.len() - from,
{
    if from < s.len() && s[from] != 10 {
        lemma_first_nl(s, from + 1);
    }
}

/// [from, to) consists of whole newline-terminated lines, none of which
/// starts a recognized field: the lines a reader ignores.
#[verifier::opaque]
pub open spec fn unknown_lines(s: Seq<u8>, from: int, to: int) -> bool
    decreases to - from,
{
    if from >= to {
        from == to
    } else {
        &&& !is_known_at(s, from)
        &&& from <= first_nl(s, from) < to
        &&& unknown_lines(s, first_nl(s, from) + 1, to)
    }
}

/// The document is an encoding of `cfg`, preceded by ignored unknown
/// lines that end at position `k` (`k == 0` for a plain encoding).
#[verifier::opaque]
pub open spec fn encoding_after_unknown(text: Seq<u8>, k: int, cfg: TotpConfig) -> bool {
    &&& 0 <= k <= text.len()
    &&& unknown_lines(text, 0, k)
    &&& text.subrange(k, text.len() as int) == spec_encode_config(cfg)
}

/// What an algorithm-field value parses to.
pub open spec fn spec_parse_alg(b: Seq<u8>) -> Option<HashAlgorithm> {
    if b == alg_name_bytes(HashAlgorithm::Sha1) {
        Some(HashAlgorithm::Sha1)
    } else if b == alg_name_bytes(HashAlgorithm::Sha256) {
        Some(HashAlgorithm::Sha256)
    } else if b == alg_name_bytes(HashAlgorithm::Sha512) {
        Some(HashAlgorithm::Sha512)
    } else {
        None
    }
}

proof fn lemma_key_facts()
    ensures
        key_algorithm().len() == 11,
        key_digits().len() == 8,
        key_step().len() == 14,
        key_skew().len() == 12,
        key_secret().len() == 8,
{
    reveal_strlit("algorithm: ");
    reveal_strlit("digits: ");
    reveal_strlit("step_seconds: ");
    reveal_strlit("skew_steps: ");
    reveal_strlit("secret: ");
    is_ascii_chars_encode_utf8("algorithm: "@);
    is_ascii_chars_encode_utf8("digits: "@);
    is_ascii_chars_encode_utf8("step_seconds: "@);
    is_ascii_chars_encode_utf8("skew_steps: "@);
    is_ascii_chars_encode_utf8("secret: "@);
}

pub(crate) proof fn lemma_alg_name_facts()
    ensures
        alg_name_bytes(HashAlgorithm::Sha1).len() == 4,
        alg_name_bytes(HashAlgorithm::Sha256).len() == 6,
        alg_name_bytes(HashAlgorithm::Sha512).len() == 6,
        forall|alg: HashAlgorithm, j: int|
            0 <= j < alg_name_bytes(alg).len() ==> #[trigger] alg_name_bytes(alg)[j] != 10,
        alg_name_bytes(HashAlgorithm::Sha256) != alg_name_bytes(HashAlgorithm::Sha512),
{
    reveal_strlit("SHA1");
    reveal_strlit("SHA256");
    reveal_strlit("SHA512");
    is_ascii_chars_encode_utf8("SHA1"@);
    is_ascii_chars_encode_utf8("SHA256"@);
    is_ascii_chars_encode_utf8("SHA512"@);
    assert(alg_name_bytes(HashAlgorithm::Sha256)[3] == 50);
    assert(alg_name_bytes(HashAlgorithm::Sha512)[3] == 53);
    assert forall|alg: HashAlgorithm, j: int|
        0 <= j < alg_name_bytes(alg).len() implies #[trigger] alg_name_bytes(alg)[j] != 10 by {
        match alg {
            HashAlgorithm::Sha1 => {
                assert("SHA1"@[j] as u8 != 10);
            },
            HashAlgorithm::Sha256 => {
                assert("SHA256"@[j] as u8 != 10);
            },
            HashAlgorithm::Sha512 => {
                assert("SHA512"@[j] as u8 != 10);
            },
        }
    }
}

/// Index of the newline ending the algorithm line of an encoded config.
pub open spec fn enc_nl1(cfg: TotpConfig) -> int {
    11 + alg_name_bytes(cfg.algorithm).len() as int
}

pub open spec fn enc_nl2(cfg: TotpConfig) -> int {
    enc_nl1(cfg) + 1 + 8 + spec_dec(cfg.digits as nat).len() as int
}

pub open spec fn enc_nl3(cfg: TotpConfig) -> int {
    enc_nl2(cfg) + 1 + 14 + spec_dec(cfg.step_seconds as nat).len() as int
}

pub open spec fn enc_nl4(cfg: TotpConfig) -> int {
    enc_nl3(cfg) + 1 + 12 + spec_dec(cfg.skew_steps as nat).len() as int
}

pub open spec fn enc_secret_start(cfg: TotpConfig) -> int {
    enc_nl4(cfg) + 1 + 8
}

/// The exact layout of an encoded configuration, line by line.
proof fn lemma_enc_shape(s: Seq<u8>, cfg: TotpConfig)
    requires
        s == spec_encode_config(cfg),
    ensures
        s.len() == enc_secret_start(cfg) + b64_of(cfg.secret@).len(),
        starts_with_seq(s, 0, key_algorithm()),
        s.subrange(11, enc_nl1(cfg)) == alg_name_bytes(cfg.algorithm),
        forall|j: int| 11 <= j < enc_nl1(cfg) ==> s[j] != 10,
        s[enc_nl1(cfg)] == 10,
        starts_with_seq(s, enc_nl1(cfg) + 1, key_digits()),
        s.subrange(enc_nl1(cfg) + 9, enc_nl2(cfg)) == spec_dec(cfg.digits as nat),
        forall|j: int| enc_nl1(cfg) + 9 <= j < enc_nl2(cfg) ==> s[j] != 10,
        s[enc_nl2(cfg)] == 10,
        starts_with_seq(s, enc_nl2(cfg) + 1, key_step()),
        s.subrange(enc_nl2(cfg) + 15, enc_nl3(cfg)) == spec_dec(cfg.step_seconds as nat),
        forall|j: int| enc_nl2(cfg) + 15 <= j < enc_nl3(cfg) ==> s[j] != 10,
        s[enc_nl3(cfg)] == 10,
        starts_with_seq(s, enc_nl3(cfg) + 1, key_skew()),
        s.subrange(enc_nl3(cfg) + 13, enc_nl4(cfg)) == spec_dec(cfg.skew_steps as nat),
        forall|j: int| enc_nl3(cfg) + 13 <= j < enc_nl4(cfg) ==> s[j] != 10,
        s[enc_nl4(cfg)] == 10,
        starts_with_seq(s, enc_nl4(cfg) + 1, key_secret()),
        s.subrange(enc_secret_start(cfg), s.len() as int) == b64_of(cfg.secret@),
{
    lemma_key_facts();
    lemma_alg_name_facts();
    lemma_dec_digits(cfg.digits as nat);
    lemma_dec_digits(cfg.step_seconds as nat);
    lemma_dec_digits(cfg.skew_steps as nat);
    assert(s.subrange(0, 11) =~= key_algorithm());
    assert(s.subrange(11, enc_nl1(cfg)) =~= alg_name_bytes(cfg.algorithm));
    assert(s.subrange(enc_nl1(cfg) + 1, enc_nl1(cfg) + 9) =~= key_digits());
    assert(s.subrange(enc_nl1(cfg) + 9, enc_nl2(cfg)) =~= spec_dec(cfg.digits as nat));
    assert(s.subrange(enc_nl2(cfg) + 1, enc_nl2(cfg) + 15) =~= key_step());
    assert(s.subrange(enc_nl2(cfg) + 15, enc_nl3(cfg)) =~= spec_dec(cfg.step_seconds as nat));
    assert(s.subrange(enc_nl3(cfg) + 1, enc_nl3(cfg) + 13) =~= key_skew());
    assert(s.subrange(enc_nl3(cfg) + 13, enc_nl4(cfg)) =~= spec_dec(cfg.skew_steps as nat));
    assert(s.subrange(enc_nl4(cfg) + 1, enc_nl4(cfg) + 9) =~= key_secret());
    assert(s.subrange(enc_secret_start(cfg), s.len() as int) =~= b64_of(cfg.secret@));
    assert(forall|j: int|
        11 <= j < enc_nl1(cfg) ==> s[j] == alg_name_bytes(cfg.algorithm)[j - 11]);
    assert(forall|j: int|
        enc_nl1(cfg) + 9 <= j < enc_nl2(cfg) ==> s[j] == spec_dec(cfg.digits as nat)[j
            - (enc_nl1(cfg) + 9)]);
    assert(forall|j: int|
        enc_nl2(cfg) + 15 <= j < enc_nl3(cfg) ==> s[j] == spec_dec(cfg.step_seconds as nat)[j
            - (enc_nl2(cfg) + 15)]);
    assert(forall|j: int|
        enc_nl3(cfg) + 13 <= j < enc_nl4(cfg) ==> s[j] == spec_dec(cfg.skew_steps as nat)[j
            - (enc_nl3(cfg) + 13)]);
}

/// The layout of an encoded configuration that sits at offset `k` of a
/// larger document, clause for clause as `lemma_enc_shape` gives it.
proof fn lemma_enc_shape_at(s: Seq<u8>, k: int, cfg: TotpConfig)
    requires
        encoding_after_unknown(s, k, cfg),
    ensures
        0 <= k <= s.len(),
        unknown_lines(s, 0, k),
        s.len() == k + enc_secret_start(cfg) + b64_of(cfg.secret@).len(),
        starts_with_seq(s, k, key_algorithm()),
        s.subrange(k + 11, k + enc_nl1(cfg)) == alg_name_bytes(cfg.algorithm),
        forall|j: int| k + 11 <= j < k + enc_nl1(cfg) ==> s[j] != 10,
        s[k + enc_nl1(cfg)] == 10,
        starts_with_seq(s, k + enc_nl1(cfg) + 1, key_digits()),
        s.subrange(k + enc_nl1(cfg) + 9, k + enc_nl2(cfg)) == spec_dec(cfg.digits as nat),
        forall|j: int| k + enc_nl1(cfg) + 9 <= j < k + enc_nl2(cfg) ==> s[j] != 10,
        s[k + enc_nl2(cfg)] == 10,
        starts_with_seq(s, k + enc_nl2(cfg) + 1, key_step()),
        s.subrange(k + enc_nl2(cfg) + 15, k + enc_nl3(cfg)) == spec_dec(
            cfg.step_seconds as nat,
        ),
        forall|j: int| k + enc_nl2(cfg) + 15 <= j < k + enc_nl3(cfg) ==> s[j] != 10,
        s[k + enc_nl3(cfg)] == 10,
        starts_with_seq(s, k + enc_nl3(cfg) + 1, key_skew()),
        s.subrange(k + enc_nl3(cfg) + 13, k + enc_nl4(cfg)) == spec_dec(cfg.skew_steps as nat),
        forall|j: int| k + enc_nl3(cfg) + 13 <= j < k + enc_nl4(cfg) ==> s[j] != 10,
        s[k + enc_nl4(cfg)] == 10,
        starts_with_seq(s, k + enc_nl4(cfg) + 1, key_secret()),
        s.subrange(k + enc_secret_start(cfg), s.len() as int) == b64_of(cfg.secret@),
{
    reveal(encoding_after_unknown);
    let t = s.subrange(k, s.len() as int);
    lemma_enc_shape(t, cfg);
    lemma_key_facts();
    assert forall|a: int, b: int| 0 <= a <= b <= t.len() implies s.subrange(k + a, k + b)
        == #[trigger] t.subrange(a, b) by {
        assert(s.subrange(k + a, k + b) =~= t.subrange(a, b));
    }
    assert forall|i: int| 0 <= i < t.len() implies s[k + i] == #[trigger] t[i] by {
    }
    assert forall|j: int| k + 11 <= j < k + enc_nl1(cfg) implies s[j] != 10 by {
        assert(s[j] == t[j - k]);
    }
    assert forall|j: int| k + enc_nl1(cfg) + 9 <= j < k + enc_nl2(cfg) implies s[j] != 10 by {
        assert(s[j] == t[j - k]);
    }
    assert forall|j: int| k + enc_nl2(cfg) + 15 <= j < k + enc_nl3(cfg) implies s[j] != 10 by {
        assert(s[j] == t[j - k]);
    }
    assert forall|j: int| k + enc_nl3(cfg) + 13 <= j < k + enc_nl4(cfg) implies s[j] != 10 by {
        assert(s[j] == t[j - k]);
    }
    assert(s[k + enc_nl1(cfg)] == t[enc_nl1(cfg)]);
    assert(s[k + enc_nl2(cfg)] == t[enc_nl2(cfg)]);
    assert(s[k + enc_nl3(cfg)] == t[enc_nl3(cfg)]);
    assert(s[k + enc_nl4(cfg)] == t[enc_nl4(cfg)]);
    assert(s.subrange(k, k + key_algorithm().len() as int) == t.subrange(
        0,
        key_algorithm().len() as int,
    ));
    assert(s.subrange(
        k + enc_nl1(cfg) + 1,
        k + enc_nl1(cfg) + 1 + key_digits().len() as int,
    ) == t.subrange(enc_nl1(cfg) + 1, enc_nl1(cfg) + 1 + key_digits().len() as int));
    assert(s.subrange(k + enc_nl2(cfg) + 1, k + enc_nl2(cfg) + 1 + key_step().len() as int)
        == t.subrange(enc_nl2(cfg) + 1, enc_nl2(cfg) + 1 + key_step().len() as int));
    assert(s.subrange(k + enc_nl3(cfg) + 1, k + enc_nl3(cfg) + 1 + key_skew().len() as int)
        == t.subrange(enc_nl3(cfg) + 1, enc_nl3(cfg) + 1 + key_skew().len() as int));
    assert(s.subrange(
        k + enc_nl4(cfg) + 1,
        k + enc_nl4(cfg) + 1 + key_secret().len() as int,
    ) == t.subrange(enc_nl4(cfg) + 1, enc_nl4(cfg) + 1 + key_secret().len() as int));
}

/// Whether `pre` occurs in `s` at position `pos`.
pub(crate) fn starts_with(s: &[u8], pos: usize, pre: &[u8]) -> (r: bool)
    requires
        pos <= s@.len(),
    ensures
        r == starts_with_seq(s@, pos as int, pre@),
{
    let n = pre.len();
    let slen = s.len();
    if slen - pos < n {
        return false;
    }
    let mut i: usize = 0;
    while i < n
        invariant
            slen == s@.len(),
            pos + n <= slen,
            n == pre@.len(),
            i <= n,
            forall|j: int| 0 <= j < i ==> s@[pos + j] == pre@[j],
        decreases n - i,
    {
        if s[pos + i] != pre[i] {
            proof {
                assert(s@.subrange(pos as int, pos + pre@.len())[i as int] == s@[pos + i]);
            }
            return false;
        }
        i = i + 1;
    }
    proof {
        assert(s@.subrange(pos as int, pos + pre@.len()) =~= pre@);
    }
    true
}

/// The first newline at or after `from`.
fn find_newline(s: &[u8], from: usize) -> (r: Option<usize>)
    requires
        from <= s@.len(),
    ensures
        r matches Some(i) ==> from <= i < s@.len() && s@[i as int] == 10 && forall|j: int|
            from <= j < i ==> s@[j] != 10,
        r is None ==> forall|j: int| from <= j < s@.len() ==> s@[j] != 10,
{
    let n = s.len();
    let mut i: usize = from;
    while i < n
        invariant
            from <= i <= n,
            n == s@.len(),
            forall|j: int| from <= j < i ==> s@[j] != 10,
        decreases n - i,
    {
        if s[i] == 10 {
            return Some(i);
        }
        i = i + 1;
    }
    None
}

/// Parse the decimal digits of `s[lo..hi)`, rejecting non-digits, the
/// empty range and values beyond `u64`.
pub(crate) fn parse_dec(s: &[u8], lo: usize, hi: usize) -> (r: Option<u64>)
    requires
        lo <= hi <= s@.len(),
    ensures
        r matches Some(v) ==> hi - lo >= 1 && all_digits(s@.subrange(lo as int, hi as int)) && v
            == dec_val(s@.subrange(lo as int, hi as int)),
        r is None ==> !(hi - lo >= 1 && all_digits(s@.subrange(lo as int, hi as int)) && dec_val(
            s@.subrange(lo as int, hi as int),
        ) <= u64::MAX),
{
    if hi == lo {
        return None;
    }
    let mut v: u64 = 0;
    let mut i: usize = lo;
    proof {
        assert(s@.subrange(lo as int, lo as int) =~= Seq::<u8>::empty());
    }
    while i < hi
        invariant
            lo <= i <= hi <= s@.len(),
            all_digits(s@.subrange(lo as int, i as int)),
            v == dec_val(s@.subrange(lo as int, i as int)),
        decreases hi - i,
    {
        let c = s[i];
        if c < 48 || c > 57 {
            proof {
                assert(s@.subrange(lo as int, hi as int)[i - lo] == s@[i as int]);
            }
            return None;
        }
        let d = (c - 48) as u64;
        proof {
            assert(s@.subrange(lo as int, i + 1).drop_last() =~= s@.subrange(lo as int, i as int));
            assert(s@.subrange(lo as int, i + 1).last() == s@[i as int]);
            lemma_fundamental_div_mod(u64::MAX - d, 10);
        }
        if v > (u64::MAX - d) / 10 {
            proof {
                assert(dec_val(s@.subrange(lo as int, i + 1)) == v * 10 + d);
                lemma_dec_val_mono(s@, lo as int, i + 1, hi as int);
            }
            return None;
        }
        v = v * 10 + d;
        i = i + 1;
    }
    proof {
        lemma_dec_val_mono(s@, lo as int, hi as int, hi as int);
    }
    Some(v)
}

/// Whether `s[lo..hi)` equals `pat` exactly.
fn eq_range(s: &[u8], lo: usize, hi: usize, pat: &[u8]) -> (r: bool)
    requires
        lo <= hi <= s@.len(),
    ensures
        r == (s@.subrange(lo as int, hi as int) == pat@),
{
    if hi - lo != pat.len() {
        proof {
            assert(s@.subrange(lo as int, hi as int).len() == hi - lo);
        }
        return false;
    }
    let r = starts_with(s, lo, pat);
    proof {
        assert(s@.subrange(lo as int, lo + pat@.len()) == s@.subrange(lo as int, hi as int));
    }
    r
}

/// Parse an algorithm name.
pub(crate) fn parse_alg(s: &[u8], lo: usize, hi: usize) -> (r: Option<HashAlgorithm>)
    requires
        lo <= hi <= s@.len(),
    ensures
        r == spec_parse_alg(s@.subrange(lo as int, hi as int)),
{
    if eq_range(s, lo, hi, "SHA1".as_bytes()) {
        Some(HashAlgorithm::Sha1)
    } else if eq_range(s, lo, hi, "SHA256".as_bytes()) {
        Some(HashAlgorithm::Sha256)
    } else if eq_range(s, lo, hi, "SHA512".as_bytes()) {
        Some(HashAlgorithm::Sha512)
    } else {
        None
    }
}

/// Advance over unknown lines (ignored fields) until a recognized field
/// starts; a recognized field at `from` itself is never skipped.
fn skip_unknown(s: &[u8], from: usize) -> (r: Result<usize, TotpError>)
    requires
        from <= s@.len(),
    ensures
        r matches Ok(p) ==> from <= p <= s@.len() && is_known_at(s@, p as int),
        is_known_at(s@, from as int) ==> r == Ok::<usize, TotpError>(from),
        forall|p: int|
            #[trigger] unknown_lines(s@, from as int, p) && is_known_at(s@, p) ==> (
            r matches Ok(q) && q == p),
{
    let mut pos = from;
    let slen = s.len();
    loop
        invariant
            slen == s@.len(),
            from <= pos <= slen,
            pos != from ==> !is_known_at(s@, from as int),
            forall|p: int|
                #[trigger] unknown_lines(s@, from as int, p) && is_known_at(s@, p)
                    ==> unknown_lines(s@, pos as int, p),
        decreases s@.len() - pos,
    {
        if starts_with(s, pos, "algorithm: ".as_bytes()) || starts_with(
            s,
            pos,
            "digits: ".as_bytes(),
        ) || starts_with(s, pos, "step_seconds: ".as_bytes()) || starts_with(
            s,
            pos,
            "skew_steps: ".as_bytes(),
        ) || starts_with(s, pos, "secret: ".as_bytes()) {
            proof {
                assert forall|p: int|
                    #[trigger] unknown_lines(s@, from as int, p) && is_known_at(
                        s@,
                        p,
                    ) implies pos == p by {
                    reveal_with_fuel(unknown_lines, 2);
                    assert(unknown_lines(s@, pos as int, p));
                    if p != pos {
                        assert(!is_known_at(s@, pos as int));
                    }
                }
            }
            return Ok(pos);
        }
        match find_newline(s, pos) {
            Some(nl) => {
                proof {
                    assert forall|p: int|
                        #[trigger] unknown_lines(s@, from as int, p) && is_known_at(
                            s@,
                            p,
                        ) implies unknown_lines(s@, nl + 1, p) by {
                        reveal_with_fuel(unknown_lines, 2);
                        assert(unknown_lines(s@, pos as int, p));
                        if p == pos {
                            assert(false);
                        } else {
                            assert(pos < p);
                            lemma_first_nl(s@, pos as int);
                            let w = first_nl(s@, pos as int);
                            assert(pos <= w < p);
                            assert(s@[w] == 10);
                            if w < nl {
                                assert(false);
                            }
                            if w > nl {
                                assert(s@[nl as int] != 10);
                                assert(false);
                            }
                            assert(unknown_lines(s@, w + 1, p));
                        }
                    }
                }
                pos = nl + 1;
            },
            None => {
                proof {
                    assert forall|p: int|
                        #[trigger] unknown_lines(s@, from as int, p) && is_known_at(
                            s@,
                            p,
                        ) implies false by {
                        reveal_with_fuel(unknown_lines, 2);
                        assert(unknown_lines(s@, pos as int, p));
                        if p != pos {
                            assert(pos < p);
                            lemma_first_nl(s@, pos as int);
                            let w = first_nl(s@, pos as int);
                            assert(pos <= w < p);
                            assert(s@[w] == 10);
                        }
                    }
                }
                return Err(TotpError::Corrupt);
            },
        }
    }
}

/// Parse a persisted configuration document: fixed field order, unknown
/// lines ignored, the Base64 secret last. Every well-formed
/// configuration's encoding parses back to an equivalent configuration,
/// also when unknown lines precede it (`encoding_after_unknown` with
/// `k == 0` is the plain encoding);
/// any document that does not parse, or that breaks an invariant, is
/// `Corrupt`. Conversely, a configuration is only ever returned when the
/// document spells out exactly its fields: each parameter as a decimal
/// line under its key, and the secret as its canonical Base64 under the
/// `secret` key, running to the end of the document -- so a damaged file
/// can never come back as a silently different valid configuration.
#[verifier::rlimit(100)]
#[verifier::spinoff_prover]
pub fn parse_config(text: &[u8]) -> (r: Result<TotpConfig, TotpError>)
    ensures
        r matches Ok(c) ==> c.wf(),
        r matches Err(e) ==> e == TotpError::Corrupt,
        forall|cfg: TotpConfig, k: int|
            cfg.wf() && #[trigger] encoding_after_unknown(text@, k, cfg) ==> (r matches Ok(c)
                && cfg_matches(c, cfg)),
        r matches Ok(c) ==> exists|p: int|
            #[trigger] starts_with_seq(
                text@,
                p,
                key_algorithm() + alg_name_bytes(c.algorithm) + seq![10u8],
            ),
        r matches Ok(c) ==> exists|p: int, v: Seq<u8>|
            #[trigger] starts_with_seq(text@, p, key_digits() + v + seq![10u8]) && all_digits(v)
                && v.len() >= 1 && dec_val(v) == c.digits,
        r matches Ok(c) ==> exists|p: int, v: Seq<u8>|
            #[trigger] starts_with_seq(text@, p, key_step() + v + seq![10u8]) && all_digits(v)
                && v.len() >= 1 && dec_val(v) == c.step_seconds,
        r matches Ok(c) ==> exists|p: int, v: Seq<u8>|
            #[trigger] starts_with_seq(text@, p, key_skew() + v + seq![10u8]) && all_digits(v)
                && v.len() >= 1 && dec_val(v) == c.skew_steps,
        r matches Ok(c) ==> exists|p: int|
            #[trigger] starts_with_seq(text@, p, key_secret() + b64_of(c.secret@)) && p
                + key_secret().len() + b64_of(c.secret@).len() == text@.len(),
{
    proof {
        lemma_key_facts();
        lemma_alg_name_facts();
    }
    let slen = text.len();
    // algorithm line
    let p0 = match skip_unknown(text, 0) {
        Ok(p) => p,
        Err(_) => {
            proof {
                assert forall|cfg: TotpConfig, k: int|
                    !(cfg.wf() && #[trigger] encoding_after_unknown(text@, k, cfg)) by {
                    if cfg.wf() && encoding_after_unknown(text@, k, cfg) {
                        lemma_enc_shape_at(text@, k, cfg);
                    }
                }
            }
            return Err(TotpError::Corrupt);
        },
    };
    proof {
        assert forall|cfg: TotpConfig, k: int|
            cfg.wf() && #[trigger] encoding_after_unknown(text@, k, cfg) implies p0 == k by {
            lemma_enc_shape_at(text@, k, cfg);
        }
    }
    if !starts_with(text, p0, "algorithm: ".as_bytes()) {
        proof {
            assert forall|cfg: TotpConfig, k: int|
                !(cfg.wf() && #[trigger] encoding_after_unknown(text@, k, cfg)) by {
                if cfg.wf() && encoding_after_unknown(text@, k, cfg) {
                    lemma_enc_shape_at(text@, k, cfg);
                }
            }
        }
        return Err(TotpError::Corrupt);
    }
    let v1lo = p0 + 11;
    let nl1 = match find_newline(text, v1lo) {
        Some(i) => i,
        None => {
            proof {
                assert forall|cfg: TotpConfig, k: int|
                    !(cfg.wf() && #[trigger] encoding_after_unknown(text@, k, cfg)) by {
                    if cfg.wf() && encoding_after_unknown(text@, k, cfg) {
                        lemma_enc_shape_at(text@, k, cfg);
                        assert(text@[k + enc_nl1(cfg)] == 10);
                    }
                }
            }
            return Err(TotpError::Corrupt);
        },
    };
    proof {
        assert forall|cfg: TotpConfig, k: int|
            cfg.wf() && #[trigger] encoding_after_unknown(text@, k, cfg) implies nl1 == k + enc_nl1(cfg)
            && text@.subrange(v1lo as int, nl1 as int) == alg_name_bytes(cfg.algorithm) by {
            lemma_enc_shape_at(text@, k, cfg);
            if nl1 < k + enc_nl1(cfg) {
                assert(text@[nl1 as int] != 10);
            }
            if nl1 > k + enc_nl1(cfg) {
                assert(text@[k + enc_nl1(cfg)] == 10);
            }
        }
    }
    let alg = match parse_alg(text, v1lo, nl1) {
        Some(a) => a,
        None => {
            proof {
                assert forall|cfg: TotpConfig, k: int|
                    !(cfg.wf() && #[trigger] encoding_after_unknown(text@, k, cfg)) by {
                    if cfg.wf() && encoding_after_unknown(text@, k, cfg) {
                        lemma_enc_shape_at(text@, k, cfg);
                    }
                }
            }
            return Err(TotpError::Corrupt);
        },
    };
    proof {
        assert forall|cfg: TotpConfig, k: int|
            cfg.wf() && #[trigger] encoding_after_unknown(text@, k, cfg) implies alg
            == cfg.algorithm by {
            lemma_enc_shape_at(text@, k, cfg);
        }
    }
    // digits line
    let p1 = match skip_unknown(text, nl1 + 1) {
        Ok(p) => p,
        Err(_) => {
            proof {
                assert forall|cfg: TotpConfig, k: int|
                    !(cfg.wf() && #[trigger] encoding_after_unknown(text@, k, cfg)) by {
                    if cfg.wf() && encoding_after_unknown(text@, k, cfg) {
                        lemma_enc_shape_at(text@, k, cfg);
                    }
                }
            }
            return Err(TotpError::Corrupt);
        },
    };
    proof {
        assert forall|cfg: TotpConfig, k: int|
            cfg.wf() && #[trigger] encoding_after_unknown(text@, k, cfg) implies p1 == k + enc_nl1(cfg)
            + 1 by {
            lemma_enc_shape_at(text@, k, cfg);
        }
    }
    if !starts_with(text, p1, "digits: ".as_bytes()) {
        proof {
            assert forall|cfg: TotpConfig, k: int|
                !(cfg.wf() && #[trigger] encoding_after_unknown(text@, k, cfg)) by {
                if cfg.wf() && encoding_after_unknown(text@, k, cfg) {
                    lemma_enc_shape_at(text@, k, cfg);
                }
            }
        }
        return Err(TotpError::Corrupt);
    }
    let v2lo = p1 + 8;
    let nl2 = match find_newline(text, v2lo) {
        Some(i) => i,
        None => {
            proof {
                assert forall|cfg: TotpConfig, k: int|
                    !(cfg.wf() && #[trigger] encoding_after_unknown(text@, k, cfg)) by {
                    if cfg.wf() && encoding_after_unknown(text@, k, cfg) {
                        lemma_enc_shape_at(text@, k, cfg);
                        assert(text@[k + enc_nl2(cfg)] == 10);
                    }
                }
            }
            return Err(TotpError::Corrupt);
        },
    };
    proof {
        assert forall|cfg: TotpConfig, k: int|
            cfg.wf() && #[trigger] encoding_after_unknown(text@, k, cfg) implies nl2 == k + enc_nl2(cfg)
            && text@.subrange(v2lo as int, nl2 as int) == spec_dec(cfg.digits as nat) by {
            lemma_enc_shape_at(text@, k, cfg);
            if nl2 < k + enc_nl2(cfg) {
                assert(text@[nl2 as int] != 10);
            }
            if nl2 > k + enc_nl2(cfg) {
                assert(text@[k + enc_nl2(cfg)] == 10);
            }
        }
    }
    let dv = match parse_dec(text, v2lo, nl2) {
        Some(v) => v,
        None => {
            proof {
                assert forall|cfg: TotpConfig, k: int|
                    !(cfg.wf() && #[trigger] encoding_after_unknown(text@, k, cfg)) by {
                    if cfg.wf() && encoding_after_unknown(text@, k, cfg) {
                        lemma_enc_shape_at(text@, k, cfg);
                        lemma_dec_digits(cfg.digits as nat);
                        lemma_dec_val_round_trip(cfg.digits as nat);
                    }
                }
            }
            return Err(TotpError::Corrupt);
        },
    };
    proof {
        assert forall|cfg: TotpConfig, k: int|
            cfg.wf() && #[trigger] encoding_after_unknown(text@, k, cfg) implies dv
            == cfg.digits by {
            lemma_enc_shape_at(text@, k, cfg);
            lemma_dec_val_round_trip(cfg.digits as nat);
        }
    }
    if dv < 6 || dv > 8 {
        proof {
            assert forall|cfg: TotpConfig, k: int|
                !(cfg.wf() && #[trigger] encoding_after_unknown(text@, k, cfg)) by {
                if cfg.wf() && encoding_after_unknown(text@, k, cfg) {
                    lemma_enc_shape_at(text@, k, cfg);
                }
            }
        }
        return Err(TotpError::Corrupt);
    }
    let digits32: u32 = dv as u32;
    // step line
    let p2 = match skip_unknown(text, nl2 + 1) {
        Ok(p) => p,
        Err(_) => {
            proof {
                assert forall|cfg: TotpConfig, k: int|
                    !(cfg.wf() && #[trigger] encoding_after_unknown(text@, k, cfg)) by {
                    if cfg.wf() && encoding_after_unknown(text@, k, cfg) {
                        lemma_enc_shape_at(text@, k, cfg);
                    }
                }
            }
            return Err(TotpError::Corrupt);
        },
    };
    proof {
        assert forall|cfg: TotpConfig, k: int|
            cfg.wf() && #[trigger] encoding_after_unknown(text@, k, cfg) implies p2 == k + enc_nl2(cfg)
            + 1 by {
            lemma_enc_shape_at(text@, k, cfg);
        }
    }
    if !starts_with(text, p2, "step_seconds: ".as_bytes()) {
        proof {
            assert forall|cfg: TotpConfig, k: int|
                !(cfg.wf() && #[trigger] encoding_after_unknown(text@, k, cfg)) by {
                if cfg.wf() && encoding_after_unknown(text@, k, cfg) {
                    lemma_enc_shape_at(text@, k, cfg);
                }
            }
        }
        return Err(TotpError::Corrupt);
    }
    let v3lo = p2 + 14;
    let nl3 = match find_newline(text, v3lo) {
        Some(i) => i,
        None => {
            proof {
                assert forall|cfg: TotpConfig, k: int|
                    !(cfg.wf() && #[trigger] encoding_after_unknown(text@, k, cfg)) by {
                    if cfg.wf() && encoding_after_unknown(text@, k, cfg) {
                        lemma_enc_shape_at(text@, k, cfg);
                        assert(text@[k + enc_nl3(cfg)] == 10);
                    }
                }
            }
            return Err(TotpError::Corrupt);
        },
    };
    proof {
        assert forall|cfg: TotpConfig, k: int|
            cfg.wf() && #[trigger] encoding_after_unknown(text@, k, cfg) implies nl3 == k + enc_nl3(cfg)
            && text@.subrange(v3lo as int, nl3 as int) == spec_dec(cfg.step_seconds as nat) by {
            lemma_enc_shape_at(text@, k, cfg);
            if nl3 < k + enc_nl3(cfg) {
                assert(text@[nl3 as int] != 10);
            }
            if nl3 > k + enc_nl3(cfg) {
                assert(text@[k + enc_nl3(cfg)] == 10);
            }
        }
    }
    let sv = match parse_dec(text, v3lo, nl3) {
        Some(v) => v,
        None => {
            proof {
                assert forall|cfg: TotpConfig, k: int|
                    !(cfg.wf() && #[trigger] encoding_after_unknown(text@, k, cfg)) by {
                    if cfg.wf() && encoding_after_unknown(text@, k, cfg) {
                        lemma_enc_shape_at(text@, k, cfg);
                        lemma_dec_digits(cfg.step_seconds as nat);
                        lemma_dec_val_round_trip(cfg.step_seconds as nat);
                    }
                }
            }
            return Err(TotpError::Corrupt);
        },
    };
    proof {
        assert forall|cfg: TotpConfig, k: int|
            cfg.wf() && #[trigger] encoding_after_unknown(text@, k, cfg) implies sv
            == cfg.step_seconds by {
            lemma_enc_shape_at(text@, k, cfg);
            lemma_dec_val_round_trip(cfg.step_seconds as nat);
        }
    }
    if sv < 1 {
        proof {
            assert forall|cfg: TotpConfig, k: int|
                !(cfg.wf() && #[trigger] encoding_after_unknown(text@, k, cfg)) by {
                if cfg.wf() && encoding_after_unknown(text@, k, cfg) {
                    lemma_enc_shape_at(text@, k, cfg);
                }
            }
        }
        return Err(TotpError::Corrupt);
    }
    // skew line
    let p3 = match skip_unknown(text, nl3 + 1) {
        Ok(p) => p,
        Err(_) => {
            proof {
                assert forall|cfg: TotpConfig, k: int|
                    !(cfg.wf() && #[trigger] encoding_after_unknown(text@, k, cfg)) by {
                    if cfg.wf() && encoding_after_unknown(text@, k, cfg) {
                        lemma_enc_shape_at(text@, k, cfg);
                    }
                }
            }
            return Err(TotpError::Corrupt);
        },
    };
    proof {
        assert forall|cfg: TotpConfig, k: int|
            cfg.wf() && #[trigger] encoding_after_unknown(text@, k, cfg) implies p3 == k + enc_nl3(cfg)
            + 1 by {
            lemma_enc_shape_at(text@, k, cfg);
        }
    }
    if !starts_with(text, p3, "skew_steps: ".as_bytes()) {
        proof {
            assert forall|cfg: TotpConfig, k: int|
                !(cfg.wf() && #[trigger] encoding_after_unknown(text@, k, cfg)) by {
                if cfg.wf() && encoding_after_unknown(text@, k, cfg) {
                    lemma_enc_shape_at(text@, k, cfg);
                }
            }
        }
        return Err(TotpError::Corrupt);
    }
    let v4lo = p3 + 12;
    let nl4 = match find_newline(text, v4lo) {
        Some(i) => i,
        None => {
            proof {
                assert forall|cfg: TotpConfig, k: int|
                    !(cfg.wf() && #[trigger] encoding_after_unknown(text@, k, cfg)) by {
                    if cfg.wf() && encoding_after_unknown(text@, k, cfg) {
                        lemma_enc_shape_at(text@, k, cfg);
                        assert(text@[k + enc_nl4(cfg)] == 10);
                    }
                }
            }
            return Err(TotpError::Corrupt);
        },
    };
    proof {
        assert forall|cfg: TotpConfig, k: int|
            cfg.wf() && #[trigger] encoding_after_unknown(text@, k, cfg) implies nl4 == k + enc_nl4(cfg)
            && text@.subrange(v4lo as int, nl4 as int) == spec_dec(cfg.skew_steps as nat) by {
            lemma_enc_shape_at(text@, k, cfg);
            if nl4 < k + enc_nl4(cfg) {
                assert(text@[nl4 as int] != 10);
            }
            if nl4 > k + enc_nl4(cfg) {
                assert(text@[k + enc_nl4(cfg)] == 10);
            }
        }
    }
    let kv = match parse_dec(text, v4lo, nl4) {
        Some(v) => v,
        None => {
            proof {
                assert forall|cfg: TotpConfig, k: int|
                    !(cfg.wf() && #[trigger] encoding_after_unknown(text@, k, cfg)) by {
                    if cfg.wf() && encoding_after_unknown(text@, k, cfg) {
                        lemma_enc_shape_at(text@, k, cfg);
                        lemma_dec_digits(cfg.skew_steps as nat);
                        lemma_dec_val_round_trip(cfg.skew_steps as nat);
                    }
                }
            }
            return Err(TotpError::Corrupt);
        },
    };
    proof {
        assert forall|cfg: TotpConfig, k: int|
            cfg.wf() && #[trigger] encoding_after_unknown(text@, k, cfg) implies kv
            == cfg.skew_steps by {
            lemma_enc_shape_at(text@, k, cfg);
            lemma_dec_val_round_trip(cfg.skew_steps as nat);
        }
    }
    if kv > 0xffff_ffff {
        proof {
            assert forall|cfg: TotpConfig, k: int|
                !(cfg.wf() && #[trigger] encoding_after_unknown(text@, k, cfg)) by {
                if cfg.wf() && encoding_after_unknown(text@, k, cfg) {
                    lemma_enc_shape_at(text@, k, cfg);
                }
            }
        }
        return Err(TotpError::Corrupt);
    }
    let skew32: u32 = kv as u32;
    // secret, which must come last: its value runs to the end of the document
    let p4 = match skip_unknown(text, nl4 + 1) {
        Ok(p) => p,
        Err(_) => {
            proof {
                assert forall|cfg: TotpConfig, k: int|
                    !(cfg.wf() && #[trigger] encoding_after_unknown(text@, k, cfg)) by {
                    if cfg.wf() && encoding_after_unknown(text@, k, cfg) {
                        lemma_enc_shape_at(text@, k, cfg);
                    }
                }
            }
            return Err(TotpError::Corrupt);
        },
    };
    proof {
        assert forall|cfg: TotpConfig, k: int|
            cfg.wf() && #[trigger] encoding_after_unknown(text@, k, cfg) implies p4 == k + enc_nl4(cfg)
            + 1 by {
            lemma_enc_shape_at(text@, k, cfg);
        }
    }
    if !starts_with(text, p4, "secret: ".as_bytes()) {
        proof {
            assert forall|cfg: TotpConfig, k: int|
                !(cfg.wf() && #[trigger] encoding_after_unknown(text@, k, cfg)) by {
                if cfg.wf() && encoding_after_unknown(text@, k, cfg) {
                    lemma_enc_shape_at(text@, k, cfg);
                }
            }
        }
        return Err(TotpError::Corrupt);
    }
    let s_lo = p4 + 8;
    let pair = text.split_at(s_lo);
    let tail = pair.1;
    proof {
        assert forall|cfg: TotpConfig, k: int|
            cfg.wf() && #[trigger] encoding_after_unknown(text@, k, cfg) implies tail@ == b64_of(
            cfg.secret@,
        ) by {
            lemma_enc_shape_at(text@, k, cfg);
            assert(tail@ =~= text@.subrange(k + enc_secret_start(cfg), text@.len() as int));
        }
    }
    let secret = match base64_decode(tail) {
        Some(v) => v,
        None => {
            proof {
                assert forall|cfg: TotpConfig, k: int|
                    !(cfg.wf() && #[trigger] encoding_after_unknown(text@, k, cfg)) by {
                    if cfg.wf() && encoding_after_unknown(text@, k, cfg) {
                        lemma_enc_shape_at(text@, k, cfg);
                    }
                }
            }
            return Err(TotpError::Corrupt);
        },
    };
    if secret.len() != SECRET_LEN {
        proof {
            assert forall|cfg: TotpConfig, k: int|
                !(cfg.wf() && #[trigger] encoding_after_unknown(text@, k, cfg)) by {
                if cfg.wf() && encoding_after_unknown(text@, k, cfg) {
                    lemma_enc_shape_at(text@, k, cfg);
                }
            }
        }
        return Err(TotpError::Corrupt);
    }
    let c = TotpConfig {
        algorithm: alg,
        digits: digits32,
        step_seconds: sv,
        skew_steps: skew32,
        secret,
    };
    proof {
        assert forall|cfg: TotpConfig, k: int|
            cfg.wf() && #[trigger] encoding_after_unknown(text@, k, cfg) implies cfg_matches(
            c,
            cfg,
        ) by {
            lemma_enc_shape_at(text@, k, cfg);
        }
        // the returned fields are spelled out in the document itself
        assert(text@.subrange(v1lo as int, nl1 as int) == alg_name_bytes(c.algorithm));
        assert(text@.subrange(p0 as int, nl1 + 1) =~= key_algorithm() + alg_name_bytes(
            c.algorithm,
        ) + seq![10u8]);
        assert(starts_with_seq(
            text@,
            p0 as int,
            key_algorithm() + alg_name_bytes(c.algorithm) + seq![10u8],
        ));
        let v2 = text@.subrange(v2lo as int, nl2 as int);
        assert(text@.subrange(p1 as int, nl2 + 1) =~= key_digits() + v2 + seq![10u8]);
        assert(starts_with_seq(text@, p1 as int, key_digits() + v2 + seq![10u8]) && all_digits(
            v2,
        ) && v2.len() >= 1 && dec_val(v2) == c.digits);
        let v3 = text@.subrange(v3lo as int, nl3 as int);
        assert(text@.subrange(p2 as int, nl3 + 1) =~= key_step() + v3 + seq![10u8]);
        assert(starts_with_seq(text@, p2 as int, key_step() + v3 + seq![10u8]) && all_digits(v3)
            && v3.len() >= 1 && dec_val(v3) == c.step_seconds);
        let v4 = text@.subrange(v4lo as int, nl4 as int);
        assert(text@.subrange(p3 as int, nl4 + 1) =~= key_skew() + v4 + seq![10u8]);
        assert(starts_with_seq(text@, p3 as int, key_skew() + v4 + seq![10u8]) && all_digits(v4)
            && v4.len() >= 1 && dec_val(v4) == c.skew_steps);
        assert(text@.subrange(p4 as int, slen as int) =~= key_secret() + b64_of(c.secret@));
        assert(starts_with_seq(text@, p4 as int, key_secret() + b64_of(c.secret@)) && p4
            + key_secret().len() + b64_of(c.secret@).len() == text@.len());
    }
    Ok(c)
}

fn alg_name_str(alg: HashAlgorithm) -> (r: &'static str)
    ensures
        r.spec_bytes() == alg_name_bytes(alg),
{
    match alg {
        HashAlgorithm::Sha1 => "SHA1",
        HashAlgorithm::Sha256 => "SHA256",
        HashAlgorithm::Sha512 => "SHA512",
    }
}

/// Serialize a configuration into the persisted byte form.
pub fn encode_config(cfg: &TotpConfig) -> (r: Vec<u8>)
    ensures
        r@ == spec_encode_config(*cfg),
{
    let mut out: Vec<u8> = Vec::new();
    out.extend_from_slice("algorithm: ".as_bytes());
    out.extend_from_slice(alg_name_str(cfg.algorithm).as_bytes());
    out.push(10);
    out.extend_from_slice("digits: ".as_bytes());
    let d = u64_to_dec(cfg.digits as u64);
    out.extend_from_slice(d.as_slice());
    out.push(10);
    out.extend_from_slice("step_seconds: ".as_bytes());
    let st = u64_to_dec(cfg.step_seconds);
    out.extend_from_slice(st.as_slice());
    out.push(10);
    out.extend_from_slice("skew_steps: ".as_bytes());
    let sk = u64_to_dec(cfg.skew_steps as u64);
    out.extend_from_slice(sk.as_slice());
    out.push(10);
    out.extend_from_slice("secret: ".as_bytes());
    let b64 = base64_encode(cfg.secret.as_slice());
    out.extend_from_slice(b64.as_slice());
    proof {
        assert(out@ =~= spec_encode_config(*cfg));
    }
    out
}

} // verus!
