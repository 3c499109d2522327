use vstd::prelude::*;

use vstd::arithmetic::div_mod::{lemma_div_multiples_vanish_fancy, lemma_fundamental_div_mod};
use vstd::arithmetic::mul::lemma_mul_inequality;
use vstd::utf8::{encode_utf8, encode_utf8_decode_utf8, is_ascii_chars, is_ascii_chars_encode_utf8};

use crate::hashes::{hmac_digest, spec_hmac};
use crate::text::{
    ascii_chars_of, ascii_to_string, constant_time_eq, dec_pad_bytes, is_digit_byte, pow10,
    pow10_u32, spec_dec_pad,
};
use crate::{TotpConfig, TotpError};

verus! {

/// The time-step counter: quantizes a timestamp into 30-second (by default)
/// intervals, as the code derivation prescribes.
pub open spec fn spec_counter(at_time: u64, step_seconds: u64) -> u64
    recommends
        step_seconds >= 1,
{
    at_time / step_seconds
}

/// The eight-byte big-endian encoding of the counter.
pub open spec fn spec_counter_bytes(c: u64) -> Seq<u8> {
    seq![
        ((c >> 56) & 0xff) as u8,
        ((c >> 48) & 0xff) as u8,
        ((c >> 40) & 0xff) as u8,
        ((c >> 32) & 0xff) as u8,
        ((c >> 24) & 0xff) as u8,
        ((c >> 16) & 0xff) as u8,
        ((c >> 8) & 0xff) as u8,
        (c & 0xff) as u8,
    ]
}

/// Dynamic truncation: the low four bits of the last digest byte choose an
/// offset; four bytes starting there form a 31-bit big-endian integer.
pub open spec fn spec_truncate(h: Seq<u8>) -> u32
    recommends
        h.len() >= 20,
{
    let n = h.len() as int;
    let off = (h[n - 1] & 0x0f) as int;
    (((h[off] & 0x7f) as u32) << 24) | ((h[off + 1] as u32) << 16) | ((h[off + 2] as u32) << 8)
        | (h[off + 3] as u32)
}

/// The numeric code value: the truncated digest reduced modulo 10^digits.
pub open spec fn spec_code_value(cfg: TotpConfig, at_time: u64) -> nat {
    spec_truncate(
        spec_hmac(
            cfg.algorithm,
            cfg.secret@,
            spec_counter_bytes(spec_counter(at_time, cfg.step_seconds)),
        ),
    ) as nat % pow10(cfg.digits as nat)
}

/// The code as ASCII digit bytes, zero-padded to `digits` places.
pub open spec fn spec_code_bytes(cfg: TotpConfig, at_time: u64) -> Seq<u8> {
    spec_dec_pad(spec_code_value(cfg, at_time), cfg.digits as nat)
}

/// The code as a character string; what `generate_code` returns.
pub open spec fn spec_code(cfg: TotpConfig, at_time: u64) -> Seq<char> {
    ascii_chars_of(spec_code_bytes(cfg, at_time))
}

fn counter_bytes(c: u64) -> (r: Vec<u8>)
    ensures
        r@ == spec_counter_bytes(c),
{
    let mut v: Vec<u8> = Vec::new();
    proof {
        assert((c >> 56) & 0xff < 256 && (c >> 48) & 0xff < 256 && (c >> 40) & 0xff < 256 && (c
            >> 32) & 0xff < 256 && (c >> 24) & 0xff < 256 && (c >> 16) & 0xff < 256 && (c >> 8)
            & 0xff < 256 && c & 0xff < 256) by (bit_vector);
    }
    v.push(((c >> 56) & 0xff) as u8);
    v.push(((c >> 48) & 0xff) as u8);
    v.push(((c >> 40) & 0xff) as u8);
    v.push(((c >> 32) & 0xff) as u8);
    v.push(((c >> 24) & 0xff) as u8);
    v.push(((c >> 16) & 0xff) as u8);
    v.push(((c >> 8) & 0xff) as u8);
    v.push((c & 0xff) as u8);
    proof {
        assert(v@ =~= spec_counter_bytes(c));
    }
    v
}

fn truncate_digest(h: &[u8]) -> (r: u32)
    requires
        h@.len() >= 20,
    ensures
        r == spec_truncate(h@),
{
    let n = h.len();
    let last = h[n - 1];
    proof {
        assert(last & 0x0f <= 15) by (bit_vector);
    }
    let off = (last & 0x0f) as usize;
    let b0 = h[off];
    let b1 = h[off + 1];
    let b2 = h[off + 2];
    let b3 = h[off + 3];
    (((b0 & 0x7f) as u32) << 24) | ((b1 as u32) << 16) | ((b2 as u32) << 8) | (b3 as u32)
}

/// The code as digit bytes; the string and the window check build on this.
pub fn generate_code_bytes(cfg: &TotpConfig, at_time: u64) -> (r: Vec<u8>)
    requires
        cfg.wf(),
    ensures
        r@ == spec_code_bytes(*cfg, at_time),
        r@.len() == cfg.digits,
        forall|i: int| 0 <= i < r@.len() ==> is_digit_byte(#[trigger] r@[i]),
{
    let counter = at_time / cfg.step_seconds;
    let cb = counter_bytes(counter);
    let digest = hmac_digest(cfg.algorithm, cfg.secret.as_slice(), cb.as_slice());
    let p = truncate_digest(digest.as_slice());
    let modulus = pow10_u32(cfg.digits);
    let value = p % modulus;
    dec_pad_bytes(value, cfg.digits as usize)
}

/// Derive the code for `at_time`: deterministic in the configuration and the
/// timestamp, `digits` characters, zero-padded decimal.
pub fn generate_code(cfg: &TotpConfig, at_time: u64) -> (r: String)
    requires
        cfg.wf(),
    ensures
        r@ == spec_code(*cfg, at_time),
        r@.len() == cfg.digits,
{
    let bytes = generate_code_bytes(cfg, at_time);
    ascii_to_string(bytes)
}

/// Whether `cand` matches the code at `at_time` or at one of the
/// `skew_steps` adjacent steps on either side.
pub open spec fn spec_verify_window(cfg: TotpConfig, cand: Seq<char>, at_time: u64) -> bool {
    exists|k: int|
        -(cfg.skew_steps as int) <= k <= cfg.skew_steps as int && 0 <= at_time + k * (
        cfg.step_seconds as int) <= u64::MAX && cand == #[trigger] spec_code(
            cfg,
            (at_time + k * (cfg.step_seconds as int)) as u64,
        )
}

/// ASCII digit bytes and their characters encode each other exactly.
proof fn lemma_digit_bytes_chars(cand: Seq<char>, code: Seq<u8>)
    requires
        forall|i: int| 0 <= i < code.len() ==> is_digit_byte(#[trigger] code[i]),
    ensures
        (encode_utf8(cand) == code) <==> (cand == ascii_chars_of(code)),
{
    let chars = ascii_chars_of(code);
    assert(is_ascii_chars(chars)) by {
        assert(forall|i: int| 0 <= i < chars.len() ==> #[trigger] chars[i] <= '\u{7f}') by {
            assert(forall|i: int|
                0 <= i < code.len() ==> is_digit_byte(#[trigger] code[i]) && chars[i] == code[i]
                    as char);
        }
    }
    is_ascii_chars_encode_utf8(chars);
    assert(encode_utf8(chars) =~= code);
    if encode_utf8(cand) == code {
        encode_utf8_decode_utf8(cand);
        encode_utf8_decode_utf8(chars);
        assert(cand == chars);
    }
}

/// Check `candidate` against the allowed time window. A zero timestamp is
/// rejected as `InvalidTime` rather than silently treated as the epoch.
/// Every candidate-code comparison is constant-time, and every window
/// position is inspected even after a match, so the result's timing does not
/// reveal which offset matched.
pub fn verify(cfg: &TotpConfig, candidate: &str, at_time: u64) -> (r: Result<bool, TotpError>)
    requires
        cfg.wf(),
        at_time + (cfg.skew_steps as int) * (cfg.step_seconds as int) <= u64::MAX,
    ensures
        at_time == 0 ==> r == Err::<bool, TotpError>(TotpError::InvalidTime),
        at_time != 0 ==> r == Ok::<bool, TotpError>(
            spec_verify_window(*cfg, candidate@, at_time),
        ),
{
    if at_time == 0 {
        return Err(TotpError::InvalidTime);
    }
    let cand_bytes = candidate.as_bytes();
    let skew = cfg.skew_steps as u64;
    let step = cfg.step_seconds;
    let total = 2 * skew + 1;
    let mut matched = false;
    let mut j: u64 = 0;
    while j < total
        invariant
            cfg.wf(),
            total == 2 * skew + 1,
            skew == cfg.skew_steps,
            step == cfg.step_seconds,
            at_time + skew * step <= u64::MAX,
            j <= total,
            cand_bytes@ == encode_utf8(candidate@),
            matched == exists|k: int|
                -(skew as int) <= k < j - (skew as int) && 0 <= at_time + k * (step as int)
                    <= u64::MAX && candidate@ == #[trigger] spec_code(
                    *cfg,
                    (at_time + k * (step as int)) as u64,
                ),
        decreases total - j,
    {
        let ghost k: int = j - skew;
        let ghost old_matched = matched;
        let ghost old_j = j;
        let tk_opt: Option<u64> = if j < skew {
            let back = skew - j;
            proof {
                lemma_mul_inequality(back as int, skew as int, step as int);
                assert((back as int) * (step as int) == -(k * (step as int)))
                    by (nonlinear_arith)
                    requires
                        back == skew - j,
                        k == j - skew,
                ;
            }
            let delta = back * step;
            if at_time >= delta {
                Some(at_time - delta)
            } else {
                None
            }
        } else {
            let fwd = j - skew;
            proof {
                lemma_mul_inequality(fwd as int, skew as int, step as int);
                assert((fwd as int) * (step as int) == k * (step as int));
            }
            Some(at_time + fwd * step)
        };
        match tk_opt {
            Some(tk) => {
                proof {
                    assert(tk == at_time + k * (step as int));
                }
                let code = generate_code_bytes(cfg, tk);
                let m = constant_time_eq(cand_bytes, code.as_slice());
                proof {
                    lemma_digit_bytes_chars(candidate@, code@);
                    assert(m == (candidate@ == spec_code(*cfg, (at_time + k * (step as int)) as u64)));
                }
                matched = matched || m;
                j = j + 1;
                proof {
                    if matched {
                        if old_matched {
                            let k2 = choose|k2: int|
                                -(skew as int) <= k2 < old_j - (skew as int) && 0 <= at_time + k2
                                    * (step as int) <= u64::MAX && candidate@
                                    == #[trigger] spec_code(
                                    *cfg,
                                    (at_time + k2 * (step as int)) as u64,
                                );
                            assert(-(skew as int) <= k2 < j - (skew as int) && 0 <= at_time + k2
                                * (step as int) <= u64::MAX && candidate@ == spec_code(
                                *cfg,
                                (at_time + k2 * (step as int)) as u64,
                            ));
                        } else {
                            assert(-(skew as int) <= k < j - (skew as int) && 0 <= at_time + k * (
                            step as int) <= u64::MAX && candidate@ == spec_code(
                                *cfg,
                                (at_time + k * (step as int)) as u64,
                            ));
                        }
                    } else {
                        assert forall|k2: int|
                            -(skew as int) <= k2 < j - (skew as int) && 0 <= at_time + k2 * (
                            step as int) <= u64::MAX implies candidate@ != #[trigger] spec_code(
                            *cfg,
                            (at_time + k2 * (step as int)) as u64,
                        ) by {
                            if k2 < k {
                                assert(!old_matched);
                            } else {
                                assert(k2 == k);
                            }
                        }
                    }
                }
            },
            None => {
                j = j + 1;
                proof {
                    assert(at_time + k * (step as int) < 0);
                    if matched {
                        let k2 = choose|k2: int|
                            -(skew as int) <= k2 < old_j - (skew as int) && 0 <= at_time + k2 * (
                            step as int) <= u64::MAX && candidate@ == #[trigger] spec_code(
                                *cfg,
                                (at_time + k2 * (step as int)) as u64,
                            );
                        assert(-(skew as int) <= k2 < j - (skew as int) && 0 <= at_time + k2 * (
                        step as int) <= u64::MAX && candidate@ == spec_code(
                            *cfg,
                            (at_time + k2 * (step as int)) as u64,
                        ));
                    } else {
                        assert forall|k2: int|
                            -(skew as int) <= k2 < j - (skew as int) && 0 <= at_time + k2 * (
                            step as int) <= u64::MAX implies candidate@ != #[trigger] spec_code(
                            *cfg,
                            (at_time + k2 * (step as int)) as u64,
                        ) by {
                            if k2 == k {
                                assert(at_time + k2 * (step as int) < 0);
                            }
                        }
                    }
                }
            },
        }
    }
    Ok(matched)
}

/// Check `attempt` against the configuration at `at_time`; the caller
/// sources the wall-clock time once per attempt.
pub fn verify_totp(cfg: &TotpConfig, attempt: &str, at_time: u64) -> (r: Result<
    bool,
    TotpError,
>)
    requires
        cfg.wf(),
        at_time + (cfg.skew_steps as int) * (cfg.step_seconds as int) <= u64::MAX,
    ensures
        at_time == 0 ==> r == Err::<bool, TotpError>(TotpError::InvalidTime),
        at_time != 0 ==> r == Ok::<bool, TotpError>(
            spec_verify_window(*cfg, attempt@, at_time),
        ),
{
    verify(cfg, attempt, at_time)
}

/// Code generation is deterministic: two codes derived from the same
/// configuration and timestamp are identical.
pub proof fn lemma_generate_code_deterministic(
    cfg: TotpConfig,
    at_time: u64,
    c1: Seq<char>,
    c2: Seq<char>,
)
    requires
        c1 == spec_code(cfg, at_time),
        c2 == spec_code(cfg, at_time),
    ensures
        c1 == c2,
{
}

/// Self-consistency: the code generated at `t` verifies at `t`.
pub proof fn lemma_verify_self(cfg: TotpConfig, at_time: u64)
    requires
        cfg.wf(),
    ensures
        spec_verify_window(cfg, spec_code(cfg, at_time), at_time),
{
    assert(at_time + 0 * (cfg.step_seconds as int) == at_time);
    assert(spec_code(cfg, (at_time + 0 * (cfg.step_seconds as int)) as u64) == spec_code(
        cfg,
        at_time,
    ));
}

/// Window acceptance: the code generated at `t` verifies at `t + k * step`
/// for every offset `k` within the skew window.
pub proof fn lemma_verify_window_accepts(cfg: TotpConfig, at_time: u64, k: int)
    requires
        cfg.wf(),
        -(cfg.skew_steps as int) <= k <= cfg.skew_steps as int,
        0 <= at_time + k * (cfg.step_seconds as int) <= u64::MAX,
    ensures
        spec_verify_window(
            cfg,
            spec_code(cfg, at_time),
            (at_time + k * (cfg.step_seconds as int)) as u64,
        ),
{
    let step = cfg.step_seconds as int;
    let shifted = (at_time + k * step) as u64;
    assert(shifted + (-k) * step == at_time) by {
        assert(k * step + (-k) * step == 0) by (nonlinear_arith);
    }
    assert(spec_code(cfg, (shifted + (-k) * step) as u64) == spec_code(cfg, at_time));
}

/// Window boundary exactness, counter level: one step beyond the skew
/// window, none of the counters the verifier consults equals the counter the
/// code was generated from.
pub proof fn lemma_window_boundary_counters(cfg: TotpConfig, at_time: u64, k: int, j: int)
    requires
        cfg.wf(),
        k == cfg.skew_steps + 1 || k == -(cfg.skew_steps as int) - 1,
        -(cfg.skew_steps as int) <= j <= cfg.skew_steps as int,
        0 <= at_time + k * (cfg.step_seconds as int) <= u64::MAX,
        0 <= at_time + (k + j) * (cfg.step_seconds as int) <= u64::MAX,
    ensures
        spec_counter(
            ((at_time + k * (cfg.step_seconds as int)) as u64 + j * (cfg.step_seconds as int))
                as u64,
            cfg.step_seconds,
        ) != spec_counter(at_time, cfg.step_seconds),
{
    let step = cfg.step_seconds as int;
    let m = k + j;
    let shifted = at_time + m * step;
    assert((at_time + k * step) + j * step == shifted) by {
        assert(k * step + j * step == (k + j) * step) by (nonlinear_arith);
    }
    let q = (at_time as int) / step;
    let r = (at_time as int) % step;
    lemma_fundamental_div_mod(at_time as int, step);
    assert(shifted == step * (q + m) + r) by {
        assert(step * (q + m) == step * q + m * step) by (nonlinear_arith);
    }
    lemma_div_multiples_vanish_fancy(q + m, r, step);
    assert(shifted / step == q + m);
    if k == cfg.skew_steps + 1 {
        assert(m >= 1);
    } else {
        assert(m <= -1);
    }
}

/// Window boundary exactness, code level: one step beyond the skew window,
/// verification fails provided the codes at the consulted counters differ
/// from the generated code. (When the truncated HMAC values at two distinct
/// counters happen to coincide, a code can still match outside its own step;
/// such collisions are excluded here.)
pub proof fn lemma_window_boundary_rejects(cfg: TotpConfig, at_time: u64, k: int)
    requires
        cfg.wf(),
        k == cfg.skew_steps + 1 || k == -(cfg.skew_steps as int) - 1,
        0 <= at_time + k * (cfg.step_seconds as int) <= u64::MAX,
        forall|j: int|
            {
                -(cfg.skew_steps as int) <= j <= cfg.skew_steps as int && 0 <= (at_time + k * (
                cfg.step_seconds as int)) + j * (cfg.step_seconds as int) <= u64::MAX
                    ==> #[trigger] spec_code(
                    cfg,
                    ((at_time + k * (cfg.step_seconds as int)) + j * (cfg.step_seconds as int))
                        as u64,
                ) != spec_code(cfg, at_time)
            },
    ensures
        !spec_verify_window(
            cfg,
            spec_code(cfg, at_time),
            (at_time + k * (cfg.step_seconds as int)) as u64,
        ),
{
    let step = cfg.step_seconds as int;
    let shifted = (at_time + k * step) as u64;
    assert forall|j: int|
        -(cfg.skew_steps as int) <= j <= cfg.skew_steps as int && 0 <= shifted + j * step
            <= u64::MAX implies #[trigger] spec_code(cfg, (shifted + j * step) as u64)
        != spec_code(cfg, at_time) by {
        assert(shifted + j * step == (at_time + k * step) + j * step);
    }
}

} // verus!
