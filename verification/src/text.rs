use vstd::prelude::*;

use vstd::utf8::{encode_utf8, is_ascii_chars, is_ascii_chars_encode_utf8};

verus! {

/// A byte holding the ASCII code of a decimal digit.
pub open spec fn is_digit_byte(b: u8) -> bool {
    48 <= b <= 57
}

/// The characters that a sequence of ASCII bytes spells.
pub open spec fn ascii_chars_of(b: Seq<u8>) -> Seq<char> {
    b.map_values(|x: u8| x as char)
}

pub open spec fn pow10(d: nat) -> nat
    decreases d,
{
    if d == 0 {
        1
    } else {
        10 * pow10((d - 1) as nat)
    }
}

/// The decimal spelling of `v`, zero-padded on the left to exactly `d` bytes;
/// only the `d` lowest decimal digits of `v` are kept.
pub open spec fn spec_dec_pad(v: nat, d: nat) -> Seq<u8>
    decreases d,
{
    if d == 0 {
        seq![]
    } else {
        spec_dec_pad(v / 10, (d - 1) as nat) + seq![(48 + v % 10) as u8]
    }
}

pub proof fn lemma_dec_pad_digits(v: nat, d: nat)
    ensures
        spec_dec_pad(v, d).len() == d,
        forall|i: int| 0 <= i < d ==> is_digit_byte(#[trigger] spec_dec_pad(v, d)[i]),
    decreases d,
{
    if d > 0 {
        lemma_dec_pad_digits(v / 10, (d - 1) as nat);
    }
}

/// Exact powers of ten for the supported digit counts.
pub fn pow10_u32(d: u32) -> (r: u32)
    requires
        6 <= d <= 8,
    ensures
        r == pow10(d as nat),
        r >= 1,
{
    proof {
        reveal_with_fuel(pow10, 9);
    }
    if d == 6 {
        1000000
    } else if d == 7 {
        10000000
    } else {
        100000000
    }
}

/// Render `v` in decimal, zero-padded on the left to exactly `d` bytes.
pub fn dec_pad_bytes(v: u32, d: usize) -> (r: Vec<u8>)
    ensures
        r@ == spec_dec_pad(v as nat, d as nat),
        r@.len() == d,
        forall|i: int| 0 <= i < d ==> is_digit_byte(#[trigger] r@[i]),
{
    let mut buf: Vec<u8> = Vec::new();
    let mut x: u32 = v;
    let mut i: usize = 0;
    while i < d
        invariant
            i <= d,
            buf@.len() == i,
            x == spec_div_pow10(v as nat, i as nat),
            spec_dec_pad(v as nat, d as nat) == spec_dec_pad(x as nat, (d - i) as nat) + buf@,
        decreases d - i,
    {
        proof {
            assert(spec_dec_pad(x as nat, (d - i) as nat) == spec_dec_pad(
                (x / 10) as nat,
                (d - i - 1) as nat,
            ) + seq![(48 + x as nat % 10) as u8]);
        }
        let digit: u8 = 48 + (x % 10) as u8;
        // insert at the front so the lowest digit ends up last
        buf.insert(0, digit);
        x = x / 10;
        i = i + 1;
        assert(spec_dec_pad(v as nat, d as nat) =~= spec_dec_pad(x as nat, (d - i) as nat)
            + buf@);
    }
    proof {
        assert(spec_dec_pad(v as nat, d as nat) =~= buf@);
        lemma_dec_pad_digits(v as nat, d as nat);
    }
    buf
}

/// Tracks the value still to be rendered after `i` digits were peeled off.
pub open spec fn spec_div_pow10(v: nat, i: nat) -> nat
    decreases i,
{
    if i == 0 {
        v
    } else {
        spec_div_pow10(v, (i - 1) as nat) / 10
    }
}

/// The plain decimal spelling of `n`, without leading zeros.
pub open spec fn spec_dec(n: nat) -> Seq<u8>
    decreases n,
{
    if n < 10 {
        seq![(48 + n) as u8]
    } else {
        spec_dec(n / 10) + seq![(48 + n % 10) as u8]
    }
}

pub proof fn lemma_dec_digits(n: nat)
    ensures
        spec_dec(n).len() >= 1,
        forall|i: int| 0 <= i < spec_dec(n).len() ==> is_digit_byte(#[trigger] spec_dec(n)[i]),
    decreases n,
{
    if n >= 10 {
        lemma_dec_digits(n / 10);
    }
}

/// Render `n` in plain decimal.
pub fn u64_to_dec(n: u64) -> (r: Vec<u8>)
    ensures
        r@ == spec_dec(n as nat),
        forall|i: int| 0 <= i < r@.len() ==> is_digit_byte(#[trigger] r@[i]),
    decreases n,
{
    proof {
        lemma_dec_digits(n as nat);
    }
    if n < 10 {
        let mut r: Vec<u8> = Vec::new();
        r.push(48 + n as u8);
        proof {
            assert(r@ =~= spec_dec(n as nat));
        }
        r
    } else {
        let mut r = u64_to_dec(n / 10);
        r.push(48 + (n % 10) as u8);
        proof {
            assert(r@ =~= spec_dec(n as nat));
        }
        r
    }
}

/// The numeric value of a sequence of decimal digit bytes.
pub open spec fn dec_val(b: Seq<u8>) -> nat
    decreases b.len(),
{
    if b.len() == 0 {
        0
    } else {
        dec_val(b.drop_last()) * 10 + (if b.last() >= 48 {
            (b.last() - 48) as nat
        } else {
            0
        })
    }
}

/// Every byte of the sequence spells a decimal digit.
pub open spec fn all_digits(b: Seq<u8>) -> bool {
    forall|i: int| 0 <= i < b.len() ==> is_digit_byte(#[trigger] b[i])
}

/// Reading back the decimal spelling of a number recovers the number.
pub proof fn lemma_dec_val_round_trip(n: nat)
    ensures
        dec_val(spec_dec(n)) == n,
    decreases n,
{
    if n < 10 {
        assert(spec_dec(n).drop_last() =~= Seq::<u8>::empty());
        assert(dec_val(Seq::<u8>::empty()) == 0);
        assert(spec_dec(n).last() == (48 + n) as u8);
        assert(dec_val(spec_dec(n)) == n);
    } else {
        lemma_dec_val_round_trip(n / 10);
        assert(spec_dec(n).drop_last() =~= spec_dec(n / 10));
        assert(spec_dec(n).last() == (48 + n % 10) as u8);
        assert((48 + n % 10) as u8 >= 48);
        assert(dec_val(spec_dec(n)) == dec_val(spec_dec(n / 10)) * 10 + n % 10);
        vstd::arithmetic::div_mod::lemma_fundamental_div_mod(n as int, 10);
        assert(n == (n / 10) * 10 + n % 10);
    }
}

/// The value of a digit string only grows as more digits follow.
pub proof fn lemma_dec_val_mono(s: Seq<u8>, lo: int, i: int, hi: int)
    requires
        0 <= lo <= i <= hi <= s.len(),
    ensures
        dec_val(s.subrange(lo, i)) <= dec_val(s.subrange(lo, hi)),
    decreases hi - i,
{
    if i < hi {
        lemma_dec_val_mono(s, lo, i + 1, hi);
        assert(s.subrange(lo, i + 1).drop_last() =~= s.subrange(lo, i));
    }
}

/// The UTF-8 encoding of the characters that ASCII bytes spell is the
/// byte sequence itself.
pub proof fn lemma_ascii_chars_bytes(b: Seq<u8>)
    requires
        forall|i: int| 0 <= i < b.len() ==> b[i] < 128,
    ensures
        encode_utf8(ascii_chars_of(b)) == b,
{
    let chars = ascii_chars_of(b);
    assert(is_ascii_chars(chars)) by {
        assert(forall|i: int| 0 <= i < chars.len() ==> #[trigger] chars[i] <= '\u{7f}') by {
            assert(forall|i: int| 0 <= i < b.len() ==> b[i] < 128 && #[trigger] chars[i] == b[i]
                as char);
        }
    }
    is_ascii_chars_encode_utf8(chars);
    assert(encode_utf8(chars) =~= b);
}

/// Relies on String::from_utf8: ASCII bytes form valid UTF-8, so the
/// conversion succeeds and yields exactly one character per byte.
#[verifier::external_body]
pub(crate) fn ascii_to_string(v: Vec<u8>) -> (r: String)
    requires
        forall|i: int| 0 <= i < v@.len() ==> v@[i] < 128,
    ensures
        r@ == ascii_chars_of(v@),
{
    String::from_utf8(v).expect("ASCII bytes are valid UTF-8")
}

/// Byte-sequence equality without an early exit: the comparison inspects
/// every position even after a mismatch, so its timing does not reveal the
/// position of the first differing byte.
pub fn constant_time_eq(a: &[u8], b: &[u8]) -> (r: bool)
    ensures
        r == (a@ == b@),
{
    if a.len() != b.len() {
        return false;
    }
    let n = a.len();
    let mut diff: u8 = 0;
    let mut i: usize = 0;
    while i < n
        invariant
            n == a@.len() == b@.len(),
            i <= n,
            (diff == 0) <==> (forall|j: int| 0 <= j < i ==> a@[j] == b@[j]),
        decreases n - i,
    {
        let ai = a[i];
        let bi = b[i];
        proof {
            assert(((ai ^ bi) == 0) == (ai == bi)) by (bit_vector);
            assert(((diff | (ai ^ bi)) == 0) == (diff == 0 && (ai ^ bi) == 0)) by (bit_vector);
        }
        diff = diff | (ai ^ bi);
        i = i + 1;
    }
    if diff == 0 {
        proof {
            assert(a@ =~= b@);
        }
        true
    } else {
        false
    }
}

} // verus!
