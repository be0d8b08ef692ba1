//! Fixed-width lowercase hexadecimal fields.
//!
//! Every number in a wire record is written as exactly `width` lowercase hex
//! digits, most significant first.  Fixed widths make every record's layout
//! a function of its tag alone, so the decoder can walk it by position.

use vstd::prelude::*;

verus! {

/// 16 to the power `n`.
pub open spec fn pow16(n: nat) -> nat
    decreases n,
{
    if n == 0 {
        1
    } else {
        16 * pow16((n - 1) as nat)
    }
}

pub proof fn lemma_pow16_pos(n: nat)
    ensures
        pow16(n) >= 1,
    decreases n,
{
    if n > 0 {
        lemma_pow16_pos((n - 1) as nat);
    }
}

/// `pow16` turns addition of exponents into multiplication.
pub proof fn lemma_pow16_adds(a: nat, b: nat)
    ensures
        pow16(a + b) == pow16(a) * pow16(b),
    decreases a,
{
    if a == 0 {
        assert(pow16(b) == 1 * pow16(b)) by (nonlinear_arith);
    } else {
        lemma_pow16_adds((a - 1) as nat, b);
        assert(16 * (pow16((a - 1) as nat) * pow16(b)) == (16 * pow16((a - 1) as nat)) * pow16(
            b,
        )) by (nonlinear_arith);
        assert(pow16((a + b - 1) as nat) == pow16((a - 1) as nat) * pow16(b));
    }
}

pub proof fn lemma_pow16_le(n: nat, m: nat)
    requires
        n <= m,
    ensures
        pow16(n) <= pow16(m),
{
    lemma_pow16_adds(n, (m - n) as nat);
    lemma_pow16_pos(n);
    lemma_pow16_pos((m - n) as nat);
    assert(pow16(n) * 1 <= pow16(n) * pow16((m - n) as nat)) by (nonlinear_arith)
        requires pow16(n) >= 1 && pow16((m - n) as nat) >= 1;
    assert(pow16(n) * 1 == pow16(n)) by (nonlinear_arith);
}

/// The powers of 16 that bound the widths in use.
pub proof fn lemma_pow16_values()
    ensures
        pow16(2) == 0x100,
        pow16(4) == 0x10000,
        pow16(8) == 0x100000000,
        pow16(16) == 0x10000000000000000,
        pow16(30) == 0x1000000000000000000000000000000,
        pow16(31) == 0x10000000000000000000000000000000,
        pow16(32) == 0x100000000000000000000000000000000,
{
    assert(pow16(0) == 1);
    assert(pow16(1) == 16);
    assert(pow16(2) == 0x100);
    lemma_pow16_adds(2, 2);
    assert(pow16(4) == 0x10000) by (nonlinear_arith)
        requires pow16(4) == pow16(2) * pow16(2) && pow16(2) == 0x100;
    lemma_pow16_adds(4, 4);
    assert(pow16(8) == 0x100000000) by (nonlinear_arith)
        requires pow16(8) == pow16(4) * pow16(4) && pow16(4) == 0x10000;
    lemma_pow16_adds(8, 8);
    assert(pow16(16) == 0x10000000000000000) by (nonlinear_arith)
        requires pow16(16) == pow16(8) * pow16(8) && pow16(8) == 0x100000000;
    lemma_pow16_adds(16, 8);
    assert(pow16(24) == 0x1000000000000000000000000) by (nonlinear_arith)
        requires pow16(24) == pow16(16) * pow16(8) && pow16(16) == 0x10000000000000000 && pow16(8)
            == 0x100000000;
    lemma_pow16_adds(24, 4);
    assert(pow16(28) == 0x10000000000000000000000000000) by (nonlinear_arith)
        requires pow16(28) == pow16(24) * pow16(4) && pow16(24) == 0x1000000000000000000000000
            && pow16(4) == 0x10000;
    lemma_pow16_adds(28, 2);
    assert(pow16(30) == 0x1000000000000000000000000000000) by (nonlinear_arith)
        requires pow16(30) == pow16(28) * pow16(2) && pow16(28)
            == 0x10000000000000000000000000000 && pow16(2) == 0x100;
    lemma_pow16_adds(30, 1);
    assert(pow16(31) == 0x10000000000000000000000000000000) by (nonlinear_arith)
        requires pow16(31) == pow16(30) * pow16(1) && pow16(30)
            == 0x1000000000000000000000000000000 && pow16(1) == 16;
    lemma_pow16_adds(31, 1);
    assert(pow16(32) == 0x100000000000000000000000000000000) by (nonlinear_arith)
        requires pow16(32) == pow16(31) * pow16(1) && pow16(31)
            == 0x10000000000000000000000000000000 && pow16(1) == 16;
}

/// Whether a byte is a lowercase hexadecimal digit.
pub open spec fn is_hex_digit(b: u8) -> bool {
    (48 <= b && b <= 57) || (97 <= b && b <= 102)
}

/// The value of a hex digit byte (meaningful only when `is_hex_digit`).
pub open spec fn hex_val(b: u8) -> nat {
    if 48 <= b && b <= 57 {
        (b - 48) as nat
    } else {
        (b - 87) as nat
    }
}

/// The byte of a hex digit value below 16.
pub open spec fn hex_digit(d: nat) -> u8 {
    if d < 10 {
        (48 + d) as u8
    } else {
        (87 + d) as u8
    }
}

/// `v` written as exactly `w` lowercase hex digits, most significant first.
pub open spec fn spec_encode_hex(v: nat, w: nat) -> Seq<u8> {
    Seq::new(w, |j: int| hex_digit((v / pow16((w - 1 - j) as nat)) % 16))
}

/// Reading `w` hex digits of `s` from position `at`, accumulating into `acc`.
pub open spec fn spec_parse_hex_rec(s: Seq<u8>, at: int, w: nat, acc: nat) -> Option<nat>
    decreases w,
{
    if w == 0 {
        Some(acc)
    } else if 0 <= at && at < s.len() && is_hex_digit(s[at]) {
        spec_parse_hex_rec(s, at + 1, (w - 1) as nat, acc * 16 + hex_val(s[at]))
    } else {
        None
    }
}

/// The number read from `w` hex digits of `s` at position `at`, if all `w`
/// bytes are there and are lowercase hex digits.
pub open spec fn spec_parse_hex(s: Seq<u8>, at: int, w: nat) -> Option<nat> {
    spec_parse_hex_rec(s, at, w, 0)
}

/// A hex digit byte decodes back to the value it was made from.
proof fn lemma_hex_digit_inverse(d: nat)
    requires
        d < 16,
    ensures
        is_hex_digit(hex_digit(d)),
        hex_val(hex_digit(d)) == d,
{
}

/// Parsing a buffer slice that holds the hex digits of `v` yields `v` on top
/// of the accumulator.
proof fn lemma_parse_hex_rec_encoded(s: Seq<u8>, at: int, w: nat, acc: nat, v: nat)
    requires
        v < pow16(w),
        0 <= at,
        at + w <= s.len(),
        s.subrange(at, at + w) =~= spec_encode_hex(v, w),
    ensures
        spec_parse_hex_rec(s, at, w, acc) == Some((acc * pow16(w) + v) as nat),
    decreases w,
{
    if w == 0 {
        assert(acc * 1 == acc) by (nonlinear_arith);
    } else {
        let p: nat = pow16((w - 1) as nat);
        lemma_pow16_pos((w - 1) as nat);
        assert(pow16(w) == 16 * p);
        let d0: nat = v / p;
        assert(d0 < 16) by {
            vstd::arithmetic::div_mod::lemma_multiply_divide_lt(v as int, p as int, 16);
        }
        assert(s.subrange(at, at + w)[0] == s[at]);
        assert(spec_encode_hex(v, w)[0] == hex_digit((v / pow16((w - 1) as nat)) % 16));
        assert((v as int / p as int) % 16 == d0) by {
            vstd::arithmetic::div_mod::lemma_small_mod(d0, 16);
        }
        assert(s[at] == hex_digit(d0));
        lemma_hex_digit_inverse(d0);
        let v1: nat = v % p;
        assert(v == p * d0 + v1) by {
            vstd::arithmetic::div_mod::lemma_fundamental_div_mod(v as int, p as int);
        }
        assert(v1 < p) by {
            vstd::arithmetic::div_mod::lemma_mod_bound(v as int, p as int);
        }
        // The remaining bytes are exactly the hex digits of `v % p`.
        assert(s.subrange(at + 1, at + w) =~= spec_encode_hex(v1, (w - 1) as nat)) by {
            assert forall|j: int| 0 <= j < w - 1 implies #[trigger] s.subrange(at + 1, at + w)[j]
                == spec_encode_hex(v1, (w - 1) as nat)[j] by {
                let q: nat = pow16((w - 2 - j) as nat);
                lemma_pow16_pos((w - 2 - j) as nat);
                let m: nat = pow16((j + 1) as nat);
                lemma_pow16_pos((j + 1) as nat);
                assert(p == q * m) by {
                    lemma_pow16_adds((w - 2 - j) as nat, (j + 1) as nat);
                }
                assert(v as int == v1 + (d0 * m) * q) by (nonlinear_arith)
                    requires v == p * d0 + v1 && p == q * m;
                assert(v as int / q as int == v1 as int / q as int + d0 * m) by {
                    vstd::arithmetic::div_mod::lemma_hoist_over_denominator(
                        v1 as int,
                        (d0 * m) as int,
                        q,
                    );
                }
                assert(m == 16 * pow16(j as nat));
                assert((v1 as int / q as int + d0 * m) % 16 == (v1 as int / q as int) % 16) by {
                    assert(d0 * m == 16 * (d0 * pow16(j as nat))) by (nonlinear_arith)
                        requires m == 16 * pow16(j as nat);
                    vstd::arithmetic::div_mod::lemma_mod_multiples_vanish(
                        (d0 * pow16(j as nat)) as int,
                        v1 as int / q as int,
                        16,
                    );
                }
                assert(s.subrange(at + 1, at + w)[j] == s.subrange(at, at + w)[j + 1]);
                assert(spec_encode_hex(v, w)[j + 1] == hex_digit(
                    (v / pow16((w - 2 - j) as nat)) % 16,
                ));
            }
        }
        lemma_parse_hex_rec_encoded(s, at + 1, (w - 1) as nat, acc * 16 + d0, v1);
        assert((acc * 16 + d0) * p + v1 == acc * (16 * p) + (p * d0 + v1)) by (nonlinear_arith);
    }
}

/// Round trip: a fixed-width hex field parses back to the number it encodes,
/// wherever it sits in a larger buffer.
pub proof fn lemma_parse_hex_of_encode(s: Seq<u8>, at: int, v: nat, w: nat)
    requires
        v < pow16(w),
        0 <= at,
        at + w <= s.len(),
        s.subrange(at, at + w) =~= spec_encode_hex(v, w),
    ensures
        spec_parse_hex(s, at, w) == Some(v),
{
    lemma_parse_hex_rec_encoded(s, at, w, 0, v);
    assert(0 * pow16(w) + v == v) by (nonlinear_arith);
}

/// A successful parse yields a value below `pow16(w)`.
pub proof fn lemma_parse_hex_bound(s: Seq<u8>, at: int, w: nat)
    requires
        spec_parse_hex(s, at, w) is Some,
    ensures
        spec_parse_hex(s, at, w).unwrap() < pow16(w),
{
    lemma_parse_hex_rec_bound(s, at, w, 0);
    assert((0 + 1) * pow16(w) == pow16(w)) by (nonlinear_arith);
}

proof fn lemma_parse_hex_rec_bound(s: Seq<u8>, at: int, w: nat, acc: nat)
    requires
        spec_parse_hex_rec(s, at, w, acc) is Some,
    ensures
        spec_parse_hex_rec(s, at, w, acc).unwrap() < (acc + 1) * pow16(w),
        spec_parse_hex_rec(s, at, w, acc).unwrap() >= acc * pow16(w),
    decreases w,
{
    lemma_pow16_pos(w);
    if w == 0 {
        assert(acc * 1 == acc && (acc + 1) * 1 == acc + 1) by (nonlinear_arith);
    } else {
        let p: nat = pow16((w - 1) as nat);
        assert(pow16(w) == 16 * p);
        lemma_pow16_pos((w - 1) as nat);
        let d: nat = hex_val(s[at]);
        lemma_parse_hex_rec_bound(s, at + 1, (w - 1) as nat, acc * 16 + d);
        assert((acc * 16 + d + 1) * p <= (acc + 1) * (16 * p) && (acc * 16 + d) * p >= acc * (16
            * p)) by (nonlinear_arith)
            requires d < 16 && p > 0;
    }
}

/// A hex digit byte survives the trip through its value.
proof fn lemma_hex_byte_inverse(b: u8)
    requires
        is_hex_digit(b),
    ensures
        hex_val(b) < 16,
        hex_digit(hex_val(b)) == b,
{
}

/// Canonicity: the bytes a successful parse consumed are exactly the hex
/// encoding of the value it produced, shifted by the accumulator.
proof fn lemma_parse_hex_rec_canonical(s: Seq<u8>, at: int, w: nat, acc: nat)
    requires
        0 <= at,
        spec_parse_hex_rec(s, at, w, acc) is Some,
    ensures
        w > 0 ==> at + w <= s.len(),
        spec_parse_hex_rec(s, at, w, acc).unwrap() >= acc * pow16(w),
        at + w <= s.len() ==> s.subrange(at, at + w) =~= spec_encode_hex(
            (spec_parse_hex_rec(s, at, w, acc).unwrap() - acc * pow16(w)) as nat,
            w,
        ),
    decreases w,
{
    lemma_pow16_pos(w);
    lemma_parse_hex_rec_bound(s, at, w, acc);
    let u = spec_parse_hex_rec(s, at, w, acc).unwrap();
    if w == 0 {
        assert(acc * 1 == acc) by (nonlinear_arith);
        if at <= s.len() {
            assert(s.subrange(at, at) =~= spec_encode_hex(0, 0));
        }
    } else {
        let p: nat = pow16((w - 1) as nat);
        lemma_pow16_pos((w - 1) as nat);
        assert(pow16(w) == 16 * p);
        let d0: nat = hex_val(s[at]);
        lemma_hex_byte_inverse(s[at]);
        let acc1: nat = acc * 16 + d0;
        lemma_parse_hex_rec_canonical(s, at + 1, (w - 1) as nat, acc1);
        lemma_parse_hex_rec_bound(s, at + 1, (w - 1) as nat, acc1);
        let v1: nat = (u - acc1 * p) as nat;
        let v: nat = (u - acc * pow16(w)) as nat;
        assert(u >= acc1 * p && u < (acc1 + 1) * p);
        assert(v == d0 * p + v1) by (nonlinear_arith)
            requires
                v == u - acc * (16 * p),
                v1 == u - acc1 * p,
                acc1 == acc * 16 + d0,
        ;
        assert(v1 < p) by (nonlinear_arith)
            requires u < (acc1 + 1) * p && v1 == u - acc1 * p;
        assert(u >= acc * pow16(w)) by (nonlinear_arith)
            requires
                u >= acc1 * p,
                acc1 == acc * 16 + d0,
                pow16(w) == 16 * p,
                d0 >= 0,
                p >= 1,
        ;
        // The head byte is the leading digit of `v`.
        assert(v as int / p as int == d0) by {
            vstd::arithmetic::div_mod::lemma_fundamental_div_mod_converse(
                v as int,
                p as int,
                d0 as int,
                v1 as int,
            );
        }
        assert((v / p) % 16 == d0) by {
            vstd::arithmetic::div_mod::lemma_small_mod(d0, 16);
        }
        assert(spec_encode_hex(v, w)[0] == hex_digit((v / pow16((w - 1) as nat)) % 16));
        // The tail bytes are the digits of `v % p == v1`.
        assert(v % p == v1) by {
            vstd::arithmetic::div_mod::lemma_fundamental_div_mod_converse(
                v as int,
                p as int,
                d0 as int,
                v1 as int,
            );
        }
        assert(s.subrange(at + 1, at + w) =~= spec_encode_hex(v1, (w - 1) as nat));
        // Both encodings split the same way, so compare pointwise.
        assert(v < pow16(w)) by (nonlinear_arith)
            requires u < (acc + 1) * pow16(w) && v == u - acc * pow16(w);
        assert(s.subrange(at, at + w) =~= spec_encode_hex(v, w)) by {
            lemma_encode_hex_unfold(v, w);
            assert forall|j: int| 0 <= j < w implies #[trigger] s.subrange(at, at + w)[j]
                == spec_encode_hex(v, w)[j] by {
                if j == 0 {
                    assert(s.subrange(at, at + w)[0] == s[at]);
                } else {
                    assert(s.subrange(at, at + w)[j] == s.subrange(at + 1, at + w)[j - 1]);
                    assert(spec_encode_hex(v, w)[j] == spec_encode_hex(v % p, (w - 1) as nat)[j
                        - 1]);
                }
            }
        }
    }
}

/// One encoding step: the head digit, then the digits of the remainder.
proof fn lemma_encode_hex_unfold(v: nat, w: nat)
    requires
        w >= 1,
        v < pow16(w),
    ensures
        forall|j: int|
            1 <= j < w ==> #[trigger] spec_encode_hex(v, w)[j] == spec_encode_hex(
                v % pow16((w - 1) as nat),
                (w - 1) as nat,
            )[j - 1],
{
    let p: nat = pow16((w - 1) as nat);
    lemma_pow16_pos((w - 1) as nat);
    let d0: nat = v / p;
    let v1: nat = v % p;
    assert(v == p * d0 + v1) by {
        vstd::arithmetic::div_mod::lemma_fundamental_div_mod(v as int, p as int);
    }
    assert(v1 < p) by {
        vstd::arithmetic::div_mod::lemma_mod_bound(v as int, p as int);
    }
    assert forall|j: int| 1 <= j < w implies #[trigger] spec_encode_hex(v, w)[j]
        == spec_encode_hex(v1, (w - 1) as nat)[j - 1] by {
        let q: nat = pow16((w - 1 - j) as nat);
        lemma_pow16_pos((w - 1 - j) as nat);
        let m: nat = pow16(j as nat);
        lemma_pow16_pos(j as nat);
        assert(p == q * m) by {
            lemma_pow16_adds((w - 1 - j) as nat, j as nat);
        }
        assert(v as int == v1 + (d0 * m) * q) by (nonlinear_arith)
            requires v == p * d0 + v1 && p == q * m;
        assert(v as int / q as int == v1 as int / q as int + d0 * m) by {
            vstd::arithmetic::div_mod::lemma_hoist_over_denominator(v1 as int, (d0 * m) as int, q);
        }
        assert(m == 16 * pow16((j - 1) as nat));
        assert((v1 as int / q as int + d0 * m) % 16 == (v1 as int / q as int) % 16) by {
            assert(d0 * m == 16 * (d0 * pow16((j - 1) as nat))) by (nonlinear_arith)
                requires m == 16 * pow16((j - 1) as nat);
            vstd::arithmetic::div_mod::lemma_mod_multiples_vanish(
                (d0 * pow16((j - 1) as nat)) as int,
                v1 as int / q as int,
                16,
            );
        }
    }
}

/// Canonicity: a field that parses is exactly the encoding of its value.
pub proof fn lemma_parse_hex_canonical(s: Seq<u8>, at: int, w: nat)
    requires
        0 <= at,
        spec_parse_hex(s, at, w) is Some,
    ensures
        w > 0 ==> at + w <= s.len(),
        at + w <= s.len() ==> s.subrange(at, at + w) =~= spec_encode_hex(
            spec_parse_hex(s, at, w).unwrap(),
            w,
        ),
{
    lemma_parse_hex_rec_canonical(s, at, w, 0);
    assert(0 * pow16(w) == 0) by (nonlinear_arith);
}

/// The byte of one hex digit value.
fn hex_digit_byte(d: u8) -> (b: u8)
    requires
        d < 16,
    ensures
        b == hex_digit(d as nat),
{
    if d < 10 {
        48 + d
    } else {
        87 + d
    }
}

/// Compute 16 to the power `n`.
fn pow16_exec(n: usize) -> (r: u128)
    requires
        n <= 31,
    ensures
        r == pow16(n as nat),
{
    let mut r: u128 = 1;
    let mut i: usize = 0;
    while i < n
        invariant
            i <= n <= 31,
            r == pow16(i as nat),
        decreases n - i,
    {
        proof {
            lemma_pow16_le(i as nat, 30);
            lemma_pow16_values();
            assert(pow16((i + 1) as nat) == 16 * pow16(i as nat));
        }
        r = r * 16;
        i = i + 1;
    }
    r
}

/// Append `v` to `out` as exactly `width` lowercase hex digits.
pub fn push_hex(out: &mut Vec<u8>, v: u128, width: usize)
    requires
        width <= 32,
        (v as nat) < pow16(width as nat),
    ensures
        final(out)@ =~= old(out)@ + spec_encode_hex(v as nat, width as nat),
{
    if width == 0 {
        assert(spec_encode_hex(v as nat, 0) =~= Seq::<u8>::empty());
        return ;
    }
    let mut p: u128 = pow16_exec(width - 1);
    let mut i: usize = 0;
    let ghost start = out@;
    while i < width
        invariant
            1 <= width <= 32,
            i <= width,
            i < width ==> p == pow16((width - 1 - i) as nat),
            (v as nat) < pow16(width as nat),
            out@ =~= start + Seq::new(
                i as nat,
                |j: int| hex_digit(((v as nat) / pow16((width - 1 - j) as nat)) % 16),
            ),
        decreases width - i,
    {
        proof {
            lemma_pow16_pos((width - 1 - i) as nat);
            vstd::arithmetic::div_mod::lemma_mod_bound((v / p) as int, 16);
        }
        let d: u8 = ((v / p) % 16) as u8;
        let b = hex_digit_byte(d);
        out.push(b);
        proof {
            assert((v as nat / pow16((width - 1 - i as int) as nat)) % 16 == d as nat);
            assert(out@ =~= start + Seq::new(
                (i + 1) as nat,
                |j: int| hex_digit(((v as nat) / pow16((width - 1 - j) as nat)) % 16),
            ));
        }
        if i + 1 < width {
            proof {
                lemma_pow16_pos((width - 2 - i) as nat);
                assert(p == 16 * pow16((width - 2 - i) as nat));
                assert(16 * pow16((width - 2 - i) as nat) == pow16((width - 2 - i) as nat) * 16)
                    by (nonlinear_arith);
                vstd::arithmetic::div_mod::lemma_div_by_multiple(
                    pow16((width - 2 - i) as nat) as int,
                    16,
                );
            }
            p = p / 16;
        }
        i = i + 1;
    }
    assert(out@ =~= start + spec_encode_hex(v as nat, width as nat));
}

/// Read `width` lowercase hex digits of `s` from position `at`.
pub fn parse_hex(s: &Vec<u8>, at: usize, width: usize) -> (r: Option<u128>)
    requires
        width <= 32,
    ensures
        match r {
            Some(v) => spec_parse_hex(s@, at as int, width as nat) == Some(v as nat),
            None => spec_parse_hex(s@, at as int, width as nat) is None,
        },
{
    if width == 0 {
        return Some(0);
    }
    if at >= s.len() || width > s.len() - at {
        proof {
            lemma_parse_hex_rec_short(s@, at as int, width as nat, 0);
        }
        return None;
    }
    let n: usize = s.len();
    let mut acc: u128 = 0;
    let mut i: usize = 0;
    while i < width
        invariant
            i <= width <= 32,
            n == s@.len(),
            at + width <= n,
            (acc as nat) < pow16(i as nat),
            spec_parse_hex_rec(s@, at as int + i, (width - i) as nat, acc as nat)
                == spec_parse_hex(s@, at as int, width as nat),
        decreases width - i,
    {
        proof {
            assert(at + i < at + width);
        }
        let b = s[at + i];
        let d: u8;
        if 48 <= b && b <= 57 {
            d = b - 48;
        } else if 97 <= b && b <= 102 {
            d = b - 87;
        } else {
            return None;
        }
        proof {
            lemma_pow16_le((i + 1) as nat, 32);
            lemma_pow16_values();
            assert(pow16((i + 1) as nat) == 16 * pow16(i as nat));
            assert((acc as nat) * 16 + 15 < pow16((i + 1) as nat)) by (nonlinear_arith)
                requires
                    (acc as nat) < pow16(i as nat),
                    pow16((i + 1) as nat) == 16 * pow16(i as nat),
            ;
            assert(hex_val(s@[at as int + i]) == d as nat);
        }
        acc = acc * 16 + d as u128;
        i = i + 1;
    }
    Some(acc)
}

/// A parse that would run past the end of the buffer fails.
pub proof fn lemma_parse_hex_rec_short(s: Seq<u8>, at: int, w: nat, acc: nat)
    requires
        w > 0,
        at + w > s.len(),
        at >= 0,
    ensures
        spec_parse_hex_rec(s, at, w, acc) is None,
    decreases w,
{
    if at < s.len() && is_hex_digit(s[at]) {
        lemma_parse_hex_rec_short(s, at + 1, (w - 1) as nat, acc * 16 + hex_val(s[at]));
    }
}

} // verus!
