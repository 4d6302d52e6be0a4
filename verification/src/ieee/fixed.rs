//! Numbers with a fixed count of decimal places.

use crate::ieee::binary;
use crate::ieee::round;
use crate::ieee::single;
use crate::ieee::single::Single;
use crate::text;
use crate::text::ten_to;
use vstd::arithmetic::div_mod::*;
use vstd::arithmetic::power2::*;
use vstd::prelude::*;

verus! {

/// The word of 2^24, from which on numbers are integers.
pub const LIMIT: u32 = 0x4b80_0000;

/// How many of the smallest numbers make one, as a power of two.
pub const UNIT: u32 = 149;

/// The magnitude of a number in units of its last decimal place, ties to even.
pub open spec fn in_places(v: Single, places: nat) -> nat {
    round::half_even(binary::value(v.mag(), single::layout()) * ten_to(places), pow2(UNIT as nat))
}

/// A number with the given count of decimal places, or the name of what is none.
pub open spec fn fixed_text(v: Single, places: nat) -> Seq<char> {
    let n = in_places(v, places);
    let sign = if v.minus() {
        seq!['-']
    } else {
        Seq::empty()
    };
    if v.is_nan() {
        seq!['N', 'a', 'N']
    } else if !v.is_finite() {
        sign + seq!['i', 'n', 'f']
    } else {
        sign + text::digits_of(n / ten_to(places)) + seq!['.'] + text::last_digits(
            n % ten_to(places),
            places,
        )
    }
}

fn ten_power(places: u32) -> (r: u64)
    requires
        places <= 4,
    ensures
        r == ten_to(places as nat),
        1 <= r <= 10_000,
{
    proof {
        reveal_with_fuel(ten_to, 5);
    }
    if places == 0 {
        1
    } else if places == 1 {
        10
    } else if places == 2 {
        100
    } else if places == 3 {
        1_000
    } else {
        10_000
    }
}

/// The magnitude of a number in units of its last decimal place, ties to even.
pub fn scaled(v: Single, places: u32) -> (n: u64)
    requires
        v.abs().lt(single::of(LIMIT)),
        places <= 4,
    ensures
        n == in_places(v, places as nat),
{
    let (_, w): (bool, u64) = v.parts();
    proof {
        single::lemma_layout();
        lemma2_to64();
    }
    binary::times_rounded(w, single::layout_of(), ten_power(places))
}

/// The digits before the point and behind it of a number.
fn halves(v: Single, places: u32) -> (r: (Vec<char>, Vec<char>))
    requires
        v.is_finite(),
        1 <= places <= 4,
    ensures
        r.0@ == text::digits_of(in_places(v, places as nat) / ten_to(places as nat)),
        r.1@ == text::last_digits(in_places(v, places as nat) % ten_to(places as nat), places as nat),
        r.0@.len() <= 39,
        r.1@.len() == places,
{
    let ten: u64 = ten_power(places);
    if v.abs().lt(single::of(LIMIT)) {
        let n: u64 = scaled(v, places);
        proof {
            text::lemma_digits_len((n / ten) as nat);
            text::lemma_last_digits_len((n % ten) as nat, places as nat);
        }
        (text::digits(n / ten), text::fraction_digits(n % ten, places))
    } else {
        let (_, w): (bool, u64) = v.parts();
        proof {
            single::lemma_layout();
            lemma2_to64();
        }
        let n: u128 = binary::whole_wide(w, single::layout_of());
        proof {
            let unit = pow2(UNIT as nat);
            lemma_pow2_pos(UNIT as nat);
            let t = ten as nat;
            assert((n * unit) * t == unit * (n * t) + 0) by (nonlinear_arith);
            lemma_fundamental_div_mod_converse(
                ((n * unit) * t) as int,
                unit as int,
                (n * t) as int,
                0,
            );
            assert(n * t == t * n + 0) by (nonlinear_arith);
            lemma_fundamental_div_mod_converse((n * t) as int, t as int, n as int, 0);
            text::lemma_wide_digits_len(n as nat);
            text::lemma_last_digits_len(0, places as nat);
        }
        (text::digits_wide(n), text::fraction_digits(0, places))
    }
}

/// A number with the given count of decimal places, or the name of what is none.
pub fn fixed(v: Single, places: u32) -> (r: Vec<char>)
    requires
        1 <= places <= 4,
    ensures
        r@ == fixed_text(v, places as nat),
        r@.len() <= 45,
{
    let mut r: Vec<char> = Vec::new();
    if v.is_nan() {
        r.push('N');
        r.push('a');
        r.push('N');
        assert(r@ =~= fixed_text(v, places as nat));
        return r;
    }
    let (minus, _): (bool, u64) = v.parts();
    if minus {
        r.push('-');
    }
    if !v.is_finite() {
        r.push('i');
        r.push('n');
        r.push('f');
        assert(r@ =~= fixed_text(v, places as nat));
        return r;
    }
    let (mut whole, mut part): (Vec<char>, Vec<char>) = halves(v, places);
    r.append(&mut whole);
    r.push('.');
    r.append(&mut part);
    assert(r@ =~= fixed_text(v, places as nat));
    r
}

} // verus!
