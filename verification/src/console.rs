//! What the tracker says of faces, and when it sends it.

use crate::ieee::decimal;
use crate::ieee::fixed;
use crate::ieee::single;
use crate::ieee::single::Single;
use crate::udp::FacePacket;
use vstd::prelude::*;

verus! {

/// From how many faces on no packet is sent.
pub const TOO_MANY: usize = 40;

/// How far an eye is open, as a letter.
pub open spec fn eye_letter_spec(open: Single) -> char {
    if open.gt(single::of(decimal::N0_75)) {
        'O'
    } else if open.gt(single::of(decimal::N0_40)) {
        'o'
    } else if open.gt(single::of(decimal::N0_15)) {
        '-'
    } else {
        'x'
    }
}

/// How far an eye is open, as a letter: open, half open, a slit, shut.
#[verifier::when_used_as_spec(eye_letter_spec)]
pub fn eye_letter(open: Single) -> (r: char)
    ensures
        r == eye_letter_spec(open),
{
    if open.gt(single::of(decimal::N0_75)) {
        'O'
    } else if open.gt(single::of(decimal::N0_40)) {
        'o'
    } else if open.gt(single::of(decimal::N0_15)) {
        '-'
    } else {
        'x'
    }
}

/// How far an eye is open, as a letter and with two decimal places.
pub fn format_eye_open(open: Single) -> (r: String)
    ensures
        r@ == seq![eye_letter(open), ' '] + fixed::fixed_text(open, 2),
{
    let mut v: Vec<char> = Vec::new();
    v.push(eye_letter(open));
    v.push(' ');
    let mut n: Vec<char> = fixed::fixed(open, 2);
    v.append(&mut n);
    assert(v@ =~= seq![eye_letter(open), ' '] + fixed::fixed_text(open, 2));
    crate::text::string_of(v.as_slice())
}

/// Whether packets of so many faces are sent.
pub fn sends_packets(n: usize) -> (r: bool)
    ensures
        r == (0 < n < TOO_MANY),
{
    n > 0 && n < TOO_MANY
}

/// The face that drives the avatar: the first that was fitted, or the first at all.
pub open spec fn leader(p: Seq<FacePacket>, from: int) -> Option<int>
    decreases p.len() - from,
{
    if from < 0 || from >= p.len() {
        if p.len() > 0 {
            Some(0)
        } else {
            None
        }
    } else if p[from].success {
        Some(from)
    } else {
        leader(p, from + 1)
    }
}

/// The face that drives the avatar: the first that was fitted, or the first at all.
pub fn leading_face(p: &[FacePacket]) -> (r: Option<usize>)
    ensures
        r == (match leader(p@, 0) {
            Some(i) => Some(i as usize),
            None => None,
        }),
        r is Some ==> r->0 < p@.len(),
{
    let mut i: usize = 0;
    while i < p.len()
        invariant
            i <= p@.len(),
            leader(p@, 0) == leader(p@, i as int),
        decreases p@.len() - i,
    {
        if p[i].success {
            return Some(i);
        }
        i = i + 1;
    }
    if p.len() > 0 {
        Some(0)
    } else {
        None
    }
}

} // verus!
