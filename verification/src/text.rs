//! Text as sequences of characters.

use vstd::prelude::*;
use vstd::string::StrSliceExecFns;

verus! {

pub open spec fn lower_spec(c: char) -> char {
    if 'A' <= c <= 'Z' {
        (c as int + 32) as char
    } else {
        c
    }
}

/// The lower-case form of an ASCII letter, any other character as it is.
#[verifier::when_used_as_spec(lower_spec)]
pub fn lower(c: char) -> (r: char)
    ensures
        r == lower_spec(c),
{
    if 'A' <= c && c <= 'Z' {
        (c as u8 + 32) as char
    } else {
        c
    }
}

/// A text with its ASCII letters in lower case.
pub open spec fn lowered(s: Seq<char>) -> Seq<char> {
    s.map_values(|c: char| lower(c))
}

/// The characters of a text.
pub fn chars(s: &str) -> (r: Vec<char>)
    ensures
        r@ == s@,
{
    let n: usize = s.unicode_len();
    let mut r: Vec<char> = Vec::new();
    let mut i: usize = 0;
    while i < n
        invariant
            n == s@.len(),
            i <= n,
            r@ == s@.take(i as int),
        decreases n - i,
    {
        r.push(s.get_char(i));
        i = i + 1;
        assert(s@.take(i as int) =~= s@.take(i - 1).push(s@[i - 1]));
    }
    assert(s@.take(i as int) =~= s@);
    r
}

/// `String::push` puts a character at the end of a string.
pub assume_specification[ String::push ](s: &mut String, c: char)
    ensures
        final(s)@ == old(s)@.push(c),
;

/// The string of characters.
pub fn string_of(v: &[char]) -> (r: String)
    ensures
        r@ == v@,
{
    let mut r: String = String::new();
    let mut i: usize = 0;
    assert(v@.take(0) =~= Seq::empty());
    while i < v.len()
        invariant
            i <= v@.len(),
            r@ == v@.take(i as int),
        decreases v@.len() - i,
    {
        r.push(v[i]);
        i = i + 1;
        assert(v@.take(i as int) =~= v@.take(i - 1).push(v@[i - 1]));
    }
    assert(v@.take(i as int) =~= v@);
    r
}

/// Whether the characters spell the word.
pub fn spells(v: &[char], word: &str) -> (r: bool)
    ensures
        r == (v@ == word@),
{
    let n: usize = word.unicode_len();
    if v.len() != n {
        return false;
    }
    let mut i: usize = 0;
    while i < n
        invariant
            n == word@.len(),
            n == v@.len(),
            i <= n,
            forall|j: int| 0 <= j < i ==> v@[j] == word@[j],
        decreases n - i,
    {
        if v[i] != word.get_char(i) {
            return false;
        }
        i = i + 1;
    }
    assert(v@ =~= word@);
    true
}

/// Whether the characters spell the word, but for the case of ASCII letters.
pub fn spells_any_case(v: &[char], word: &str) -> (r: bool)
    ensures
        r == (lowered(v@) == lowered(word@)),
{
    let n: usize = word.unicode_len();
    if v.len() != n {
        assert(lowered(v@).len() != lowered(word@).len());
        return false;
    }
    let mut i: usize = 0;
    while i < n
        invariant
            n == word@.len(),
            n == v@.len(),
            i <= n,
            forall|j: int| 0 <= j < i ==> lower(v@[j]) == lower(word@[j]),
        decreases n - i,
    {
        if lower(v[i]) != lower(word.get_char(i)) {
            assert(lowered(v@)[i as int] != lowered(word@)[i as int]);
            return false;
        }
        i = i + 1;
    }
    assert(lowered(v@) =~= lowered(word@));
    true
}

/// The characters with ASCII letters in lower case.
pub fn lower_all(v: &[char]) -> (r: Vec<char>)
    ensures
        r@ == lowered(v@),
{
    let mut r: Vec<char> = Vec::new();
    let mut i: usize = 0;
    while i < v.len()
        invariant
            i <= v@.len(),
            r@.len() == i,
            forall|j: int| 0 <= j < i ==> r@[j] == lower(v@[j]),
        decreases v@.len() - i,
    {
        r.push(lower(v[i]));
        i = i + 1;
    }
    assert(r@ =~= lowered(v@));
    r
}

pub open spec fn is_space_spec(c: char) -> bool {
    let n = c as u32;
    ||| 9 <= n <= 13
    ||| n == 32
    ||| n == 0x85
    ||| n == 0xa0
    ||| n == 0x1680
    ||| 0x2000 <= n <= 0x200a
    ||| n == 0x2028
    ||| n == 0x2029
    ||| n == 0x202f
    ||| n == 0x205f
    ||| n == 0x3000
}

/// Whether a character is white space, as Unicode's property of that name has it.
#[verifier::when_used_as_spec(is_space_spec)]
pub fn is_space(c: char) -> (r: bool)
    ensures
        r == is_space_spec(c),
{
    let n: u32 = c as u32;
    (9 <= n && n <= 13) || n == 32 || n == 0x85 || n == 0xa0 || n == 0x1680 || (0x2000 <= n && n
        <= 0x200a) || n == 0x2028 || n == 0x2029 || n == 0x202f || n == 0x205f || n == 0x3000
}

/// A text without the white space at both ends.
pub open spec fn trimmed(s: Seq<char>) -> Seq<char>
    decreases s.len(),
{
    if s.len() == 0 {
        s
    } else if is_space(s.first()) {
        trimmed(s.drop_first())
    } else if is_space(s.last()) {
        trimmed(s.drop_last())
    } else {
        s
    }
}

/// The text without the white space at both ends.
pub fn trim(v: &[char]) -> (r: Vec<char>)
    ensures
        r@ == trimmed(v@),
{
    let mut a: usize = 0;
    let mut b: usize = v.len();
    proof {
        assert(v@.subrange(0, v@.len() as int) =~= v@);
    }
    while a < b && is_space(v[a])
        invariant
            a <= b,
            b == v@.len(),
            trimmed(v@.subrange(a as int, b as int)) == trimmed(v@),
        decreases b - a,
    {
        proof {
            let s = v@.subrange(a as int, b as int);
            assert(s.first() == v@[a as int]);
            assert(s.drop_first() =~= v@.subrange(a + 1, b as int));
        }
        a = a + 1;
    }
    while a < b && is_space(v[b - 1])
        invariant
            a <= b <= v@.len(),
            a < b ==> !is_space(v@[a as int]),
            trimmed(v@.subrange(a as int, b as int)) == trimmed(v@),
        decreases b - a,
    {
        proof {
            let s = v@.subrange(a as int, b as int);
            assert(s.first() == v@[a as int]);
            assert(s.last() == v@[b - 1]);
            assert(s.drop_last() =~= v@.subrange(a as int, b - 1));
        }
        b = b - 1;
    }
    proof {
        let s = v@.subrange(a as int, b as int);
        if a < b {
            assert(s.first() == v@[a as int]);
            assert(s.last() == v@[b - 1]);
        }
    }
    let mut r: Vec<char> = Vec::new();
    let mut i: usize = a;
    while i < b
        invariant
            a <= i <= b <= v@.len(),
            r@ == v@.subrange(a as int, i as int),
        decreases b - i,
    {
        r.push(v[i]);
        i = i + 1;
        assert(v@.subrange(a as int, i as int) =~= v@.subrange(a as int, i - 1).push(v@[i - 1]));
    }
    r
}

/// The character of a decimal digit.
pub open spec fn digit_char_spec(d: u64) -> char {
    (48 + d) as char
}

/// The character of a decimal digit.
#[verifier::when_used_as_spec(digit_char_spec)]
pub fn digit_char(d: u64) -> (r: char)
    requires
        d < 10,
    ensures
        r == digit_char_spec(d),
{
    (48 + d as u8) as char
}

/// A number in decimal digits, without zeros in front.
pub open spec fn digits_of(n: nat) -> Seq<char>
    decreases n,
{
    if n < 10 {
        seq![digit_char(n as u64)]
    } else {
        digits_of(n / 10).push(digit_char((n % 10) as u64))
    }
}

/// The power of ten with the given exponent.
pub open spec fn ten_to(places: nat) -> nat
    decreases places,
{
    if places == 0 {
        1
    } else {
        10 * ten_to((places - 1) as nat)
    }
}

/// The last `k` decimal digits of a number.
pub open spec fn last_digits(n: nat, k: nat) -> Seq<char>
    decreases k,
{
    if k == 0 {
        Seq::empty()
    } else {
        last_digits(n / 10, (k - 1) as nat).push(digit_char((n % 10) as u64))
    }
}

/// A number in decimal digits, without zeros in front.
pub fn digits(n: u64) -> (r: Vec<char>)
    ensures
        r@ == digits_of(n as nat),
    decreases n,
{
    if n < 10 {
        let mut r: Vec<char> = Vec::new();
        r.push(digit_char(n));
        assert(r@ =~= seq![digit_char(n)]);
        r
    } else {
        let mut r: Vec<char> = digits(n / 10);
        r.push(digit_char(n % 10));
        r
    }
}

/// A number of up to 128 bits in decimal digits, without zeros in front.
pub fn digits_wide(n: u128) -> (r: Vec<char>)
    ensures
        r@ == digits_of(n as nat),
    decreases n,
{
    if n < 10 {
        digits(n as u64)
    } else {
        let mut r: Vec<char> = digits_wide(n / 10);
        r.push(digit_char((n % 10) as u64));
        r
    }
}

/// The last `k` decimal digits of a number.
pub fn fraction_digits(n: u64, k: u32) -> (r: Vec<char>)
    ensures
        r@ == last_digits(n as nat, k as nat),
    decreases k,
{
    if k == 0 {
        let r: Vec<char> = Vec::new();
        assert(r@ =~= Seq::<char>::empty());
        r
    } else {
        let mut r: Vec<char> = fraction_digits(n / 10, k - 1);
        r.push(digit_char(n % 10));
        r
    }
}

/// An integer in decimal digits.
pub open spec fn integer_text(n: int) -> Seq<char> {
    if n < 0 {
        seq!['-'] + digits_of((-n) as nat)
    } else {
        digits_of(n as nat)
    }
}

/// An integer in decimal digits.
pub fn integer(n: i32) -> (r: Vec<char>)
    ensures
        r@ == integer_text(n as int),
{
    if n < 0 {
        let mut r: Vec<char> = Vec::new();
        r.push('-');
        let mut d: Vec<char> = digits((-(n as i64)) as u64);
        r.append(&mut d);
        assert(r@ =~= integer_text(n as int));
        r
    } else {
        digits(n as u64)
    }
}

/// A whole number, as a decimal text with an optional plus sign says it.
pub open spec fn number_in(s: Seq<char>) -> Option<nat> {
    let d = without_plus(s);
    if d.len() > 0 && all_digits(d) {
        Some(decimal_value(d))
    } else {
        None
    }
}

/// A text without a plus sign in front.
pub open spec fn without_plus(s: Seq<char>) -> Seq<char> {
    if s.len() > 0 && s[0] == '+' {
        s.skip(1)
    } else {
        s
    }
}

/// Whether a text holds decimal digits only.
pub open spec fn all_digits(d: Seq<char>) -> bool {
    forall|i: int| 0 <= i < d.len() ==> '0' <= #[trigger] d[i] <= '9'
}

/// The value of decimal digits.
pub open spec fn decimal_value(d: Seq<char>) -> nat
    decreases d.len(),
{
    if d.len() == 0 {
        0
    } else {
        (decimal_value(d.drop_last()) * 10 + (d.last() as int - 48)) as nat
    }
}

proof fn lemma_value_grows(d: Seq<char>, k: int)
    requires
        0 <= k <= d.len(),
        forall|i: int| 0 <= i < d.len() ==> '0' <= #[trigger] d[i] <= '9',
    ensures
        decimal_value(d.take(k)) <= decimal_value(d),
    decreases d.len(),
{
    if k < d.len() {
        let f = d.drop_last();
        assert(f.take(k) =~= d.take(k));
        lemma_value_grows(f, k);
    } else {
        assert(d.take(k) =~= d);
    }
}

/// The whole number below 2^32 that a decimal text says.
pub fn parse_u32(v: &[char]) -> (r: Option<u32>)
    ensures
        match number_in(v@) {
            Some(n) if n <= u32::MAX => r == Some(n as u32),
            _ => r is None,
        },
{
    let start: usize = if v.len() > 0 && v[0] == '+' {
        1
    } else {
        0
    };
    let ghost d = v@.skip(start as int);
    proof {
        assert(v@.skip(0) =~= v@);
        assert(d == without_plus(v@));
    }
    if start >= v.len() {
        return None;
    }
    let mut i: usize = start;
    while i < v.len()
        invariant
            start <= i <= v@.len(),
            d == v@.skip(start as int),
            d == without_plus(v@),
            forall|k: int| 0 <= k < i - start ==> '0' <= #[trigger] d[k] <= '9',
        decreases v@.len() - i,
    {
        let c: char = v[i];
        assert(d[i - start] == c);
        if c < '0' || c > '9' {
            return None;
        }
        i = i + 1;
    }
    let mut n: u64 = 0;
    let mut i: usize = start;
    assert(d.take(0) =~= Seq::empty());
    while i < v.len()
        invariant
            start <= i <= v@.len(),
            d == v@.skip(start as int),
            d.len() == v@.len() - start,
            d.len() > 0,
            number_in(v@) == Some(decimal_value(d)),
            forall|k: int| 0 <= k < d.len() ==> '0' <= #[trigger] d[k] <= '9',
            n <= u32::MAX,
            n == decimal_value(d.take(i - start)),
        decreases v@.len() - i,
    {
        let c: char = v[i];
        proof {
            assert(d[i - start] == c);
            assert(d.take(i - start + 1).drop_last() =~= d.take(i - start));
            assert(d.take(i - start + 1).last() == c);
            lemma_value_grows(d, i - start + 1);
        }
        n = n * 10 + (c as u64 - 48);
        if n > 0xffff_ffff {
            return None;
        }
        i = i + 1;
    }
    assert(d.take(i - start) =~= d);
    Some(n as u32)
}

proof fn lemma_digits_are_digits(n: nat)
    ensures
        digits_of(n).len() > 0,
        forall|i: int| 0 <= i < digits_of(n).len() ==> '0' <= #[trigger] digits_of(n)[i] <= '9',
        decimal_value(digits_of(n)) == n,
    decreases n,
{
    if n < 10 {
        let d = digits_of(n);
        assert(d.drop_last() =~= Seq::empty());
        assert(d.last() == digit_char(n as u64));
        assert(decimal_value(d.drop_last()) == 0);
        assert(d.last() as int == 48 + n);
    } else {
        lemma_digits_are_digits(n / 10);
        let d = digits_of(n);
        assert(d.drop_last() =~= digits_of(n / 10));
    }
}

/// The digits of a number say that number.
pub proof fn lemma_digits_read_back(n: nat)
    ensures
        number_in(digits_of(n)) == Some(n),
{
    lemma_digits_are_digits(n);
    assert('0' <= digits_of(n)[0] <= '9');
}

/// A number below 2^128 has at most 39 digits.
pub proof fn lemma_wide_digits_len(n: nat)
    requires
        n <= u128::MAX,
    ensures
        digits_of(n).len() <= 39,
{
    reveal_with_fuel(ten_to, 40);
    lemma_digits_fit(n, 39);
}

/// A number below a power of ten has no more digits than its exponent says.
pub proof fn lemma_digits_fit(n: nat, k: nat)
    requires
        k >= 1,
        n < ten_to(k),
    ensures
        digits_of(n).len() <= k,
    decreases k,
{
    if n >= 10 {
        reveal_with_fuel(ten_to, 2);
        lemma_digits_fit(n / 10, (k - 1) as nat);
    }
}

/// A number below 2^64 has at most twenty digits.
pub proof fn lemma_digits_len(n: nat)
    requires
        n <= u64::MAX,
    ensures
        digits_of(n).len() <= 20,
{
    reveal_with_fuel(digits_of, 21);
}

/// An integer of 32 bits is written with few characters.
pub proof fn lemma_integer_len(n: int)
    requires
        i32::MIN <= n <= i32::MAX,
    ensures
        integer_text(n).len() <= 21,
{
    if n < 0 {
        lemma_digits_len((-n) as nat);
    } else {
        lemma_digits_len(n as nat);
    }
}

/// As many digits as are asked for.
pub proof fn lemma_last_digits_len(n: nat, k: nat)
    ensures
        last_digits(n, k).len() == k,
    decreases k,
{
    if k > 0 {
        lemma_last_digits_len(n / 10, (k - 1) as nat);
    }
}

} // verus!
