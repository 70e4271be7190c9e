//! Formatting integers in decimal with underscores between groups of three
//! characters.
use vstd::prelude::*;

use crate::text::push_char;

verus! {

/// The decimal digit character for `d`.
pub open spec fn digit_char(d: nat) -> char {
    (48 + d) as char
}

/// The decimal representation of `n`, most significant digit first.
pub open spec fn decimal(n: nat) -> Seq<char>
    decreases n,
{
    if n < 10 {
        seq![digit_char(n)]
    } else {
        decimal(n / 10).push(digit_char(n % 10))
    }
}

/// The decimal representation of `i`, with a leading `-` when negative.
pub open spec fn signed_decimal(i: int) -> Seq<char> {
    if i < 0 {
        seq!['-'] + decimal((-i) as nat)
    } else {
        decimal(i as nat)
    }
}

/// The first `q` characters of `s`, with `_` put before each of them (but the
/// first) that is followed, up to the end of `s`, by a multiple of three
/// characters counting itself.
pub open spec fn separated_prefix(s: Seq<char>, q: nat) -> Seq<char>
    decreases q,
{
    if q == 0 {
        Seq::empty()
    } else {
        let p = (q - 1) as nat;
        separated_prefix(s, p) + if p > 0 && (s.len() - p) % 3 == 0 {
            seq!['_', s[p as int]]
        } else {
            seq![s[p as int]]
        }
    }
}

/// `s` with `_` between groups of three characters, counted from the right.
pub open spec fn separated(s: Seq<char>) -> Seq<char> {
    separated_prefix(s, s.len())
}

/// Trait providing a method to format integers with underscores.
pub trait Underscored {
    /// The integer value.
    spec fn int_value(&self) -> int;

    /// Returns the integer formatted with underscores.
    fn underscored(&self) -> (r: String)
        ensures
            r@ == separated(signed_decimal(self.int_value())),
    ;
}

/// The decimal digits of `n`.
fn decimal_chars(n: u128) -> (r: Vec<char>)
    ensures
        r@ == decimal(n as nat),
{
    let mut v: u128 = n;
    let mut rev: Vec<char> = Vec::new();
    loop
        invariant_except_break
            decimal(n as nat) == decimal(v as nat) + rev@.reverse(),
        ensures
            decimal(n as nat) == rev@.reverse(),
        decreases v,
    {
        if v < 10 {
            let c = (48u8 + v as u8) as char;
            proof {
                assert(rev@.push(c).reverse() =~= seq![c] + rev@.reverse());
            }
            rev.push(c);
            break;
        } else {
            let d = (v % 10) as u8;
            let c = (48u8 + d) as char;
            proof {
                assert(d as nat == (v as nat) % 10);
                assert(c == digit_char(d as nat));
                assert(rev@.push(c).reverse() =~= seq![c] + rev@.reverse());
                assert(decimal(v as nat) == decimal((v / 10) as nat).push(c));
                assert(decimal((v / 10) as nat).push(c) =~= decimal((v / 10) as nat) + seq![c]);
            }
            rev.push(c);
            v = v / 10;
        }
    }
    let mut out: Vec<char> = Vec::new();
    let mut k: usize = rev.len();
    while k > 0
        invariant
            k <= rev@.len(),
            out@ == rev@.subrange(k as int, rev@.len() as int).reverse(),
        decreases k,
    {
        k = k - 1;
        out.push(rev[k]);
        proof {
            assert(out@ =~= rev@.subrange(k as int, rev@.len() as int).reverse());
        }
    }
    proof {
        assert(rev@.subrange(0, rev@.len() as int) =~= rev@);
    }
    out
}

/// The characters of `s` with `_` between groups of three, counted from the
/// right.
fn separate(s: &Vec<char>) -> (r: String)
    ensures
        r@ == separated(s@),
{
    let n = s.len();
    let mut out = String::new();
    let mut q: usize = 0;
    while q < n
        invariant
            n == s@.len(),
            q <= n,
            out@ == separated_prefix(s@, q as nat),
        decreases n - q,
    {
        if q > 0 && (n - q) % 3 == 0 {
            push_char(&mut out, '_');
        }
        push_char(&mut out, s[q]);
        q = q + 1;
        proof {
            assert(out@ =~= separated_prefix(s@, q as nat));
        }
    }
    out
}

/// The decimal representation of a signed value, as characters.
fn signed_chars(x: i128) -> (r: Vec<char>)
    ensures
        r@ == signed_decimal(x as int),
{
    if x < 0 {
        let magnitude: u128 = ((-(x + 1)) as u128) + 1;
        let digits = decimal_chars(magnitude);
        let mut out: Vec<char> = Vec::new();
        out.push('-');
        let mut k: usize = 0;
        while k < digits.len()
            invariant
                k <= digits@.len(),
                out@ == seq!['-'] + digits@.take(k as int),
            decreases digits@.len() - k,
        {
            out.push(digits[k]);
            k = k + 1;
            proof {
                assert(out@ =~= seq!['-'] + digits@.take(k as int));
            }
        }
        proof {
            assert(digits@.take(k as int) =~= digits@);
        }
        out
    } else {
        decimal_chars(x as u128)
    }
}

impl Underscored for u8 {
    open spec fn int_value(&self) -> int {
        *self as int
    }

    fn underscored(&self) -> (r: String) {
        separate(&decimal_chars(*self as u128))
    }
}

impl Underscored for u16 {
    open spec fn int_value(&self) -> int {
        *self as int
    }

    fn underscored(&self) -> (r: String) {
        separate(&decimal_chars(*self as u128))
    }
}

impl Underscored for u32 {
    open spec fn int_value(&self) -> int {
        *self as int
    }

    fn underscored(&self) -> (r: String) {
        separate(&decimal_chars(*self as u128))
    }
}

impl Underscored for u64 {
    open spec fn int_value(&self) -> int {
        *self as int
    }

    fn underscored(&self) -> (r: String) {
        separate(&decimal_chars(*self as u128))
    }
}

impl Underscored for u128 {
    open spec fn int_value(&self) -> int {
        *self as int
    }

    fn underscored(&self) -> (r: String) {
        separate(&decimal_chars(*self))
    }
}

impl Underscored for usize {
    open spec fn int_value(&self) -> int {
        *self as int
    }

    fn underscored(&self) -> (r: String) {
        separate(&decimal_chars(*self as u128))
    }
}

impl Underscored for i8 {
    open spec fn int_value(&self) -> int {
        *self as int
    }

    fn underscored(&self) -> (r: String) {
        separate(&signed_chars(*self as i128))
    }
}

impl Underscored for i16 {
    open spec fn int_value(&self) -> int {
        *self as int
    }

    fn underscored(&self) -> (r: String) {
        separate(&signed_chars(*self as i128))
    }
}

impl Underscored for i32 {
    open spec fn int_value(&self) -> int {
        *self as int
    }

    fn underscored(&self) -> (r: String) {
        separate(&signed_chars(*self as i128))
    }
}

impl Underscored for i64 {
    open spec fn int_value(&self) -> int {
        *self as int
    }

    fn underscored(&self) -> (r: String) {
        separate(&signed_chars(*self as i128))
    }
}

impl Underscored for i128 {
    open spec fn int_value(&self) -> int {
        *self as int
    }

    fn underscored(&self) -> (r: String) {
        separate(&signed_chars(*self))
    }
}

impl Underscored for isize {
    open spec fn int_value(&self) -> int {
        *self as int
    }

    fn underscored(&self) -> (r: String) {
        separate(&signed_chars(*self as i128))
    }
}

} // verus!
