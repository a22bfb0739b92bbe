//! Integers wide enough for every literal and bound of the data directive,
//! their decimal form and their little-endian bytes.

use vstd::prelude::*;

verus! {

/// An integer between -(2^128 - 1) and 2^128 - 1, held as a sign and a
/// magnitude. Zero is never negative.
#[derive(Clone, Copy, Debug, PartialEq, Eq)]
pub struct Number {
    negative: bool,
    magnitude: u128,
}

impl View for Number {
    type V = int;

    closed spec fn view(&self) -> int {
        if self.negative {
            -(self.magnitude as int)
        } else {
            self.magnitude as int
        }
    }
}

/// The `width` low bytes of `value` in two's complement, lowest byte first.
pub open spec fn le_bytes(value: int, width: nat) -> Seq<u8>
    decreases width,
{
    if width == 0 {
        Seq::empty()
    } else {
        seq![(value % 256) as u8] + le_bytes(value / 256, (width - 1) as nat)
    }
}

/// The character of the decimal digit `d`.
pub open spec fn digit_char(d: nat) -> char
    recommends
        d < 10,
{
    ('0' as u32 + d) as char
}

/// The decimal digits of `n`, without leading zeros.
pub open spec fn digits(n: nat) -> Seq<char>
    decreases n,
{
    if n < 10 {
        seq![digit_char(n)]
    } else {
        digits(n / 10).push(digit_char(n % 10))
    }
}

/// The decimal form of `value`, with a minus sign where it is negative.
pub open spec fn decimal(value: int) -> Seq<char> {
    if value < 0 {
        seq!['-'] + digits((-value) as nat)
    } else {
        digits(value as nat)
    }
}

/// 256 to the power of `n`.
pub open spec fn radix(n: nat) -> int
    decreases n,
{
    if n == 0 {
        1
    } else {
        256 * radix((n - 1) as nat)
    }
}

impl Number {
    /// The invariant of the type: zero has no sign.
    pub closed spec fn wf(&self) -> bool {
        self.negative ==> self.magnitude > 0
    }

    /// The number with the given sign and magnitude.
    pub fn new(negative: bool, magnitude: u128) -> (r: Number)
        ensures
            r.wf(),
            r@ == (if negative {
                -(magnitude as int)
            } else {
                magnitude as int
            }),
    {
        Number { negative: negative && magnitude > 0, magnitude }
    }

    /// The number `value`.
    pub fn from_i32(value: i32) -> (r: Number)
        ensures
            r.wf(),
            r@ == value,
    {
        Number::from_i128(value as i128)
    }

    /// The number `value`.
    pub fn from_i128(value: i128) -> (r: Number)
        ensures
            r.wf(),
            r@ == value,
    {
        if value >= 0 {
            Number { negative: false, magnitude: value as u128 }
        } else {
            let below: i128 = -(value + 1);
            Number { negative: true, magnitude: below as u128 + 1 }
        }
    }

    /// The number `value`.
    pub fn from_u128(value: u128) -> (r: Number)
        ensures
            r.wf(),
            r@ == value,
    {
        Number { negative: false, magnitude: value }
    }

    /// Whether the number is below zero.
    pub fn is_negative(&self) -> (r: bool)
        ensures
            r == (self@ < 0),
    {
        self.negative && self.magnitude > 0
    }

    /// The absolute value.
    pub fn magnitude(&self) -> (r: u128)
        ensures
            r == (if self@ < 0 {
                -self@
            } else {
                self@
            }),
    {
        self.magnitude
    }

    /// Whether `self` is at most `other`.
    pub fn at_most(&self, other: &Number) -> (r: bool)
        ensures
            r == (self@ <= other@),
    {
        if self.negative {
            if other.negative {
                other.magnitude <= self.magnitude
            } else {
                true
            }
        } else {
            if other.negative {
                self.magnitude == 0 && other.magnitude == 0
            } else {
                self.magnitude <= other.magnitude
            }
        }
    }

    /// The decimal form.
    pub fn to_decimal(&self) -> (r: Vec<char>)
        ensures
            r@ == decimal(self@),
    {
        let mut reversed: Vec<char> = Vec::new();
        let mut rest: u128 = self.magnitude;
        let ghost all: nat = self.magnitude as nat;
        while rest >= 10
            invariant
                digits(all) == digits(rest as nat) + reversed@.reverse(),
            decreases rest,
        {
            let low: u8 = (rest % 10) as u8;
            let ghost before = reversed@;
            reversed.push((0x30u8 + low) as char);
            proof {
                assert(reversed@.reverse() =~= seq![digit_char((rest % 10) as nat)]
                    + before.reverse());
                assert(digits(rest as nat) =~= digits((rest / 10) as nat) + seq![
                    digit_char((rest % 10) as nat),
                ]);
            }
            rest = rest / 10;
        }
        let ghost before = reversed@;
        reversed.push((0x30u8 + rest as u8) as char);
        assert(reversed@.reverse() =~= seq![digit_char(rest as nat)] + before.reverse());
        let mut out: Vec<char> = Vec::new();
        if self.negative && self.magnitude > 0 {
            out.push('-');
        }
        let ghost sign = out@;
        let mut i: usize = reversed.len();
        while i > 0
            invariant
                i <= reversed.len(),
                out@ == sign + reversed@.reverse().take(reversed.len() - i),
            decreases i,
        {
            i -= 1;
            let ghost before = out@;
            out.push(reversed[i]);
            assert(out@ =~= sign + reversed@.reverse().take(reversed.len() - i));
        }
        assert(reversed@.reverse().take(reversed.len() as int) =~= reversed@.reverse());
        out
    }

    /// The `width` low bytes in two's complement, lowest byte first.
    pub fn to_le_bytes(&self, width: usize) -> (r: Vec<u8>)
        requires
            width <= 16,
        ensures
            r@ == le_bytes(self@, width as nat),
    {
        let mut rest: u128 = if self.negative && self.magnitude > 0 {
            (u128::MAX - self.magnitude) + 1
        } else {
            self.magnitude
        };
        let ghost mut value: int = self@;
        let ghost lifted: bool = self@ < 0;
        let mut out: Vec<u8> = Vec::new();
        let mut k: usize = 0;
        proof {
            reveal_with_fuel(radix, 17);
            assert(radix(16) == 0x1_0000_0000_0000_0000_0000_0000_0000_0000);
        }
        while k < width
            invariant
                k <= width <= 16,
                rest == value + (if lifted {
                    radix((16 - k) as nat)
                } else {
                    0
                }),
                out@ + le_bytes(value, (width - k) as nat) == le_bytes(self@, width as nat),
            decreases width - k,
        {
            let ghost high = radix((15 - k) as nat);
            let ghost before = out@;
            proof {
                assert(radix((16 - k) as nat) == 256 * high);
                assert(rest % 256 == value % 256);
                assert(rest / 256 == value / 256 + (if lifted {
                    high
                } else {
                    0
                }));
            }
            out.push((rest % 256) as u8);
            rest = rest / 256;
            proof {
                assert(out@ + le_bytes(value / 256, (width - k - 1) as nat) =~= before + le_bytes(
                    value,
                    (width - k) as nat,
                ));
                value = value / 256;
            }
            k += 1;
        }
        assert(out@ + le_bytes(value, 0) =~= out@);
        out
    }
}

} // verus!
