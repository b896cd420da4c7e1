//! The counter types of a Count-Min sketch: signed and unsigned integers of 8 to 64 bits.
use vstd::prelude::*;

verus! {

/// `a / b` rounded toward zero.
pub open spec fn trunc_div(a: int, b: int) -> int {
    if a >= 0 {
        a / b
    } else {
        -((-a) / b)
    }
}

/// `m * num / den`, rounded down, for `num <= den`.
fn scale_mag(m: u128, num: u64, den: u64) -> (r: u128)
    requires
        m <= 0x1_0000_0000_0000_0000,
        0 < den,
        num <= den,
    ensures
        r == (m * num) / (den as int),
        r <= m,
{
    proof {
        assert(m * num <= 0x1_0000_0000_0000_0000 * 0xffff_ffff_ffff_ffff) by (nonlinear_arith)
            requires
                m <= 0x1_0000_0000_0000_0000,
                num <= 0xffff_ffff_ffff_ffff,
        ;
        assert((m * num) / (den as int) <= m) by (nonlinear_arith)
            requires
                num <= den,
                0 < den,
        ;
    }
    (m * num as u128) / den as u128
}

/// The number a 64-bit word stands for in counters of type `V`: two's complement when `V` is
/// signed.
pub open spec fn word_value<V: CountMinValue>(w: u64) -> int {
    if V::min_v() < 0 && w >= 0x8000_0000_0000_0000 {
        w - 0x1_0000_0000_0000_0000
    } else {
        w as int
    }
}

/// A counter type of a Count-Min sketch.
pub trait CountMinValue: Copy + Sized {
    /// The counter as a number.
    spec fn v(&self) -> int;

    /// The smallest value of the type.
    spec fn min_v() -> int;

    /// The largest value of the type.
    spec fn max_v() -> int;

    /// The type's tag in a serialized image.
    spec fn tag_spec() -> u8;

    proof fn lemma_range(x: Self)
        ensures
            Self::min_v() <= x.v() <= Self::max_v(),
            Self::min_v() <= 0,
            127 <= Self::max_v() <= u64::MAX,
            Self::min_v() == 0 || Self::min_v() == -Self::max_v() - 1,
    ;

    fn zero() -> (r: Self)
        ensures
            r.v() == 0,
    ;

    fn one() -> (r: Self)
        ensures
            r.v() == 1,
    ;

    fn type_tag() -> (r: u8)
        ensures
            r == Self::tag_spec(),
    ;

    /// Whether the type holds negative values.
    fn signed() -> (r: bool)
        ensures
            r == (Self::min_v() < 0),
    ;

    fn add(self, other: Self) -> (r: Self)
        requires
            Self::min_v() <= self.v() + other.v() <= Self::max_v(),
        ensures
            r.v() == self.v() + other.v(),
    ;

    fn abs(self) -> (r: Self)
        requires
            self.v() > Self::min_v() || self.v() >= 0,
        ensures
            r.v() == if self.v() >= 0 {
                self.v()
            } else {
                -self.v()
            },
    ;

    fn lt(self, other: Self) -> (r: bool)
        ensures
            r == (self.v() < other.v()),
    ;

    /// Halves, rounding toward zero.
    fn halve(self) -> (r: Self)
        ensures
            r.v() == trunc_div(self.v(), 2),
    ;

    /// Multiplies by `num / den`, rounding toward zero.
    fn scale(self, num: u64, den: u64) -> (r: Self)
        requires
            0 < den,
            num <= den,
        ensures
            r.v() == trunc_div(self.v() * num, den as int),
    ;

    /// A non-negative counter as a wide unsigned number.
    fn magnitude(self) -> (r: u128)
        requires
            self.v() >= 0,
        ensures
            r == self.v(),
    ;

    /// `self + x`, or the largest value where that does not fit.
    fn add_sat(self, x: u128) -> (r: Self)
        ensures
            r.v() == if self.v() + x > Self::max_v() {
                Self::max_v()
            } else {
                self.v() + x
            },
    ;

    /// `self - x`, or the smallest value where that does not fit.
    fn sub_sat(self, x: u128) -> (r: Self)
        ensures
            r.v() == if self.v() - x < Self::min_v() {
                Self::min_v()
            } else {
                self.v() - x
            },
    ;

    /// The counter as a 64-bit two's-complement word.
    fn to_word(self) -> (r: u64)
        ensures
            r == self.to_word_spec(),
            r as int == if self.v() >= 0 {
                self.v()
            } else {
                self.v() + 0x1_0000_0000_0000_0000
            },
    ;

    /// The counter that a 64-bit two's-complement word holds, if the type can hold it.
    fn from_word(w: u64) -> (r: Option<Self>)
        ensures
            r matches Some(x) ==> x.to_word_spec() == w,
            r matches Some(x) ==> x.v() == if Self::min_v() < 0 && w >= 0x8000_0000_0000_0000 {
                w - 0x1_0000_0000_0000_0000
            } else {
                w as int
            },
            r is None <==> !Self::word_fits(w),
    ;

    spec fn word_fits(w: u64) -> bool;

    spec fn to_word_spec(&self) -> u64;
}

impl CountMinValue for i8 {
    open spec fn v(&self) -> int {
        *self as int
    }

    open spec fn min_v() -> int {
        -128
    }

    open spec fn max_v() -> int {
        127
    }

    open spec fn tag_spec() -> u8 {
        1
    }

    proof fn lemma_range(x: Self) {
    }

    fn zero() -> (r: Self) {
        0
    }

    fn one() -> (r: Self) {
        1
    }

    fn type_tag() -> (r: u8) {
        1
    }

    fn signed() -> (r: bool) {
        true
    }

    fn add(self, other: Self) -> (r: Self) {
        self + other
    }

    fn abs(self) -> (r: Self) {
        if self >= 0 {
            self
        } else {
            -self
        }
    }

    fn lt(self, other: Self) -> (r: bool) {
        self < other
    }

    fn halve(self) -> (r: Self) {
        if self >= 0 {
            ((self as u64) / 2) as i8
        } else {
            -((((-(self as i128)) as u64) / 2) as i128) as i8
        }
    }

    fn scale(self, num: u64, den: u64) -> (r: Self) {
        if self >= 0 {
            scale_mag(self as u128, num, den) as i8
        } else {
            let m = (-(self as i128)) as u128;
            proof {
                assert(m as int * num as int == -(self as int * num as int)) by (nonlinear_arith)
                    requires
                        m as int == -(self as int),
                ;
            }
            -(scale_mag(m, num, den) as i128) as i8
        }
    }

    fn magnitude(self) -> (r: u128) {
        self as u128
    }

    fn add_sat(self, x: u128) -> (r: Self) {
        let xc = if x > 2 * 127u128 + 2 {
            2 * 127u128 + 2
        } else {
            x
        };
        let m = self as i128 + xc as i128;
        if m > 127 {
            127
        } else {
            m as i8
        }
    }

    fn sub_sat(self, x: u128) -> (r: Self) {
        let xc = if x > 2 * 127u128 + 2 {
            2 * 127u128 + 2
        } else {
            x
        };
        let m = self as i128 - xc as i128;
        if m < -128 {
            -128
        } else {
            m as i8
        }
    }

    fn to_word(self) -> (r: u64) {
        if self >= 0 {
            self as u64
        } else {
            let m = (-(self as i128)) as u64;
            (u64::MAX - m) + 1
        }
    }

    open spec fn word_fits(w: u64) -> bool {
        w <= 127 || w >= 18446744073709551616 + -128
    }

    open spec fn to_word_spec(&self) -> u64 {
        (if *self >= 0 {
            *self as int
        } else {
            *self + 18446744073709551616
        }) as u64
    }

    fn from_word(w: u64) -> (r: Option<Self>) {
        if w <= 127 {
            Some(w as i8)
        } else if w >= 18446744073709551488u64 {
            let m = (u64::MAX - w) + 1;
            Some(-(m as i128) as i8)
        } else {
            None
        }
    }
}

impl CountMinValue for i16 {
    open spec fn v(&self) -> int {
        *self as int
    }

    open spec fn min_v() -> int {
        -32768
    }

    open spec fn max_v() -> int {
        32767
    }

    open spec fn tag_spec() -> u8 {
        2
    }

    proof fn lemma_range(x: Self) {
    }

    fn zero() -> (r: Self) {
        0
    }

    fn one() -> (r: Self) {
        1
    }

    fn type_tag() -> (r: u8) {
        2
    }

    fn signed() -> (r: bool) {
        true
    }

    fn add(self, other: Self) -> (r: Self) {
        self + other
    }

    fn abs(self) -> (r: Self) {
        if self >= 0 {
            self
        } else {
            -self
        }
    }

    fn lt(self, other: Self) -> (r: bool) {
        self < other
    }

    fn halve(self) -> (r: Self) {
        if self >= 0 {
            ((self as u64) / 2) as i16
        } else {
            -((((-(self as i128)) as u64) / 2) as i128) as i16
        }
    }

    fn scale(self, num: u64, den: u64) -> (r: Self) {
        if self >= 0 {
            scale_mag(self as u128, num, den) as i16
        } else {
            let m = (-(self as i128)) as u128;
            proof {
                assert(m as int * num as int == -(self as int * num as int)) by (nonlinear_arith)
                    requires
                        m as int == -(self as int),
                ;
            }
            -(scale_mag(m, num, den) as i128) as i16
        }
    }

    fn magnitude(self) -> (r: u128) {
        self as u128
    }

    fn add_sat(self, x: u128) -> (r: Self) {
        let xc = if x > 2 * 32767u128 + 2 {
            2 * 32767u128 + 2
        } else {
            x
        };
        let m = self as i128 + xc as i128;
        if m > 32767 {
            32767
        } else {
            m as i16
        }
    }

    fn sub_sat(self, x: u128) -> (r: Self) {
        let xc = if x > 2 * 32767u128 + 2 {
            2 * 32767u128 + 2
        } else {
            x
        };
        let m = self as i128 - xc as i128;
        if m < -32768 {
            -32768
        } else {
            m as i16
        }
    }

    fn to_word(self) -> (r: u64) {
        if self >= 0 {
            self as u64
        } else {
            let m = (-(self as i128)) as u64;
            (u64::MAX - m) + 1
        }
    }

    open spec fn word_fits(w: u64) -> bool {
        w <= 32767 || w >= 18446744073709551616 + -32768
    }

    open spec fn to_word_spec(&self) -> u64 {
        (if *self >= 0 {
            *self as int
        } else {
            *self + 18446744073709551616
        }) as u64
    }

    fn from_word(w: u64) -> (r: Option<Self>) {
        if w <= 32767 {
            Some(w as i16)
        } else if w >= 18446744073709518848u64 {
            let m = (u64::MAX - w) + 1;
            Some(-(m as i128) as i16)
        } else {
            None
        }
    }
}

impl CountMinValue for i32 {
    open spec fn v(&self) -> int {
        *self as int
    }

    open spec fn min_v() -> int {
        -2147483648
    }

    open spec fn max_v() -> int {
        2147483647
    }

    open spec fn tag_spec() -> u8 {
        3
    }

    proof fn lemma_range(x: Self) {
    }

    fn zero() -> (r: Self) {
        0
    }

    fn one() -> (r: Self) {
        1
    }

    fn type_tag() -> (r: u8) {
        3
    }

    fn signed() -> (r: bool) {
        true
    }

    fn add(self, other: Self) -> (r: Self) {
        self + other
    }

    fn abs(self) -> (r: Self) {
        if self >= 0 {
            self
        } else {
            -self
        }
    }

    fn lt(self, other: Self) -> (r: bool) {
        self < other
    }

    fn halve(self) -> (r: Self) {
        if self >= 0 {
            ((self as u64) / 2) as i32
        } else {
            -((((-(self as i128)) as u64) / 2) as i128) as i32
        }
    }

    fn scale(self, num: u64, den: u64) -> (r: Self) {
        if self >= 0 {
            scale_mag(self as u128, num, den) as i32
        } else {
            let m = (-(self as i128)) as u128;
            proof {
                assert(m as int * num as int == -(self as int * num as int)) by (nonlinear_arith)
                    requires
                        m as int == -(self as int),
                ;
            }
            -(scale_mag(m, num, den) as i128) as i32
        }
    }

    fn magnitude(self) -> (r: u128) {
        self as u128
    }

    fn add_sat(self, x: u128) -> (r: Self) {
        let xc = if x > 2 * 2147483647u128 + 2 {
            2 * 2147483647u128 + 2
        } else {
            x
        };
        let m = self as i128 + xc as i128;
        if m > 2147483647 {
            2147483647
        } else {
            m as i32
        }
    }

    fn sub_sat(self, x: u128) -> (r: Self) {
        let xc = if x > 2 * 2147483647u128 + 2 {
            2 * 2147483647u128 + 2
        } else {
            x
        };
        let m = self as i128 - xc as i128;
        if m < -2147483648 {
            -2147483648
        } else {
            m as i32
        }
    }

    fn to_word(self) -> (r: u64) {
        if self >= 0 {
            self as u64
        } else {
            let m = (-(self as i128)) as u64;
            (u64::MAX - m) + 1
        }
    }

    open spec fn word_fits(w: u64) -> bool {
        w <= 2147483647 || w >= 18446744073709551616 + -2147483648
    }

    open spec fn to_word_spec(&self) -> u64 {
        (if *self >= 0 {
            *self as int
        } else {
            *self + 18446744073709551616
        }) as u64
    }

    fn from_word(w: u64) -> (r: Option<Self>) {
        if w <= 2147483647 {
            Some(w as i32)
        } else if w >= 18446744071562067968u64 {
            let m = (u64::MAX - w) + 1;
            Some(-(m as i128) as i32)
        } else {
            None
        }
    }
}

impl CountMinValue for i64 {
    open spec fn v(&self) -> int {
        *self as int
    }

    open spec fn min_v() -> int {
        -9223372036854775808
    }

    open spec fn max_v() -> int {
        9223372036854775807
    }

    open spec fn tag_spec() -> u8 {
        4
    }

    proof fn lemma_range(x: Self) {
    }

    fn zero() -> (r: Self) {
        0
    }

    fn one() -> (r: Self) {
        1
    }

    fn type_tag() -> (r: u8) {
        4
    }

    fn signed() -> (r: bool) {
        true
    }

    fn add(self, other: Self) -> (r: Self) {
        self + other
    }

    fn abs(self) -> (r: Self) {
        if self >= 0 {
            self
        } else {
            -self
        }
    }

    fn lt(self, other: Self) -> (r: bool) {
        self < other
    }

    fn halve(self) -> (r: Self) {
        if self >= 0 {
            ((self as u64) / 2) as i64
        } else {
            -((((-(self as i128)) as u64) / 2) as i128) as i64
        }
    }

    fn scale(self, num: u64, den: u64) -> (r: Self) {
        if self >= 0 {
            scale_mag(self as u128, num, den) as i64
        } else {
            let m = (-(self as i128)) as u128;
            proof {
                assert(m as int * num as int == -(self as int * num as int)) by (nonlinear_arith)
                    requires
                        m as int == -(self as int),
                ;
            }
            -(scale_mag(m, num, den) as i128) as i64
        }
    }

    fn magnitude(self) -> (r: u128) {
        self as u128
    }

    fn add_sat(self, x: u128) -> (r: Self) {
        let xc = if x > 2 * 9223372036854775807u128 + 2 {
            2 * 9223372036854775807u128 + 2
        } else {
            x
        };
        let m = self as i128 + xc as i128;
        if m > 9223372036854775807 {
            9223372036854775807
        } else {
            m as i64
        }
    }

    fn sub_sat(self, x: u128) -> (r: Self) {
        let xc = if x > 2 * 9223372036854775807u128 + 2 {
            2 * 9223372036854775807u128 + 2
        } else {
            x
        };
        let m = self as i128 - xc as i128;
        if m < -9223372036854775808 {
            -9223372036854775808
        } else {
            m as i64
        }
    }

    fn to_word(self) -> (r: u64) {
        if self >= 0 {
            self as u64
        } else {
            let m = (-(self as i128)) as u64;
            (u64::MAX - m) + 1
        }
    }

    open spec fn word_fits(w: u64) -> bool {
        w <= 9223372036854775807 || w >= 18446744073709551616 + -9223372036854775808
    }

    open spec fn to_word_spec(&self) -> u64 {
        (if *self >= 0 {
            *self as int
        } else {
            *self + 18446744073709551616
        }) as u64
    }

    fn from_word(w: u64) -> (r: Option<Self>) {
        if w <= 9223372036854775807 {
            Some(w as i64)
        } else if w >= 9223372036854775808u64 {
            let m = (u64::MAX - w) + 1;
            Some(-(m as i128) as i64)
        } else {
            None
        }
    }
}

impl CountMinValue for u8 {
    open spec fn v(&self) -> int {
        *self as int
    }

    open spec fn min_v() -> int {
        0
    }

    open spec fn max_v() -> int {
        255
    }

    open spec fn tag_spec() -> u8 {
        5
    }

    proof fn lemma_range(x: Self) {
    }

    fn zero() -> (r: Self) {
        0
    }

    fn one() -> (r: Self) {
        1
    }

    fn type_tag() -> (r: u8) {
        5
    }

    fn signed() -> (r: bool) {
        false
    }

    fn add(self, other: Self) -> (r: Self) {
        self + other
    }

    fn abs(self) -> (r: Self) {
        self
    }

    fn lt(self, other: Self) -> (r: bool) {
        self < other
    }

    fn halve(self) -> (r: Self) {
        self / 2
    }

    fn scale(self, num: u64, den: u64) -> (r: Self) {
        scale_mag(self as u128, num, den) as u8
    }

    fn magnitude(self) -> (r: u128) {
        self as u128
    }

    fn add_sat(self, x: u128) -> (r: Self) {
        if x > 255u128 - self as u128 {
            255
        } else {
            (self as u128 + x) as u8
        }
    }

    fn sub_sat(self, x: u128) -> (r: Self) {
        if x >= self as u128 {
            0
        } else {
            (self as u128 - x) as u8
        }
    }

    fn to_word(self) -> (r: u64) {
        self as u64
    }

    open spec fn word_fits(w: u64) -> bool {
        w <= 255
    }

    open spec fn to_word_spec(&self) -> u64 {
        *self as u64
    }

    fn from_word(w: u64) -> (r: Option<Self>) {
        if w <= 255 {
            Some(w as u8)
        } else {
            None
        }
    }
}

impl CountMinValue for u16 {
    open spec fn v(&self) -> int {
        *self as int
    }

    open spec fn min_v() -> int {
        0
    }

    open spec fn max_v() -> int {
        65535
    }

    open spec fn tag_spec() -> u8 {
        6
    }

    proof fn lemma_range(x: Self) {
    }

    fn zero() -> (r: Self) {
        0
    }

    fn one() -> (r: Self) {
        1
    }

    fn type_tag() -> (r: u8) {
        6
    }

    fn signed() -> (r: bool) {
        false
    }

    fn add(self, other: Self) -> (r: Self) {
        self + other
    }

    fn abs(self) -> (r: Self) {
        self
    }

    fn lt(self, other: Self) -> (r: bool) {
        self < other
    }

    fn halve(self) -> (r: Self) {
        self / 2
    }

    fn scale(self, num: u64, den: u64) -> (r: Self) {
        scale_mag(self as u128, num, den) as u16
    }

    fn magnitude(self) -> (r: u128) {
        self as u128
    }

    fn add_sat(self, x: u128) -> (r: Self) {
        if x > 65535u128 - self as u128 {
            65535
        } else {
            (self as u128 + x) as u16
        }
    }

    fn sub_sat(self, x: u128) -> (r: Self) {
        if x >= self as u128 {
            0
        } else {
            (self as u128 - x) as u16
        }
    }

    fn to_word(self) -> (r: u64) {
        self as u64
    }

    open spec fn word_fits(w: u64) -> bool {
        w <= 65535
    }

    open spec fn to_word_spec(&self) -> u64 {
        *self as u64
    }

    fn from_word(w: u64) -> (r: Option<Self>) {
        if w <= 65535 {
            Some(w as u16)
        } else {
            None
        }
    }
}

impl CountMinValue for u32 {
    open spec fn v(&self) -> int {
        *self as int
    }

    open spec fn min_v() -> int {
        0
    }

    open spec fn max_v() -> int {
        4294967295
    }

    open spec fn tag_spec() -> u8 {
        7
    }

    proof fn lemma_range(x: Self) {
    }

    fn zero() -> (r: Self) {
        0
    }

    fn one() -> (r: Self) {
        1
    }

    fn type_tag() -> (r: u8) {
        7
    }

    fn signed() -> (r: bool) {
        false
    }

    fn add(self, other: Self) -> (r: Self) {
        self + other
    }

    fn abs(self) -> (r: Self) {
        self
    }

    fn lt(self, other: Self) -> (r: bool) {
        self < other
    }

    fn halve(self) -> (r: Self) {
        self / 2
    }

    fn scale(self, num: u64, den: u64) -> (r: Self) {
        scale_mag(self as u128, num, den) as u32
    }

    fn magnitude(self) -> (r: u128) {
        self as u128
    }

    fn add_sat(self, x: u128) -> (r: Self) {
        if x > 4294967295u128 - self as u128 {
            4294967295
        } else {
            (self as u128 + x) as u32
        }
    }

    fn sub_sat(self, x: u128) -> (r: Self) {
        if x >= self as u128 {
            0
        } else {
            (self as u128 - x) as u32
        }
    }

    fn to_word(self) -> (r: u64) {
        self as u64
    }

    open spec fn word_fits(w: u64) -> bool {
        w <= 4294967295
    }

    open spec fn to_word_spec(&self) -> u64 {
        *self as u64
    }

    fn from_word(w: u64) -> (r: Option<Self>) {
        if w <= 4294967295 {
            Some(w as u32)
        } else {
            None
        }
    }
}

impl CountMinValue for u64 {
    open spec fn v(&self) -> int {
        *self as int
    }

    open spec fn min_v() -> int {
        0
    }

    open spec fn max_v() -> int {
        18446744073709551615
    }

    open spec fn tag_spec() -> u8 {
        8
    }

    proof fn lemma_range(x: Self) {
    }

    fn zero() -> (r: Self) {
        0
    }

    fn one() -> (r: Self) {
        1
    }

    fn type_tag() -> (r: u8) {
        8
    }

    fn signed() -> (r: bool) {
        false
    }

    fn add(self, other: Self) -> (r: Self) {
        self + other
    }

    fn abs(self) -> (r: Self) {
        self
    }

    fn lt(self, other: Self) -> (r: bool) {
        self < other
    }

    fn halve(self) -> (r: Self) {
        self / 2
    }

    fn scale(self, num: u64, den: u64) -> (r: Self) {
        scale_mag(self as u128, num, den) as u64
    }

    fn magnitude(self) -> (r: u128) {
        self as u128
    }

    fn add_sat(self, x: u128) -> (r: Self) {
        if x > 18446744073709551615u128 - self as u128 {
            18446744073709551615
        } else {
            (self as u128 + x) as u64
        }
    }

    fn sub_sat(self, x: u128) -> (r: Self) {
        if x >= self as u128 {
            0
        } else {
            (self as u128 - x) as u64
        }
    }

    fn to_word(self) -> (r: u64) {
        self as u64
    }

    open spec fn word_fits(w: u64) -> bool {
        w <= 18446744073709551615
    }

    open spec fn to_word_spec(&self) -> u64 {
        *self as u64
    }

    fn from_word(w: u64) -> (r: Option<Self>) {
        if w <= 18446744073709551615 {
            Some(w as u64)
        } else {
            None
        }
    }
}

} // verus!
