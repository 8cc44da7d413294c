//! Double precision numbers as bit patterns: telling finite numbers apart from the others and
//! ordering them, without computing with them.
use vstd::prelude::*;

verus! {

/// The weight of the sign bit.
pub const SIGN_BIT: u64 = 0x8000_0000_0000_0000;

/// The magnitude of an infinity; every larger magnitude is that of a NaN.
pub const INFINITE_MAGNITUDE: u64 = 0x7ff0_0000_0000_0000;

/// An IEEE 754 binary64 number, held as its bit pattern.
#[derive(Debug, Clone, Copy, PartialEq, Eq, Structural)]
pub struct Double {
    pub bits: u64,
}

/// The bit patterns of the numbers that bound longitudes and latitudes.
pub const PLUS_180: u64 = 0x4066_8000_0000_0000;

pub const MINUS_180: u64 = 0xc066_8000_0000_0000;

pub const PLUS_90: u64 = 0x4056_8000_0000_0000;

pub const MINUS_90: u64 = 0xc056_8000_0000_0000;

/// The bit patterns of the two infinities.
pub const PLUS_INFINITY: u64 = 0x7ff0_0000_0000_0000;

pub const MINUS_INFINITY: u64 = 0xfff0_0000_0000_0000;

/// The bit patterns of zero and one.
pub const ZERO: u64 = 0;

pub const ONE: u64 = 0x3ff0_0000_0000_0000;

impl Double {
    /// The bit pattern without its sign.
    pub open spec fn magnitude(self) -> int {
        if self.bits < SIGN_BIT {
            self.bits as int
        } else {
            self.bits - SIGN_BIT
        }
    }

    /// Not a number.
    pub open spec fn nan(self) -> bool {
        self.magnitude() > INFINITE_MAGNITUDE
    }

    /// Neither infinite nor a NaN.
    pub open spec fn finite(self) -> bool {
        self.magnitude() < INFINITE_MAGNITUDE
    }

    /// A whole number that orders the numbers other than NaN: the two zeros are equal, and of two
    /// numbers of one sign the bit patterns are in the order of the distance from zero.
    pub open spec fn rank(self) -> int {
        if self.bits < SIGN_BIT {
            self.magnitude()
        } else {
            -self.magnitude()
        }
    }

    /// The order of the numbers: a NaN is neither below nor above anything.
    pub open spec fn below(self, other: Double) -> bool {
        !self.nan() && !other.nan() && self.rank() < other.rank()
    }

    /// Below or equal.
    pub open spec fn at_most(self, other: Double) -> bool {
        !self.nan() && !other.nan() && self.rank() <= other.rank()
    }

    /// The lower of two numbers; of a number and a NaN, the number.
    pub open spec fn lower_of(self, other: Double) -> Double {
        if self.nan() || other.below(self) {
            other
        } else {
            self
        }
    }

    /// The higher of two numbers; of a number and a NaN, the number.
    pub open spec fn higher_of(self, other: Double) -> Double {
        if self.nan() || self.below(other) {
            other
        } else {
            self
        }
    }

    fn signless(self) -> (m: u64)
        ensures
            m == self.magnitude(),
            m < SIGN_BIT,
    {
        if self.bits < SIGN_BIT {
            self.bits
        } else {
            self.bits - SIGN_BIT
        }
    }

    /// Whether the number is neither infinite nor a NaN.
    pub fn is_finite(self) -> (answer: bool)
        ensures
            answer == self.finite(),
    {
        self.signless() < INFINITE_MAGNITUDE
    }

    /// Whether this is not a number.
    pub fn is_nan(self) -> (answer: bool)
        ensures
            answer == self.nan(),
    {
        self.signless() > INFINITE_MAGNITUDE
    }

    /// Whether this number is below the other.
    pub fn is_below(self, other: Double) -> (answer: bool)
        ensures
            answer == self.below(other),
    {
        if self.is_nan() || other.is_nan() {
            return false;
        }
        let a = self.signless();
        let b = other.signless();
        if self.bits < SIGN_BIT {
            other.bits < SIGN_BIT && a < b
        } else if other.bits < SIGN_BIT {
            a != 0 || b != 0
        } else {
            a > b
        }
    }

    /// Whether this number is below the other or equal to it.
    pub fn is_at_most(self, other: Double) -> (answer: bool)
        ensures
            answer == self.at_most(other),
    {
        !self.is_nan() && !other.is_nan() && !other.is_below(self)
    }

    /// The lower of two numbers; of a number and a NaN, the number.
    pub fn min_with(self, other: Double) -> (result: Double)
        ensures
            result == self.lower_of(other),
    {
        if self.is_nan() || other.is_below(self) {
            other
        } else {
            self
        }
    }

    /// The higher of two numbers; of a number and a NaN, the number.
    pub fn max_with(self, other: Double) -> (result: Double)
        ensures
            result == self.higher_of(other),
    {
        if self.is_nan() || self.is_below(other) {
            other
        } else {
            self
        }
    }
}

/// The lowest of a row of numbers, NaN left out; plus infinity where there is none.
pub open spec fn lowest(numbers: Seq<Double>) -> Double {
    numbers.fold_left(Double { bits: PLUS_INFINITY }, |low: Double, d: Double| low.lower_of(d))
}

/// The highest of a row of numbers, NaN left out; minus infinity where there is none.
pub open spec fn highest(numbers: Seq<Double>) -> Double {
    numbers.fold_left(Double { bits: MINUS_INFINITY }, |high: Double, d: Double| high.higher_of(d))
}

/// No number of the row is below its lowest, and the lowest is one of them or plus infinity.
pub proof fn law_lowest(numbers: Seq<Double>)
    ensures
        forall|i: int|
            0 <= i < numbers.len() ==> !(#[trigger] numbers[i]).below(lowest(numbers)),
        numbers.contains(lowest(numbers)) || lowest(numbers).bits == PLUS_INFINITY,
        !lowest(numbers).nan(),
    decreases numbers.len(),
{
    if numbers.len() > 0 {
        let rest = numbers.drop_last();
        law_lowest(rest);
        assert(lowest(numbers) == lowest(rest).lower_of(numbers.last()));
        assert forall|i: int| 0 <= i < numbers.len() implies !(#[trigger] numbers[i]).below(
            lowest(numbers),
        ) by {
            if i < rest.len() {
                assert(rest[i] == numbers[i]);
            }
        }
        if rest.contains(lowest(rest)) {
            let k = choose|k: int| 0 <= k < rest.len() && rest[k] == lowest(rest);
            assert(numbers[k] == lowest(rest));
        }
        assert(numbers[numbers.len() - 1] == numbers.last());
    }
}

/// No number of the row is above its highest, and the highest is one of them or minus infinity.
pub proof fn law_highest(numbers: Seq<Double>)
    ensures
        forall|i: int|
            0 <= i < numbers.len() ==> !highest(numbers).below(#[trigger] numbers[i]),
        numbers.contains(highest(numbers)) || highest(numbers).bits == MINUS_INFINITY,
        !highest(numbers).nan(),
    decreases numbers.len(),
{
    if numbers.len() > 0 {
        let rest = numbers.drop_last();
        law_highest(rest);
        assert(highest(numbers) == highest(rest).higher_of(numbers.last()));
        assert forall|i: int| 0 <= i < numbers.len() implies !highest(numbers).below(
            #[trigger] numbers[i],
        ) by {
            if i < rest.len() {
                assert(rest[i] == numbers[i]);
            }
        }
        if rest.contains(highest(rest)) {
            let k = choose|k: int| 0 <= k < rest.len() && rest[k] == highest(rest);
            assert(numbers[k] == highest(rest));
        }
        assert(numbers[numbers.len() - 1] == numbers.last());
    }
}

/// The order of numbers, told by their bit patterns: of two numbers at or above zero the pattern
/// with the smaller value is the lower number, of two below zero that with the larger value, and a
/// negative number lies below a positive one unless both are zero. A pattern whose exponent is all
/// ones and whose fraction is not empty is no number and lies nowhere.
pub proof fn law_order_of_patterns(a: Double, b: Double)
    ensures
        a.nan() <==> 0x7ff0_0000_0000_0000 < a.bits <= 0x7fff_ffff_ffff_ffff || a.bits
            > 0xfff0_0000_0000_0000,
        a.finite() <==> a.bits < 0x7ff0_0000_0000_0000 || 0x8000_0000_0000_0000 <= a.bits
            < 0xfff0_0000_0000_0000,
        a.nan() || b.nan() ==> !a.below(b) && !a.at_most(b),
        a.bits <= b.bits <= 0x7ff0_0000_0000_0000 ==> a.at_most(b) && (a.below(b) <==> a.bits
            < b.bits),
        0x8000_0000_0000_0000 <= b.bits <= a.bits <= 0xfff0_0000_0000_0000 ==> a.at_most(b) && (
        a.below(b) <==> b.bits < a.bits),
        0x8000_0000_0000_0000 <= a.bits <= 0xfff0_0000_0000_0000 && b.bits
            <= 0x7ff0_0000_0000_0000 ==> a.at_most(b) && (a.below(b) <==> a.bits
            > 0x8000_0000_0000_0000 || b.bits > 0),
        a.below(b) ==> a.at_most(b) && !b.at_most(a),
        !a.nan() && !b.nan() ==> (a.below(b) <==> !b.at_most(a)),
{
}

/// The order of numbers is that of a line: nothing lies below itself, what lies below something
/// lies below all that is above it, and the bounds of the globe lie around zero.
pub proof fn law_order_is_a_line(a: Double, b: Double, c: Double)
    ensures
        !a.below(a),
        a.below(b) && b.at_most(c) ==> a.below(c),
        a.at_most(b) && b.below(c) ==> a.below(c),
        a.at_most(b) && b.at_most(c) ==> a.at_most(c),
        (Double { bits: MINUS_INFINITY }).below(Double { bits: MINUS_180 }),
        (Double { bits: MINUS_180 }).below(Double { bits: MINUS_90 }),
        (Double { bits: MINUS_90 }).below(Double { bits: ZERO }),
        (Double { bits: ZERO }).below(Double { bits: ONE }),
        (Double { bits: ONE }).below(Double { bits: PLUS_90 }),
        (Double { bits: PLUS_90 }).below(Double { bits: PLUS_180 }),
        (Double { bits: PLUS_180 }).below(Double { bits: PLUS_INFINITY }),
        PLUS_180 - MINUS_180 == PLUS_90 - MINUS_90 == -0x8000_0000_0000_0000,
        a.finite() <==> (Double { bits: MINUS_INFINITY }).below(a) && a.below(
            Double { bits: PLUS_INFINITY },
        ),
{
}

/// The lower and the higher of two numbers are those two, and of a number and what is none, the
/// number.
pub proof fn law_lower_and_higher(a: Double, b: Double)
    ensures
        !a.nan() && !b.nan() ==> {
            &&& a.lower_of(b).at_most(a) && a.lower_of(b).at_most(b)
            &&& a.at_most(a.higher_of(b)) && b.at_most(a.higher_of(b))
            &&& a.lower_of(b) == a && a.higher_of(b) == b || a.lower_of(b) == b && a.higher_of(b)
                == a || a.rank() == b.rank() && a.lower_of(b) == a && a.higher_of(b) == a
        },
        a.nan() ==> a.lower_of(b) == b && a.higher_of(b) == b,
        b.nan() && !a.nan() ==> a.lower_of(b) == a && a.higher_of(b) == a,
{
}

/// The bounds of the globe as bit patterns: ninety is one and thirteen thirty-seconds times two to
/// the sixth, a hundred and eighty is twice that, and the sign is the highest bit.
pub proof fn law_bounds_of_the_globe()
    ensures
        ONE == 1023 * 4503599627370496,
        PLUS_90 == ONE + 6 * 4503599627370496 + 13 * 140737488355328,
        PLUS_180 == PLUS_90 + 4503599627370496,
        MINUS_90 == PLUS_90 + 9223372036854775808,
        MINUS_180 == PLUS_180 + 9223372036854775808,
        PLUS_INFINITY == 2047 * 4503599627370496,
        MINUS_INFINITY == PLUS_INFINITY + 9223372036854775808,
        ZERO == 0,
{
}

} // verus!
