//! The numeric part of the lattice: the range of numbers seen and whether all
//! of them were whole.
use crate::schema::Type;
use vstd::prelude::*;

verus! {

/// A JSON number as inference reads it: the number rounded down to a whole
/// number and clamped to the `i64` range, and whether it had no fractional part.
///
/// Every bound the inference compares against is a whole number well inside the
/// `i64` range, so comparing `whole` against a bound gives the answer the exact
/// number would give, and rounding down preserves the order of numbers.
#[derive(Clone, Copy, Debug, PartialEq, Eq, Structural)]
pub struct JsonNumber {
    pub whole: i64,
    pub integral: bool,
}

impl JsonNumber {
    /// A whole number.
    pub fn from_i64(v: i64) -> (r: Self)
        ensures
            r.whole == v,
            r.integral,
    {
        JsonNumber { whole: v, integral: true }
    }

    /// A number with a fractional part, given its value rounded down.
    pub fn from_floor(floor: i64) -> (r: Self)
        ensures
            r.whole == floor,
            !r.integral,
    {
        JsonNumber { whole: floor, integral: false }
    }
}

/// A type of number to infer by default.
#[derive(Clone, Copy, Debug, PartialEq, Eq, Structural)]
pub enum NumType {
    Int8,
    Uint8,
    Int16,
    Uint16,
    Int32,
    Uint32,
    Float32,
    Float64,
}

pub open spec fn spec_is_float(t: NumType) -> bool {
    t == NumType::Float32 || t == NumType::Float64
}

/// The least and greatest value of an integer type; for floats, the whole
/// range that a [`JsonNumber`] can express.
pub open spec fn spec_range(t: NumType) -> (int, int) {
    match t {
        NumType::Int8 => (-128, 127),
        NumType::Uint8 => (0, 255),
        NumType::Int16 => (-32768, 32767),
        NumType::Uint16 => (0, 65535),
        NumType::Int32 => (-2147483648, 2147483647),
        NumType::Uint32 => (0, 4294967295),
        NumType::Float32 | NumType::Float64 => (i64::MIN as int, i64::MAX as int),
    }
}

/// The schema type that a numeric type stands for.
pub open spec fn spec_type_of(t: NumType) -> Type {
    match t {
        NumType::Int8 => Type::Int8,
        NumType::Uint8 => Type::Uint8,
        NumType::Int16 => Type::Int16,
        NumType::Uint16 => Type::Uint16,
        NumType::Int32 => Type::Int32,
        NumType::Uint32 => Type::Uint32,
        NumType::Float32 => Type::Float32,
        NumType::Float64 => Type::Float64,
    }
}

impl NumType {
    pub fn is_float(&self) -> (r: bool)
        ensures
            r == spec_is_float(*self),
    {
        match self {
            NumType::Float32 | NumType::Float64 => true,
            _ => false,
        }
    }

    pub fn as_range(&self) -> (r: (i64, i64))
        ensures
            r.0 == spec_range(*self).0,
            r.1 == spec_range(*self).1,
    {
        match self {
            NumType::Int8 => (-128, 127),
            NumType::Uint8 => (0, 255),
            NumType::Int16 => (-32768, 32767),
            NumType::Uint16 => (0, 65535),
            NumType::Int32 => (-2147483648, 2147483647),
            NumType::Uint32 => (0, 4294967295),
            NumType::Float32 | NumType::Float64 => (i64::MIN, i64::MAX),
        }
    }

    pub fn into_type(&self) -> (r: Type)
        ensures
            r == spec_type_of(*self),
    {
        match self {
            NumType::Int8 => Type::Int8,
            NumType::Uint8 => Type::Uint8,
            NumType::Int16 => Type::Int16,
            NumType::Uint16 => Type::Uint16,
            NumType::Int32 => Type::Int32,
            NumType::Uint32 => Type::Uint32,
            NumType::Float32 => Type::Float32,
            NumType::Float64 => Type::Float64,
        }
    }
}

/// The numbers seen at one position: their least and greatest value (as
/// [`JsonNumber::whole`]) and whether every one of them was whole.
///
/// With nothing seen, `min` is `i64::MAX` and `max` is `i64::MIN`: an empty range
/// that the first number replaces.
#[derive(Clone, Copy, Debug, PartialEq, Eq, Structural)]
pub struct InferredNumber {
    pub min: i64,
    pub max: i64,
    pub integral: bool,
}

impl InferredNumber {
    pub open spec fn empty() -> InferredNumber {
        InferredNumber { min: i64::MAX, max: i64::MIN, integral: true }
    }

    /// The range widened to take in `n`.
    pub open spec fn observe(self, n: JsonNumber) -> InferredNumber {
        InferredNumber {
            min: if n.whole < self.min { n.whole } else { self.min },
            max: if n.whole > self.max { n.whole } else { self.max },
            integral: self.integral && n.integral,
        }
    }

    /// The type `t` holds every number seen.
    pub open spec fn fits(self, t: NumType) -> bool {
        (self.integral || spec_is_float(t)) && spec_range(t).0 <= self.min && self.max <= spec_range(t).1
    }

    /// `default` if it holds every number seen; else the first of `Uint8`,
    /// `Int8`, `Uint16`, `Int16`, `Uint32`, `Int32` that does; else `Float64`.
    pub open spec fn narrowest(self, default: NumType) -> NumType {
        if self.fits(default) {
            default
        } else if self.fits(NumType::Uint8) {
            NumType::Uint8
        } else if self.fits(NumType::Int8) {
            NumType::Int8
        } else if self.fits(NumType::Uint16) {
            NumType::Uint16
        } else if self.fits(NumType::Int16) {
            NumType::Int16
        } else if self.fits(NumType::Uint32) {
            NumType::Uint32
        } else if self.fits(NumType::Int32) {
            NumType::Int32
        } else {
            NumType::Float64
        }
    }

    pub fn new() -> (r: Self)
        ensures
            r == InferredNumber::empty(),
    {
        InferredNumber { min: i64::MAX, max: i64::MIN, integral: true }
    }

    pub fn infer(&self, n: JsonNumber) -> (r: Self)
        ensures
            r == self.observe(n),
    {
        InferredNumber {
            min: if n.whole < self.min { n.whole } else { self.min },
            max: if n.whole > self.max { n.whole } else { self.max },
            integral: self.integral && n.integral,
        }
    }

    pub fn into_type(&self, default: &NumType) -> (r: Type)
        ensures
            r == spec_type_of(self.narrowest(*default)),
    {
        if self.contained_by(default) {
            return default.into_type();
        }
        let types: [NumType; 6] = [
            NumType::Uint8,
            NumType::Int8,
            NumType::Uint16,
            NumType::Int16,
            NumType::Uint32,
            NumType::Int32,
        ];
        let mut i: usize = 0;
        while i < 6
            invariant
                i <= 6,
                types@ == seq![
                    NumType::Uint8,
                    NumType::Int8,
                    NumType::Uint16,
                    NumType::Int16,
                    NumType::Uint32,
                    NumType::Int32,
                ],
                !self.fits(*default),
                forall|j: int| 0 <= j < i ==> !self.fits(#[trigger] types@[j]),
            decreases 6 - i,
        {
            if self.contained_by(&types[i]) {
                return types[i].into_type();
            }
            i = i + 1;
        }
        NumType::Float64.into_type()
    }

    fn contained_by(&self, t: &NumType) -> (r: bool)
        ensures
            r == self.fits(*t),
    {
        if !self.integral && !t.is_float() {
            return false;
        }
        let (min, max) = t.as_range();
        min <= self.min && max >= self.max
    }
}

} // verus!
