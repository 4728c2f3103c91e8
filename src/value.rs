use vstd::prelude::*;

verus! {

/// What the tree needs from the values it stores: a designated "absent" value,
/// returned for paths that hold nothing, and a faithful copy.
pub trait CanBeNone: Sized {
    /// The value that stands for "nothing stored here".
    spec fn absent() -> Self;

    fn none() -> (r: Self)
        ensures
            r == Self::absent(),
    ;

    fn duplicate(&self) -> (r: Self)
        ensures
            r == *self,
    ;
}

/// `None` is the absent value of an optional one.
impl<T: Copy> CanBeNone for Option<T> {
    open spec fn absent() -> Self {
        None
    }

    fn none() -> (r: Self) {
        None
    }

    fn duplicate(&self) -> (r: Self) {
        *self
    }
}

/// A small value type for examples and tests. Floating-point numbers are
/// carried by their IEEE-754 bit pattern (`f32::to_bits`).
#[derive(Clone, Copy, Debug, PartialEq, Eq, Structural)]
pub enum ExampleValueType {
    I32(i32),
    F32Bits(u32),
    Absent,
}

impl CanBeNone for ExampleValueType {
    open spec fn absent() -> Self {
        ExampleValueType::Absent
    }

    fn none() -> (r: Self) {
        ExampleValueType::Absent
    }

    fn duplicate(&self) -> (r: Self) {
        *self
    }
}

impl From<i32> for ExampleValueType {
    fn from(value: i32) -> (r: Self) {
        ExampleValueType::I32(value)
    }
}

impl vstd::std_specs::convert::FromSpecImpl<i32> for ExampleValueType {
    open spec fn obeys_from_spec() -> bool {
        true
    }

    open spec fn from_spec(v: i32) -> Self {
        ExampleValueType::I32(v)
    }
}

impl Default for ExampleValueType {
    fn default() -> (r: Self)
        ensures
            r == ExampleValueType::Absent,
    {
        ExampleValueType::Absent
    }
}

impl ExampleValueType {
    /// The stored integer; the value must hold one.
    pub fn unwrap_i32(&self) -> (r: i32)
        requires
            self is I32,
        ensures
            *self == ExampleValueType::I32(r),
    {
        match self {
            ExampleValueType::I32(v) => *v,
            _ => 0,
        }
    }

    /// The bit pattern of the stored float; the value must hold one.
    pub fn unwrap_f32_bits(&self) -> (r: u32)
        requires
            self is F32Bits,
        ensures
            *self == ExampleValueType::F32Bits(r),
    {
        match self {
            ExampleValueType::F32Bits(v) => *v,
            _ => 0,
        }
    }

    pub fn is_none(&self) -> (r: bool)
        ensures
            r <==> *self == ExampleValueType::Absent,
    {
        match self {
            ExampleValueType::Absent => true,
            _ => false,
        }
    }
}

} // verus!
