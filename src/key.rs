use vstd::prelude::*;

verus! {

/// Smallest key that an index type may map to.
pub const KEY_MIN: i64 = -2147483648;

/// Largest key that an index type may map to.
pub const KEY_MAX: i64 = 4294967295;

/// A type usable as the domain axis of a series: each value maps to an
/// integer key, and the order of keys is the order of the axis.
pub trait StepIndex: Copy {
    /// The position of this point on the axis.
    spec fn key(&self) -> int;

    /// Returns the key of this point.
    fn key_of(&self) -> (r: i64)
        ensures
            r as int == self.key(),
            KEY_MIN <= r <= KEY_MAX,
    ;
}

impl StepIndex for u32 {
    open spec fn key(&self) -> int {
        *self as int
    }

    fn key_of(&self) -> (r: i64) {
        *self as i64
    }
}

impl StepIndex for i32 {
    open spec fn key(&self) -> int {
        *self as int
    }

    fn key_of(&self) -> (r: i64) {
        *self as i64
    }
}

impl StepIndex for u16 {
    open spec fn key(&self) -> int {
        *self as int
    }

    fn key_of(&self) -> (r: i64) {
        *self as i64
    }
}

impl StepIndex for i16 {
    open spec fn key(&self) -> int {
        *self as int
    }

    fn key_of(&self) -> (r: i64) {
        *self as i64
    }
}

/// The keys of a sequence of index points.
pub open spec fn keys_of<I: StepIndex>(s: Seq<I>) -> Seq<int> {
    s.map_values(|x: I| x.key())
}

/// Keys that grow strictly from each position to the next.
pub open spec fn strictly_increasing(k: Seq<int>) -> bool {
    forall|i: int, j: int| 0 <= i < j < k.len() ==> k[i] < k[j]
}

} // verus!
