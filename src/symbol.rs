use vstd::prelude::*;

verus! {

/// A key element that can be compared for equality and copied.
///
/// `same` decides equality exactly as spec-level `==` does, which is what the
/// prefix comparisons of the tree rely on.
pub trait Symbol: Copy + Sized {
    fn same(&self, other: &Self) -> (r: bool)
        ensures
            r == (*self == *other),
    ;
}

impl Symbol for u8 {
    fn same(&self, other: &Self) -> (r: bool) {
        *self == *other
    }
}

impl Symbol for u16 {
    fn same(&self, other: &Self) -> (r: bool) {
        *self == *other
    }
}

impl Symbol for u32 {
    fn same(&self, other: &Self) -> (r: bool) {
        *self == *other
    }
}

impl Symbol for u64 {
    fn same(&self, other: &Self) -> (r: bool) {
        *self == *other
    }
}

impl Symbol for u128 {
    fn same(&self, other: &Self) -> (r: bool) {
        *self == *other
    }
}

impl Symbol for usize {
    fn same(&self, other: &Self) -> (r: bool) {
        *self == *other
    }
}

impl Symbol for i8 {
    fn same(&self, other: &Self) -> (r: bool) {
        *self == *other
    }
}

impl Symbol for i16 {
    fn same(&self, other: &Self) -> (r: bool) {
        *self == *other
    }
}

impl Symbol for i32 {
    fn same(&self, other: &Self) -> (r: bool) {
        *self == *other
    }
}

impl Symbol for i64 {
    fn same(&self, other: &Self) -> (r: bool) {
        *self == *other
    }
}

impl Symbol for i128 {
    fn same(&self, other: &Self) -> (r: bool) {
        *self == *other
    }
}

impl Symbol for isize {
    fn same(&self, other: &Self) -> (r: bool) {
        *self == *other
    }
}

impl Symbol for char {
    fn same(&self, other: &Self) -> (r: bool) {
        *self == *other
    }
}

impl Symbol for bool {
    fn same(&self, other: &Self) -> (r: bool) {
        *self == *other
    }
}

} // verus!
