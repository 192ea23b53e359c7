use core::cmp::Ordering;
use vstd::prelude::*;

verus! {

/// A total order on keys, given by an injective rank into the integers.
///
/// `a` sorts before `b` exactly when `a.rank() < b.rank()`; two keys of equal
/// rank are the same key.
pub trait KeyOrder: Sized {
    spec fn rank(self) -> int;

    /// Keys of equal rank are equal.
    proof fn rank_injective(a: Self, b: Self)
        requires
            a.rank() == b.rank(),
        ensures
            a == b,
    ;

    /// Three-way comparison that agrees with `rank`.
    fn compare(&self, other: &Self) -> (r: Ordering)
        ensures
            r == Ordering::Less <==> self.rank() < other.rank(),
            r == Ordering::Equal <==> self.rank() == other.rank(),
            r == Ordering::Greater <==> self.rank() > other.rank(),
    ;

    /// An owned copy of the key.
    fn copy_key(&self) -> (r: Self)
        ensures
            r == *self,
    ;
}

impl KeyOrder for u64 {
    open spec fn rank(self) -> int {
        self as int
    }

    proof fn rank_injective(a: Self, b: Self) {
    }

    fn compare(&self, other: &Self) -> (r: Ordering) {
        if *self < *other {
            Ordering::Less
        } else if *self == *other {
            Ordering::Equal
        } else {
            Ordering::Greater
        }
    }

    fn copy_key(&self) -> (r: Self) {
        *self
    }
}

impl KeyOrder for u32 {
    open spec fn rank(self) -> int {
        self as int
    }

    proof fn rank_injective(a: Self, b: Self) {
    }

    fn compare(&self, other: &Self) -> (r: Ordering) {
        if *self < *other {
            Ordering::Less
        } else if *self == *other {
            Ordering::Equal
        } else {
            Ordering::Greater
        }
    }

    fn copy_key(&self) -> (r: Self) {
        *self
    }
}

impl KeyOrder for usize {
    open spec fn rank(self) -> int {
        self as int
    }

    proof fn rank_injective(a: Self, b: Self) {
    }

    fn compare(&self, other: &Self) -> (r: Ordering) {
        if *self < *other {
            Ordering::Less
        } else if *self == *other {
            Ordering::Equal
        } else {
            Ordering::Greater
        }
    }

    fn copy_key(&self) -> (r: Self) {
        *self
    }
}

impl KeyOrder for i32 {
    open spec fn rank(self) -> int {
        self as int
    }

    proof fn rank_injective(a: Self, b: Self) {
    }

    fn compare(&self, other: &Self) -> (r: Ordering) {
        if *self < *other {
            Ordering::Less
        } else if *self == *other {
            Ordering::Equal
        } else {
            Ordering::Greater
        }
    }

    fn copy_key(&self) -> (r: Self) {
        *self
    }
}

impl KeyOrder for i64 {
    open spec fn rank(self) -> int {
        self as int
    }

    proof fn rank_injective(a: Self, b: Self) {
    }

    fn compare(&self, other: &Self) -> (r: Ordering) {
        if *self < *other {
            Ordering::Less
        } else if *self == *other {
            Ordering::Equal
        } else {
            Ordering::Greater
        }
    }

    fn copy_key(&self) -> (r: Self) {
        *self
    }
}

/// The unit type has a single key.
impl KeyOrder for () {
    open spec fn rank(self) -> int {
        0
    }

    proof fn rank_injective(a: Self, b: Self) {
    }

    fn compare(&self, other: &Self) -> (r: Ordering) {
        Ordering::Equal
    }

    fn copy_key(&self) -> (r: Self) {
        ()
    }
}

impl KeyOrder for u8 {
    open spec fn rank(self) -> int {
        self as int
    }

    proof fn rank_injective(a: Self, b: Self) {
    }

    fn compare(&self, other: &Self) -> (r: Ordering) {
        if *self < *other {
            Ordering::Less
        } else if *self == *other {
            Ordering::Equal
        } else {
            Ordering::Greater
        }
    }

    fn copy_key(&self) -> (r: Self) {
        *self
    }
}

impl KeyOrder for u16 {
    open spec fn rank(self) -> int {
        self as int
    }

    proof fn rank_injective(a: Self, b: Self) {
    }

    fn compare(&self, other: &Self) -> (r: Ordering) {
        if *self < *other {
            Ordering::Less
        } else if *self == *other {
            Ordering::Equal
        } else {
            Ordering::Greater
        }
    }

    fn copy_key(&self) -> (r: Self) {
        *self
    }
}

impl KeyOrder for u128 {
    open spec fn rank(self) -> int {
        self as int
    }

    proof fn rank_injective(a: Self, b: Self) {
    }

    fn compare(&self, other: &Self) -> (r: Ordering) {
        if *self < *other {
            Ordering::Less
        } else if *self == *other {
            Ordering::Equal
        } else {
            Ordering::Greater
        }
    }

    fn copy_key(&self) -> (r: Self) {
        *self
    }
}

impl KeyOrder for i8 {
    open spec fn rank(self) -> int {
        self as int
    }

    proof fn rank_injective(a: Self, b: Self) {
    }

    fn compare(&self, other: &Self) -> (r: Ordering) {
        if *self < *other {
            Ordering::Less
        } else if *self == *other {
            Ordering::Equal
        } else {
            Ordering::Greater
        }
    }

    fn copy_key(&self) -> (r: Self) {
        *self
    }
}

impl KeyOrder for i16 {
    open spec fn rank(self) -> int {
        self as int
    }

    proof fn rank_injective(a: Self, b: Self) {
    }

    fn compare(&self, other: &Self) -> (r: Ordering) {
        if *self < *other {
            Ordering::Less
        } else if *self == *other {
            Ordering::Equal
        } else {
            Ordering::Greater
        }
    }

    fn copy_key(&self) -> (r: Self) {
        *self
    }
}

impl KeyOrder for isize {
    open spec fn rank(self) -> int {
        self as int
    }

    proof fn rank_injective(a: Self, b: Self) {
    }

    fn compare(&self, other: &Self) -> (r: Ordering) {
        if *self < *other {
            Ordering::Less
        } else if *self == *other {
            Ordering::Equal
        } else {
            Ordering::Greater
        }
    }

    fn copy_key(&self) -> (r: Self) {
        *self
    }
}

impl KeyOrder for i128 {
    open spec fn rank(self) -> int {
        self as int
    }

    proof fn rank_injective(a: Self, b: Self) {
    }

    fn compare(&self, other: &Self) -> (r: Ordering) {
        if *self < *other {
            Ordering::Less
        } else if *self == *other {
            Ordering::Equal
        } else {
            Ordering::Greater
        }
    }

    fn copy_key(&self) -> (r: Self) {
        *self
    }
}

/// Pairs are ordered by their first component, then by their second.
impl KeyOrder for (u64, u64) {
    open spec fn rank(self) -> int {
        self.0 as int * 0x1_0000_0000_0000_0000 + self.1 as int
    }

    proof fn rank_injective(a: Self, b: Self) {
        let (a0, a1) = (a.0 as int, a.1 as int);
        let (b0, b1) = (b.0 as int, b.1 as int);
        assert(a0 == b0 && a1 == b1) by (nonlinear_arith)
            requires
                a0 * 0x1_0000_0000_0000_0000 + a1 == b0 * 0x1_0000_0000_0000_0000 + b1,
                0 <= a1 < 0x1_0000_0000_0000_0000,
                0 <= b1 < 0x1_0000_0000_0000_0000,
                0 <= a0,
                0 <= b0,
        ;
    }

    fn compare(&self, other: &Self) -> (r: Ordering) {
        let ghost (a0, a1) = (self.0 as int, self.1 as int);
        let ghost (b0, b1) = (other.0 as int, other.1 as int);
        proof {
            assert(a0 < b0 ==> self.rank() < other.rank()) by (nonlinear_arith)
                requires
                    self.rank() == a0 * 0x1_0000_0000_0000_0000 + a1,
                    other.rank() == b0 * 0x1_0000_0000_0000_0000 + b1,
                    0 <= a1 < 0x1_0000_0000_0000_0000,
                    0 <= b1 < 0x1_0000_0000_0000_0000,
            ;
            assert(b0 < a0 ==> other.rank() < self.rank()) by (nonlinear_arith)
                requires
                    self.rank() == a0 * 0x1_0000_0000_0000_0000 + a1,
                    other.rank() == b0 * 0x1_0000_0000_0000_0000 + b1,
                    0 <= a1 < 0x1_0000_0000_0000_0000,
                    0 <= b1 < 0x1_0000_0000_0000_0000,
            ;
        }
        if self.0 < other.0 {
            Ordering::Less
        } else if self.0 > other.0 {
            Ordering::Greater
        } else if self.1 < other.1 {
            Ordering::Less
        } else if self.1 == other.1 {
            Ordering::Equal
        } else {
            Ordering::Greater
        }
    }

    fn copy_key(&self) -> (r: Self) {
        *self
    }
}

} // verus!
