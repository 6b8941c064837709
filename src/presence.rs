//! Implicit presence: a proto3 singular scalar counts as present only when it
//! differs from its type's default, and an absent field is not written.
use vstd::prelude::*;
use vstd::string::StringSliceAdditionalSpecFns;

verus! {

pub trait ImplicitPresence {
    /// The value is its type's default: zero, `false`, or empty.
    spec fn pb_is_default(&self) -> bool;

    fn pb_is_present(&self) -> (r: bool)
        ensures
            r == !self.pb_is_default(),
    ;
}

impl ImplicitPresence for u32 {
    open spec fn pb_is_default(&self) -> bool {
        *self == 0
    }

    fn pb_is_present(&self) -> (r: bool) {
        *self != 0
    }
}

impl ImplicitPresence for i32 {
    open spec fn pb_is_default(&self) -> bool {
        *self == 0
    }

    fn pb_is_present(&self) -> (r: bool) {
        *self != 0
    }
}

impl ImplicitPresence for u64 {
    open spec fn pb_is_default(&self) -> bool {
        *self == 0
    }

    fn pb_is_present(&self) -> (r: bool) {
        *self != 0
    }
}

impl ImplicitPresence for i64 {
    open spec fn pb_is_default(&self) -> bool {
        *self == 0
    }

    fn pb_is_present(&self) -> (r: bool) {
        *self != 0
    }
}

impl ImplicitPresence for bool {
    open spec fn pb_is_default(&self) -> bool {
        !*self
    }

    fn pb_is_present(&self) -> (r: bool) {
        *self
    }
}

impl ImplicitPresence for str {
    open spec fn pb_is_default(&self) -> bool {
        self.spec_bytes().len() == 0
    }

    fn pb_is_present(&self) -> (r: bool) {
        !self.is_empty()
    }
}

impl ImplicitPresence for [u8] {
    open spec fn pb_is_default(&self) -> bool {
        self@.len() == 0
    }

    fn pb_is_present(&self) -> (r: bool) {
        self.len() != 0
    }
}

impl<T: ImplicitPresence + ?Sized> ImplicitPresence for &T {
    open spec fn pb_is_default(&self) -> bool {
        (**self).pb_is_default()
    }

    fn pb_is_present(&self) -> (r: bool) {
        (**self).pb_is_present()
    }
}

/// Explicit presence: one bit per optional field of a message, set when the
/// field holds a value. It holds up to 64 fields and allocates nothing.
#[derive(Debug, Clone, Copy, PartialEq, Eq, Structural)]
pub struct Hazzer {
    bits: u64,
}

/// Bit `j` of `b`.
pub open spec fn bit(b: u64, j: u64) -> bool {
    (b >> j) & 1 == 1
}

proof fn lemma_bit_update(b: u64, i: u64, j: u64)
    requires
        i < 64,
        j < 64,
    ensures
        bit(b | (1u64 << i), j) == (j == i || bit(b, j)),
        bit(b & !(1u64 << i), j) == (j != i && bit(b, j)),
        (0u64 >> j) & 1 == 0,
{
    assert(((b | (1u64 << i)) >> j) & 1 == 1 <==> (j == i || (b >> j) & 1 == 1)) by (bit_vector)
        requires
            i < 64,
            j < 64,
    ;
    assert(((b & !(1u64 << i)) >> j) & 1 == 1 <==> (j != i && (b >> j) & 1 == 1)) by (bit_vector)
        requires
            i < 64,
            j < 64,
    ;
    assert((0u64 >> j) & 1 == 0) by (bit_vector);
}

impl Hazzer {
    /// Whether field `i` (counted from 0) is present.
    pub closed spec fn has(&self, i: u64) -> bool {
        bit(self.bits, i)
    }

    /// No field present.
    pub fn new() -> (r: Self)
        ensures
            forall|i: u64| i < 64 ==> !#[trigger] r.has(i),
    {
        let r = Hazzer { bits: 0 };
        assert forall|i: u64| i < 64 implies !#[trigger] r.has(i) by {
            lemma_bit_update(0, 0, i);
        }
        r
    }

    pub fn is_set(&self, i: u64) -> (r: bool)
        requires
            i < 64,
        ensures
            r == self.has(i),
    {
        (self.bits >> i) & 1 == 1
    }

    /// Marks field `i` present, leaving the others as they were.
    pub fn set(&mut self, i: u64)
        requires
            i < 64,
        ensures
            forall|j: u64| j < 64 ==> #[trigger] final(self).has(j) == (j == i || old(self).has(j)),
    {
        let b = self.bits;
        self.bits = b | (1u64 << i);
        assert forall|j: u64| j < 64 implies #[trigger] self.has(j) == (j == i || bit(b, j)) by {
            lemma_bit_update(b, i, j);
        }
    }

    /// Marks field `i` absent, leaving the others as they were.
    pub fn clear(&mut self, i: u64)
        requires
            i < 64,
        ensures
            forall|j: u64| j < 64 ==> #[trigger] final(self).has(j) == (j != i && old(self).has(j)),
    {
        let b = self.bits;
        self.bits = b & !(1u64 << i);
        assert forall|j: u64| j < 64 implies #[trigger] self.has(j) == (j != i && bit(b, j)) by {
            lemma_bit_update(b, i, j);
        }
    }

    /// The optional view of a field: its value when present.
    pub fn get<'a, T>(&self, i: u64, value: &'a T) -> (r: Option<&'a T>)
        requires
            i < 64,
        ensures
            r == (if self.has(i) {
                Some(value)
            } else {
                None
            }),
    {
        if self.is_set(i) {
            Some(value)
        } else {
            None
        }
    }
}

} // verus!
