//! What decoded strings, bytes and repeated fields are stored in: a growable
//! buffer, or one of fixed capacity that refuses what does not fit.
use vstd::prelude::*;
use vstd::string::{StringExecFns, StringSliceAdditionalSpecFns};
use vstd::utf8::encode_utf8;

verus! {

/// A container refused more elements.
#[derive(Debug, Clone, Copy, PartialEq, Eq, Structural)]
pub struct Overflow;

/// Whether `n` elements fit where at most `cap` do; no bound means no limit.
pub open spec fn fits(cap: Option<nat>, n: nat) -> bool {
    match cap {
        Some(c) => n <= c,
        None => true,
    }
}

/// A sequence of elements that refuses to grow past its capacity.
pub trait PbVec<T: Copy>: Sized {
    spec fn elems(&self) -> Seq<T>;

    /// How many elements it can hold at most, if it is bounded.
    spec fn max_len(&self) -> Option<nat>;

    fn pb_len(&self) -> (r: usize)
        ensures
            r == self.elems().len(),
    ;

    /// Appends one element when it fits, else leaves the container as it was.
    fn pb_push(&mut self, elem: T) -> (r: Result<(), Overflow>)
        ensures
            final(self).max_len() == old(self).max_len(),
            r is Ok <==> fits(old(self).max_len(), old(self).elems().len() + 1),
            r is Ok ==> final(self).elems() == old(self).elems().push(elem),
            r is Err ==> final(self).elems() == old(self).elems(),
    ;

    /// Appends all of `s` when it fits, else leaves the container as it was.
    fn pb_write_slice(&mut self, s: &[T]) -> (r: Result<(), Overflow>)
        ensures
            final(self).max_len() == old(self).max_len(),
            r is Ok <==> fits(old(self).max_len(), old(self).elems().len() + s@.len()),
            r is Ok ==> final(self).elems() == old(self).elems() + s@,
            r is Err ==> final(self).elems() == old(self).elems(),
    ;

    fn pb_clear(&mut self)
        ensures
            final(self).elems().len() == 0,
            final(self).max_len() == old(self).max_len(),
    ;
}

/// A string that refuses to grow past its capacity.
pub trait PbString: Sized {
    spec fn chars(&self) -> Seq<char>;

    /// How many bytes of UTF-8 it can hold at most, if it is bounded.
    spec fn max_len(&self) -> Option<nat>;

    /// Appends `s` when it fits, else leaves the string as it was.
    fn pb_write_str(&mut self, s: &str) -> (r: Result<(), Overflow>)
        ensures
            final(self).max_len() == old(self).max_len(),
            r is Ok <==> fits(old(self).max_len(), encode_utf8(old(self).chars()).len() + s.spec_bytes().len()),
            r is Ok ==> final(self).chars() == old(self).chars() + s@,
            r is Err ==> final(self).chars() == old(self).chars(),
    ;
}

impl<T: Copy> PbVec<T> for Vec<T> {
    open spec fn elems(&self) -> Seq<T> {
        self@
    }

    open spec fn max_len(&self) -> Option<nat> {
        None
    }

    fn pb_len(&self) -> (r: usize) {
        self.len()
    }

    fn pb_push(&mut self, elem: T) -> (r: Result<(), Overflow>) {
        self.push(elem);
        Ok(())
    }

    fn pb_write_slice(&mut self, s: &[T]) -> (r: Result<(), Overflow>) {
        let ghost start = self@;
        let mut i: usize = 0;
        while i < s.len()
            invariant
                i <= s@.len(),
                self@ == start + s@.take(i as int),
            decreases s@.len() - i,
        {
            self.push(s[i]);
            i = i + 1;
            assert(self@ =~= start + s@.take(i as int));
        }
        assert(s@.take(i as int) =~= s@);
        Ok(())
    }

    fn pb_clear(&mut self) {
        self.clear();
    }
}

impl PbString for String {
    open spec fn chars(&self) -> Seq<char> {
        self@
    }

    open spec fn max_len(&self) -> Option<nat> {
        None
    }

    fn pb_write_str(&mut self, s: &str) -> (r: Result<(), Overflow>) {
        self.append(s);
        Ok(())
    }
}

/// A vector that holds at most `capacity` elements, for targets without a heap
/// allocator to grow into.
pub struct BoundedVec<T> {
    data: Vec<T>,
    cap: usize,
}

impl<T: Copy> BoundedVec<T> {
    pub fn new(capacity: usize) -> (r: Self)
        ensures
            r.elems().len() == 0,
            r.max_len() == Some(capacity as nat),
    {
        BoundedVec { data: Vec::new(), cap: capacity }
    }

    pub fn capacity(&self) -> (r: usize)
        ensures
            self.max_len() == Some(r as nat),
    {
        self.cap
    }

    pub fn as_slice(&self) -> (r: &[T])
        ensures
            r@ == self.elems(),
    {
        self.data.as_slice()
    }
}

impl<T: Copy> PbVec<T> for BoundedVec<T> {
    closed spec fn elems(&self) -> Seq<T> {
        self.data@
    }

    closed spec fn max_len(&self) -> Option<nat> {
        Some(self.cap as nat)
    }

    fn pb_len(&self) -> (r: usize) {
        self.data.len()
    }

    fn pb_push(&mut self, elem: T) -> (r: Result<(), Overflow>) {
        if self.data.len() < self.cap {
            self.data.push(elem);
            Ok(())
        } else {
            Err(Overflow)
        }
    }

    fn pb_write_slice(&mut self, s: &[T]) -> (r: Result<(), Overflow>) {
        if self.data.len() > self.cap || s.len() > self.cap - self.data.len() {
            return Err(Overflow);
        }
        self.data.pb_write_slice(s)
    }

    fn pb_clear(&mut self) {
        self.data.clear();
    }
}

} // verus!
