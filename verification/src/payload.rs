//! The values a pool can hold: types with a fixed-width byte form.

use crate::codec::{
    le_bytes, le_value, lemma_decode_encode, lemma_le_value_bound, lemma_span_values, load_le,
    overlay, store_le,
};
use vstd::prelude::*;

verus! {

/// A value that is kept in a slot as a fixed number of bytes.
///
/// The pool never looks inside the bytes: it only needs their number, and a
/// way to write a value into a buffer and to read it back.
pub trait Payload: Sized {
    /// The number of bytes that a value takes in a slot.
    spec fn width() -> nat;

    /// The bytes that stand for the value.
    spec fn to_bytes(&self) -> Seq<u8>;

    /// The value that `bytes` stand for.
    spec fn from_bytes(bytes: Seq<u8>) -> Self;

    /// Every value takes `width()` bytes, and reading those bytes gives the
    /// value back.
    proof fn lemma_round_trip(value: Self)
        ensures
            value.to_bytes().len() == Self::width(),
            Self::from_bytes(value.to_bytes()) == value,
    ;

    /// The number of bytes that a value takes in a slot.
    fn size() -> (n: usize)
        ensures
            n == Self::width(),
            n <= isize::MAX,
    ;

    /// Writes the value's bytes into `buf` from `at` on, and nothing else.
    fn store(&self, buf: &mut [u8], at: usize)
        requires
            at + Self::width() <= old(buf).len(),
        ensures
            final(buf)@ == overlay(old(buf)@, at as int, self.to_bytes()),
    ;

    /// Reads the value that the bytes of `buf` from `at` on stand for.
    fn load(buf: &[u8], at: usize) -> (value: Self)
        requires
            at + Self::width() <= buf.len(),
        ensures
            value == Self::from_bytes(buf@.subrange(at as int, at + Self::width())),
    ;
}

impl Payload for u8 {
    open spec fn width() -> nat {
        1
    }

    open spec fn to_bytes(&self) -> Seq<u8> {
        le_bytes(*self as nat, 1)
    }

    open spec fn from_bytes(bytes: Seq<u8>) -> Self {
        le_value(bytes) as u8
    }

    proof fn lemma_round_trip(value: Self) {
        lemma_span_values();
        lemma_decode_encode(value as nat, 1);
    }

    fn size() -> (n: usize) {
        broadcast use vstd::layout::layout_of_primitives;

        core::mem::size_of::<u8>()
    }

    fn store(&self, buf: &mut [u8], at: usize) {
        store_le(buf, at, 1, *self as u64);
    }

    fn load(buf: &[u8], at: usize) -> (value: Self) {
        proof {
            lemma_span_values();
            lemma_le_value_bound(buf@.subrange(at as int, at + 1));
        }
        load_le(buf, at, 1) as u8
    }
}

impl Payload for u16 {
    open spec fn width() -> nat {
        2
    }

    open spec fn to_bytes(&self) -> Seq<u8> {
        le_bytes(*self as nat, 2)
    }

    open spec fn from_bytes(bytes: Seq<u8>) -> Self {
        le_value(bytes) as u16
    }

    proof fn lemma_round_trip(value: Self) {
        lemma_span_values();
        lemma_decode_encode(value as nat, 2);
    }

    fn size() -> (n: usize) {
        broadcast use vstd::layout::layout_of_primitives;

        core::mem::size_of::<u16>()
    }

    fn store(&self, buf: &mut [u8], at: usize) {
        store_le(buf, at, 2, *self as u64);
    }

    fn load(buf: &[u8], at: usize) -> (value: Self) {
        proof {
            lemma_span_values();
            lemma_le_value_bound(buf@.subrange(at as int, at + 2));
        }
        load_le(buf, at, 2) as u16
    }
}

impl Payload for u32 {
    open spec fn width() -> nat {
        4
    }

    open spec fn to_bytes(&self) -> Seq<u8> {
        le_bytes(*self as nat, 4)
    }

    open spec fn from_bytes(bytes: Seq<u8>) -> Self {
        le_value(bytes) as u32
    }

    proof fn lemma_round_trip(value: Self) {
        lemma_span_values();
        lemma_decode_encode(value as nat, 4);
    }

    fn size() -> (n: usize) {
        broadcast use vstd::layout::layout_of_primitives;

        core::mem::size_of::<u32>()
    }

    fn store(&self, buf: &mut [u8], at: usize) {
        store_le(buf, at, 4, *self as u64);
    }

    fn load(buf: &[u8], at: usize) -> (value: Self) {
        proof {
            lemma_span_values();
            lemma_le_value_bound(buf@.subrange(at as int, at + 4));
        }
        load_le(buf, at, 4) as u32
    }
}

impl Payload for u64 {
    open spec fn width() -> nat {
        8
    }

    open spec fn to_bytes(&self) -> Seq<u8> {
        le_bytes(*self as nat, 8)
    }

    open spec fn from_bytes(bytes: Seq<u8>) -> Self {
        le_value(bytes) as u64
    }

    proof fn lemma_round_trip(value: Self) {
        lemma_span_values();
        lemma_decode_encode(value as nat, 8);
    }

    fn size() -> (n: usize) {
        broadcast use vstd::layout::layout_of_primitives;

        core::mem::size_of::<u64>()
    }

    fn store(&self, buf: &mut [u8], at: usize) {
        store_le(buf, at, 8, *self);
    }

    fn load(buf: &[u8], at: usize) -> (value: Self) {
        load_le(buf, at, 8)
    }
}

} // verus!
