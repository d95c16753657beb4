//! The values that a program computes with.

use vstd::prelude::*;

verus! {

/// Marks a type as a value of the language.
pub trait PotatoPrimitive {

}

/// A value of the language: one of a closed set of kinds.
#[derive(Debug)]
pub enum PotatoType {
    Int(i32),
    BigInt(i64),
    BiggerInt(i128),
    UInt(u32),
    BigUInt(u64),
    BiggerUInt(u128),
    /// A single-precision number, held as its IEEE 754 bit pattern.
    Float(u32),
    /// A double-precision number, held as its IEEE 754 bit pattern.
    Double(u64),
    Bool(bool),
    String(String),
}

impl PotatoPrimitive for PotatoType {

}

} // verus!
