//! Polygon triangulation by ear clipping.
//!
//! The integer-coordinate triangulator lives in [`integer`]; it works with exact
//! integer arithmetic and is verified.
use vstd::prelude::*;

pub mod integer;

verus! {

/// Index of a vertex
pub trait Index: Copy + Sized {
    /// The vertex number that this index stands for.
    spec fn to_nat(self) -> nat;

    /// The vertex number that `from_usize` keeps of `v` (the index type may truncate).
    spec fn from_nat(v: nat) -> Self;

    fn into_usize(self) -> (r: usize)
        ensures
            r as nat == self.to_nat(),
    ;

    fn from_usize(v: usize) -> (r: Self)
        ensures
            r == Self::from_nat(v as nat),
    ;
}

impl Index for u32 {
    open spec fn to_nat(self) -> nat {
        self as nat
    }

    open spec fn from_nat(v: nat) -> u32 {
        v as u32
    }

    fn into_usize(self) -> (r: usize) {
        self as usize
    }

    fn from_usize(v: usize) -> (r: Self) {
        v as Self
    }
}

impl Index for u16 {
    open spec fn to_nat(self) -> nat {
        self as nat
    }

    open spec fn from_nat(v: nat) -> u16 {
        v as u16
    }

    fn into_usize(self) -> (r: usize) {
        self as usize
    }

    fn from_usize(v: usize) -> (r: Self) {
        v as Self
    }
}

impl Index for usize {
    open spec fn to_nat(self) -> nat {
        self as nat
    }

    open spec fn from_nat(v: nat) -> usize {
        v as usize
    }

    fn into_usize(self) -> (r: usize) {
        self
    }

    fn from_usize(v: usize) -> (r: Self) {
        v as Self
    }
}

} // verus!
