//! Mesh identity: draw passes and generational handles.

use core::num::NonZeroU32;

use vstd::prelude::*;

verus! {

/// Which draw pass a mesh belongs to.
#[derive(Clone, Copy, Debug, PartialEq, Eq, Structural)]
pub enum Pass {
    Opaque,
    Cutout,
    Blend,
}

impl Pass {
    /// Position in per-pass tables.
    pub open spec fn ordinal(self) -> int {
        match self {
            Pass::Opaque => 0,
            Pass::Cutout => 1,
            Pass::Blend => 2,
        }
    }

    pub fn index(self) -> (i: usize)
        ensures
            i == self.ordinal(),
            i < 3,
    {
        match self {
            Pass::Opaque => 0,
            Pass::Cutout => 1,
            Pass::Blend => 2,
        }
    }
}

/// A 1-based generation counter. It is never zero, so an optional handle is no
/// larger than a handle. Its number is made by [`Generation::new`] and read by
/// [`Generation::get`] alone.
#[verifier::external_body]
#[derive(Debug, PartialEq, Eq)]
pub struct Generation(NonZeroU32);

impl Clone for Generation {
    fn clone(&self) -> (copy: Self)
        ensures
            copy == *self,
    {
        *self
    }
}

impl Copy for Generation {

}

/// The number that a generation holds, as `NonZeroU32::get` reports it.
pub uninterp spec fn generation_value(generation: Generation) -> u32;

/// `NonZeroU32::get`: the number held, which is never zero.
#[verifier::external_body]
pub(crate) fn generation_get(generation: Generation) -> (value: u32)
    ensures
        value == generation_value(generation),
        value != 0,
{
    generation.0.get()
}

/// `NonZeroU32::new`: holds `value` unless it is zero.
#[verifier::external_body]
pub(crate) fn generation_new(value: u32) -> (generation: Option<Generation>)
    ensures
        match generation {
            Some(g) => value != 0 && generation_value(g) == value,
            None => value == 0,
        },
{
    NonZeroU32::new(value).map(Generation)
}

impl Generation {
    /// The number that this generation holds.
    pub open spec fn value(self) -> u32 {
        generation_value(self)
    }

    pub fn get(self) -> (value: u32)
        ensures
            value == self.value(),
            value != 0,
    {
        generation_get(self)
    }

    /// The generation holding `value`; `None` for zero.
    pub fn new(value: u32) -> (generation: Option<Self>)
        ensures
            match generation {
                Some(g) => value != 0 && g.value() == value,
                None => value == 0,
            },
    {
        generation_new(value)
    }

    /// The first generation of every slot.
    pub fn first() -> (generation: Self)
        ensures
            generation.value() == 1,
    {
        generation_new(1).unwrap()
    }
}

/// Names one mesh: a slot and the generation in which the slot was handed out.
#[derive(Clone, Copy, Debug, PartialEq, Eq)]
pub struct MeshHandle {
    pub slot: u32,
    pub generation: Generation,
}

/// Parts of a generational handle.
pub trait GpuHandle: Copy {
    spec fn slot_of(self) -> u32;

    spec fn generation_of(self) -> u32;

    fn from_parts(slot: u32, generation: Generation) -> (handle: Self)
        ensures
            handle.slot_of() == slot,
            handle.generation_of() == generation.value(),
    ;

    fn slot(self) -> (slot: u32)
        ensures
            slot == self.slot_of(),
    ;

    fn generation(self) -> (generation: Generation)
        ensures
            generation.value() == self.generation_of(),
    ;
}

impl GpuHandle for MeshHandle {
    open spec fn slot_of(self) -> u32 {
        self.slot
    }

    open spec fn generation_of(self) -> u32 {
        self.generation.value()
    }

    fn from_parts(slot: u32, generation: Generation) -> (handle: Self) {
        MeshHandle { slot, generation }
    }

    fn slot(self) -> (slot: u32) {
        self.slot
    }

    fn generation(self) -> (generation: Generation) {
        self.generation
    }
}

} // verus!
