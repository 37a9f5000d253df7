//! Identifier types.
//!
//! A notebook is numbered by a per-process counter; every other entity is
//! named by a 128-bit UUID. The library stores a UUID as its 128-bit
//! value; the unverified shell converts to and from `uuid::Uuid` at the
//! process boundary.

use vstd::prelude::*;

verus! {

/// Identifier of a notebook, assigned from a per-server counter.
#[derive(Clone, Copy, Debug, PartialEq, Eq, Structural, Hash)]
pub struct NotebookId {
    pub id: u32,
}

impl NotebookId {
    pub fn new(id: u32) -> (r: NotebookId)
        ensures
            r.id == id,
    {
        NotebookId { id }
    }
}

/// Identifier of a run: the 128-bit value of a UUID.
#[derive(Clone, Copy, Debug, PartialEq, Eq, Structural, Hash)]
pub struct RunId {
    pub id: u128,
}

impl RunId {
    pub fn new(id: u128) -> (r: RunId)
        ensures
            r.id == id,
    {
        RunId { id }
    }
}

/// Identifier of a kernel process: the 128-bit value of a UUID.
#[derive(Clone, Copy, Debug, PartialEq, Eq, Structural, Hash)]
pub struct KernelId {
    pub id: u128,
}

impl KernelId {
    pub fn new(id: u128) -> (r: KernelId)
        ensures
            r.id == id,
    {
        KernelId { id }
    }
}

/// Identifier of an output cell: the 128-bit value of a UUID.
#[derive(Clone, Copy, Debug, PartialEq, Eq, Structural, Hash)]
pub struct OutputCellId {
    pub id: u128,
}

impl OutputCellId {
    pub fn new(id: u128) -> (r: OutputCellId)
        ensures
            r.id == id,
    {
        OutputCellId { id }
    }
}

/// Identifier of a node in the editor tree: the 128-bit value of a UUID.
#[derive(Clone, Copy, Debug, PartialEq, Eq, Structural, Hash)]
pub struct EditorId {
    pub id: u128,
}

impl EditorId {
    pub fn new(id: u128) -> (r: EditorId)
        ensures
            r.id == id,
    {
        EditorId { id }
    }
}

/// Identifier of a scope in a globals tree: the 128-bit value of a UUID.
#[derive(Clone, Copy, Debug, PartialEq, Eq, Structural, Hash)]
pub struct ScopeId {
    pub id: u128,
}

impl ScopeId {
    pub fn new(id: u128) -> (r: ScopeId)
        ensures
            r.id == id,
    {
        ScopeId { id }
    }
}

/// Relies on `uuid::Uuid::new_v4`, which generates a random version-4
/// UUID; the result is returned as its 128-bit value. The value is
/// random, so nothing is promised of it.
#[verifier::external_body]
pub(crate) fn fresh_uuid_bits() -> u128 {
    uuid::Uuid::new_v4().as_u128()
}

} // verus!
