//! Row types of the store's five tables, and their spec-level views.
//!
//! The store keeps its state as plain vectors of rows, one vector per table:
//! `cids` (interned identifiers), `refs` (parent/child edges), `blocks`
//! (payloads), `aliases` (named roots) and `temp_aliases` (process-scoped
//! roots). Contracts speak of the rows through the ghost views below.

use vstd::prelude::*;

verus! {

/// A row of the identifier table: an opaque CID and its surrogate id.
pub struct CidRow {
    pub id: u64,
    pub cid: Vec<u8>,
}

/// Ghost view of a `CidRow`.
pub ghost struct CidV {
    pub id: u64,
    pub cid: Seq<u8>,
}

impl View for CidRow {
    type V = CidV;

    open spec fn view(&self) -> CidV {
        CidV { id: self.id, cid: self.cid@ }
    }
}

/// A row of the reference table: an edge from a parent id to a child id.
#[derive(Clone, Copy, PartialEq, Eq, Structural)]
pub struct RefRow {
    pub parent_id: u64,
    pub child_id: u64,
}

/// A row of the payload table: the data stored for one id.
pub struct BlockRow {
    pub block_id: u64,
    pub data: Vec<u8>,
}

/// Ghost view of a `BlockRow`.
pub ghost struct BlockV {
    pub block_id: u64,
    pub data: Seq<u8>,
}

impl View for BlockRow {
    type V = BlockV;

    open spec fn view(&self) -> BlockV {
        BlockV { block_id: self.block_id, data: self.data@ }
    }
}

/// A row of the named-alias table: a unique name pinning one id.
pub struct AliasRow {
    pub name: Vec<u8>,
    pub block_id: u64,
}

/// Ghost view of an `AliasRow`.
pub ghost struct AliasV {
    pub name: Seq<u8>,
    pub block_id: u64,
}

impl View for AliasRow {
    type V = AliasV;

    open spec fn view(&self) -> AliasV {
        AliasV { name: self.name@, block_id: self.block_id }
    }
}

/// A row of the temp-alias table. A `None` block id is the placeholder row
/// that reserves the alias slot.
#[derive(Clone, Copy, PartialEq, Eq, Structural)]
pub struct TempRow {
    pub alias: u64,
    pub block_id: Option<u64>,
}

/// A handle for a temporary alias: an integer-named root that pins every id
/// added under it until the handle is released.
pub struct TempAlias {
    pub id: u64,
}

/// One block as the caller supplies it: its CID, its payload, and the CIDs of
/// its direct children.
pub struct BlockData {
    pub cid: Vec<u8>,
    pub data: Vec<u8>,
    pub links: Vec<Vec<u8>>,
}

/// A caller-defined source of blocks, as handed to a bulk insert. The store
/// never mutates a block; implementors return the parts by value.
pub trait Block {
    fn cid(&self) -> Vec<u8>;

    fn data(&self) -> Vec<u8>;

    fn links(&self) -> Vec<Vec<u8>>;
}

} // verus!
