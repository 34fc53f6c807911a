//! The instruction that a transaction carries: a list of edicts, and the
//! optional fields that say where unallocated and refunded tokens go.

use vstd::prelude::*;

verus! {

/// An asset: the block in which it was made and its position in that
/// block. Assets are ordered by block, then by position.
#[derive(Debug, Clone, Copy, PartialEq, Eq, PartialOrd, Ord, Structural)]
pub struct RuneId {
    pub block: u64,
    pub tx: u32,
}

/// Moves `amount` units of one asset to the output with index `output`.
#[derive(Debug, Clone, Copy, PartialEq, Eq, Structural)]
pub struct Edict {
    pub id: RuneId,
    pub amount: u128,
    pub output: u32,
}

/// One instruction.
#[derive(Debug, Clone)]
pub struct Protostone {
    /// The protocol that the instruction belongs to; zero ends a stream.
    pub subprotocol_id: u128,
    pub edicts: Vec<Edict>,
    /// The output that receives what no edict allocates.
    pub pointer: Option<u32>,
    /// The output that receives a refund.
    pub refund_pointer: Option<u32>,
    pub burn: Option<u128>,
    /// An opaque payload for the protocol.
    pub message: Option<Vec<u8>>,
    /// The inputs that authorise the instruction.
    pub from: Option<Vec<u32>>,
}

/// An instruction as a mathematical value.
pub struct ProtostoneView {
    pub subprotocol_id: u128,
    pub edicts: Seq<Edict>,
    pub pointer: Option<u32>,
    pub refund_pointer: Option<u32>,
    pub burn: Option<u128>,
    pub message: Option<Seq<u8>>,
    pub from: Option<Seq<u32>>,
}

impl View for Protostone {
    type V = ProtostoneView;

    open spec fn view(&self) -> ProtostoneView {
        ProtostoneView {
            subprotocol_id: self.subprotocol_id,
            edicts: self.edicts@,
            pointer: self.pointer,
            refund_pointer: self.refund_pointer,
            burn: self.burn,
            message: match self.message {
                Some(m) => Some(m@),
                None => None,
            },
            from: match self.from {
                Some(f) => Some(f@),
                None => None,
            },
        }
    }
}

impl ProtostoneView {
    /// Whether the instruction is one that a stream can hold and whose
    /// edicts each move something: its protocol is not zero, and no edict
    /// has the amount zero.
    pub open spec fn well_formed(self) -> bool {
        &&& self.subprotocol_id != 0
        &&& forall|i: int| 0 <= i < self.edicts.len() ==> (#[trigger] self.edicts[i]).amount > 0
    }
}

impl Protostone {
    /// Whether the instruction is well formed.
    pub fn is_well_formed(&self) -> (ok: bool)
        ensures
            ok == self@.well_formed(),
    {
        if self.subprotocol_id == 0 {
            return false;
        }
        let mut i: usize = 0;
        while i < self.edicts.len()
            invariant
                i <= self.edicts.len(),
                self.subprotocol_id != 0,
                forall|j: int| 0 <= j < i ==> (#[trigger] self.edicts@[j]).amount > 0,
            decreases self.edicts.len() - i,
        {
            if self.edicts[i].amount == 0 {
                assert(self@.edicts[i as int].amount == 0);
                return false;
            }
            i += 1;
        }
        true
    }
}

/// The instructions of a list, each as a mathematical value.
pub open spec fn views(protos: Seq<Protostone>) -> Seq<ProtostoneView> {
    protos.map_values(|p: Protostone| p@)
}

/// The asset before all others, from which the first edict of a run is counted.
pub open spec fn origin() -> RuneId {
    RuneId { block: 0, tx: 0 }
}

/// The low 64 bits of a word.
pub open spec fn low_u64(x: u128) -> u64 {
    (x % 0x1_0000_0000_0000_0000) as u64
}

/// The low 32 bits of a word.
pub open spec fn low_u32(x: u128) -> u32 {
    (x % 0x1_0000_0000) as u32
}

/// Keeps the low 64 bits of a word.
pub fn truncate_u64(x: u128) -> (r: u64)
    ensures
        r == low_u64(x),
{
    let low: u128 = x & 0xffff_ffff_ffff_ffff;
    assert(x & 0xffff_ffff_ffff_ffff == x % 0x1_0000_0000_0000_0000) by (bit_vector);
    low as u64
}

/// Keeps the low 32 bits of a word.
pub fn truncate_u32(x: u128) -> (r: u32)
    ensures
        r == low_u32(x),
{
    let low: u128 = x & 0xffff_ffff;
    assert(x & 0xffff_ffff == x % 0x1_0000_0000) by (bit_vector);
    low as u32
}

} // verus!
