//! The output script that carries one instruction.

use crate::encode::{
    encode_protostone_to_ints, encoded_field, pack_words, protostone_words, stream_words,
};
use crate::chunks::packed_words;
use crate::protostone::{Edict, Protostone, ProtostoneView, RuneId};
use crate::varint::{push_leb128_u128, varint_bytes, words_bytes};
use bitcoin::opcodes::all::{OP_PUSHNUM_13, OP_RETURN};
use bitcoin::script::{Builder, PushBytesBuf};
use vstd::prelude::*;

verus! {

/// The number that marks a payload as belonging to this protocol.
pub const PROTOCOL_MARKER: u128 = 16383;

/// The largest payload that one push can carry, and one more.
pub const PUSH_LIMIT: u64 = 0x1_0000_0000;

/// One edict as a caller gives it.
#[derive(Debug, Clone, Copy, PartialEq, Eq, Structural)]
pub struct EdictInput {
    pub block: u64,
    pub tx: u32,
    pub amount: u128,
    pub output: u32,
}

impl EdictInput {
    /// The edict that this input stands for.
    pub open spec fn edict(self) -> Edict {
        Edict {
            id: RuneId { block: self.block, tx: self.tx },
            amount: self.amount,
            output: self.output,
        }
    }
}

/// The bytes that announce a push of `n` bytes: the length itself below
/// 0x4c, else the opcode for a length of one, two or four bytes and the
/// length, lowest byte first.
pub open spec fn push_prefix(n: nat) -> Seq<u8> {
    if n < 0x4c {
        seq![n as u8]
    } else if n < 0x100 {
        seq![0x4cu8, n as u8]
    } else if n < 0x10000 {
        seq![0x4du8, (n % 0x100) as u8, (n / 0x100) as u8]
    } else {
        seq![
            0x4eu8,
            (n % 0x100) as u8,
            ((n / 0x100) % 0x100) as u8,
            ((n / 0x10000) % 0x100) as u8,
            (n / 0x1000000) as u8,
        ]
    }
}

/// The script that carries `payload`: `OP_RETURN`, `OP_13`, and one push
/// of the payload.
pub open spec fn carrier_script(payload: Seq<u8>) -> Seq<u8> {
    seq![0x6au8, 0x5du8] + push_prefix(payload.len()) + payload
}

/// The payload for one instruction: the protocol marker and the words
/// that carry the instruction, each as a variable-length integer.
pub open spec fn transfer_payload(p: ProtostoneView) -> Seq<u8> {
    varint_bytes(PROTOCOL_MARKER as nat) + words_bytes(
        packed_words(words_bytes(protostone_words(p))),
    )
}

/// The instruction of a plain transfer: protocol 1, the given edicts, and
/// output 0 for what is left over and for refunds.
pub open spec fn transfer_instruction(edicts: Seq<EdictInput>) -> ProtostoneView {
    ProtostoneView {
        subprotocol_id: 1,
        edicts: edicts.map_values(|e: EdictInput| e.edict()),
        pointer: Some(0u32),
        refund_pointer: Some(0u32),
        burn: None,
        message: None,
        from: None,
    }
}

/// `bitcoin::script::Builder`, with `push_opcode` for `OP_RETURN` and
/// `OP_PUSHNUM_13` and `push_slice` for the payload. The script is the two
/// opcodes, then the push: the builder writes the length as its source
/// shows, in one byte below 0x4c and else behind `OP_PUSHDATA1`, `2` or `4`,
/// and then the bytes unchanged. A payload of 2^32 bytes or more is
/// refused by `PushBytesBuf`, so it is left out.
#[verifier::external_body]
fn op_return_script(payload: Vec<u8>) -> (script: Vec<u8>)
    requires
        payload@.len() < PUSH_LIMIT,
    ensures
        script@ == carrier_script(payload@),
{
    let pb = PushBytesBuf::try_from(payload).expect("invalid push bytes for protocol field");
    Builder::new().push_opcode(OP_RETURN).push_opcode(OP_PUSHNUM_13).push_slice(pb).into_bytes()
}

/// The payload that carries `proto`.
pub fn transfer_payload_bytes(proto: &Protostone) -> (payload: Vec<u8>)
    ensures
        payload@ == transfer_payload(proto@),
{
    let words = encode_protostone_to_ints(proto);
    let chunks = pack_words(&words);
    let mut payload: Vec<u8> = Vec::new();
    push_leb128_u128(PROTOCOL_MARKER, &mut payload);
    let ghost marker = payload@;
    let mut i: usize = 0;
    assert(chunks@.take(0) =~= Seq::<u128>::empty());
    assert(payload@ =~= marker + words_bytes(chunks@.take(0)));
    while i < chunks.len()
        invariant
            i <= chunks.len(),
            payload@ == marker + words_bytes(chunks@.take(i as int)),
        decreases chunks.len() - i,
    {
        push_leb128_u128(chunks[i], &mut payload);
        proof {
            assert(chunks@.take(i + 1).drop_last() =~= chunks@.take(i as int));
            assert(chunks@.take(i + 1).last() == chunks@[i as int]);
            assert(payload@ =~= marker + words_bytes(chunks@.take(i + 1)));
        }
        i += 1;
    }
    assert(chunks@.take(chunks@.len() as int) =~= chunks@);
    payload
}

/// The script that carries `proto`, where its payload fits one push.
pub fn build_alkanes_transfer_script(proto: &Protostone) -> (script: Vec<u8>)
    requires
        transfer_payload(proto@).len() < PUSH_LIMIT,
    ensures
        script@ == carrier_script(transfer_payload(proto@)),
{
    op_return_script(transfer_payload_bytes(proto))
}

/// The script that carries `proto`; `None` where its payload is too long
/// for one push.
pub fn try_build_alkanes_transfer_script(proto: &Protostone) -> (r: Option<Vec<u8>>)
    ensures
        match r {
            Some(script) => transfer_payload(proto@).len() < PUSH_LIMIT && script@
                == carrier_script(transfer_payload(proto@)),
            None => transfer_payload(proto@).len() >= PUSH_LIMIT,
        },
{
    let payload = transfer_payload_bytes(proto);
    if (payload.len() as u64) < PUSH_LIMIT {
        Some(op_return_script(payload))
    } else {
        None
    }
}

/// The instruction of a plain transfer of `edicts`.
pub fn transfer_protostone(edicts: Vec<EdictInput>) -> (proto: Protostone)
    ensures
        proto@ == transfer_instruction(edicts@),
{
    let mut list: Vec<Edict> = Vec::new();
    let mut i: usize = 0;
    assert(list@ =~= edicts@.take(0).map_values(|e: EdictInput| e.edict()));
    while i < edicts.len()
        invariant
            i <= edicts.len(),
            list@ == edicts@.take(i as int).map_values(|e: EdictInput| e.edict()),
        decreases edicts.len() - i,
    {
        let e = edicts[i];
        list.push(Edict { id: RuneId { block: e.block, tx: e.tx }, amount: e.amount, output: e.output });
        i += 1;
        assert(list@ =~= edicts@.take(i as int).map_values(|e: EdictInput| e.edict()));
    }
    assert(edicts@.take(edicts@.len() as int) =~= edicts@);
    Protostone {
        subprotocol_id: 1,
        edicts: list,
        pointer: Some(0),
        refund_pointer: Some(0),
        burn: None,
        message: None,
        from: None,
    }
}

/// The script of a plain transfer of `edicts`: protocol 1, output 0 for
/// what is left over and for refunds.
pub fn generate_protostone(edicts: Vec<EdictInput>) -> (script: Vec<u8>)
    requires
        transfer_payload(transfer_instruction(edicts@)).len() < PUSH_LIMIT,
    ensures
        script@ == carrier_script(transfer_payload(transfer_instruction(edicts@))),
{
    let proto = transfer_protostone(edicts);
    build_alkanes_transfer_script(&proto)
}

/// The payload for one instruction carries what the field of a
/// transaction carries for the list of that instruction alone.
pub proof fn lemma_payload_carries_the_field(p: ProtostoneView)
    ensures
        transfer_payload(p) == varint_bytes(PROTOCOL_MARKER as nat) + words_bytes(
            encoded_field(seq![p]),
        ),
{
    let one = seq![p];
    assert(one.drop_last() =~= Seq::<ProtostoneView>::empty());
    assert(one.last() == p);
    assert(stream_words(one.drop_last()) =~= Seq::<u128>::empty());
    assert(stream_words(one) == stream_words(one.drop_last()) + protostone_words(one.last()));
    assert(stream_words(one) =~= protostone_words(p));
}

} // verus!
