//! The frame of a message: one marker byte before it and one behind it, so
//! that its end is found again after zero bytes were added or lost there.

use vstd::prelude::*;

verus! {

/// The marker at both ends of a framed message.
pub const MAGIC_BYTE: u8 = 0x01;

/// A message between its two markers.
pub open spec fn framed(msg: Seq<u8>) -> Seq<u8> {
    seq![MAGIC_BYTE] + msg + seq![MAGIC_BYTE]
}

/// The index of the last byte that is not zero; -1 where every byte is zero.
pub open spec fn last_nonzero(data: Seq<u8>) -> int
    decreases data.len(),
{
    if data.len() == 0 {
        -1
    } else if data.last() != 0 {
        data.len() - 1
    } else {
        last_nonzero(data.drop_last())
    }
}

/// The message in a frame. A frame begins with the marker, and its last
/// byte that is not zero is a second marker; the message stands between
/// the two. One marker cannot be both: where nothing but zeros follows the
/// first, there is no frame.
pub open spec fn unframed(data: Seq<u8>) -> Option<Seq<u8>> {
    let end = last_nonzero(data);
    if end < 1 || data[0] != MAGIC_BYTE || data[end] != MAGIC_BYTE {
        None
    } else {
        Some(data.subrange(1, end))
    }
}

/// Puts `msg` between two markers.
pub fn encode_calldata(msg: &[u8]) -> (buf: Vec<u8>)
    ensures
        buf@ == framed(msg@),
{
    let mut buf: Vec<u8> = Vec::new();
    buf.push(MAGIC_BYTE);
    let mut i: usize = 0;
    while i < msg.len()
        invariant
            i <= msg.len(),
            buf@ == seq![MAGIC_BYTE] + msg@.take(i as int),
        decreases msg.len() - i,
    {
        buf.push(msg[i]);
        i += 1;
        assert(buf@ =~= seq![MAGIC_BYTE] + msg@.take(i as int));
    }
    buf.push(MAGIC_BYTE);
    assert(msg@.take(msg@.len() as int) =~= msg@);
    buf
}

/// Takes the message out of its frame; `None` where `data` is no frame.
pub fn decode_calldata(data: &[u8]) -> (r: Option<Vec<u8>>)
    ensures
        match r {
            Some(msg) => unframed(data@) == Some(msg@),
            None => unframed(data@) is None,
        },
{
    if data.len() < 2 || data[0] != MAGIC_BYTE {
        return None;
    }
    let mut end: usize = data.len() - 1;
    assert(data@.take(data@.len() as int) =~= data@);
    while data[end] == 0
        invariant
            end < data.len(),
            data[0] == MAGIC_BYTE,
            last_nonzero(data@) == last_nonzero(data@.take(end + 1)),
        decreases end,
    {
        assert(data@.take(end + 1).drop_last() =~= data@.take(end as int));
        end -= 1;
    }
    assert(data@.take(end + 1).last() == data@[end as int]);
    assert(last_nonzero(data@) == end);
    if data[end] != MAGIC_BYTE {
        return None;
    }
    if end == 0 {
        return None;
    }
    let mut msg: Vec<u8> = Vec::new();
    assert(msg@ =~= data@.subrange(1, 1));
    let mut i: usize = 1;
    while i < end
        invariant
            1 <= i <= end < data.len(),
            msg@ == data@.subrange(1, i as int),
        decreases end - i,
    {
        msg.push(data[i]);
        i += 1;
        assert(msg@ =~= data@.subrange(1, i as int));
    }
    Some(msg)
}

/// The message inside its frame is found again, also where zero bytes follow the frame.
pub proof fn lemma_unframed_framed(msg: Seq<u8>, zeros: Seq<u8>)
    requires
        forall|i: int| 0 <= i < zeros.len() ==> zeros[i] == 0,
    ensures
        unframed(framed(msg) + zeros) == Some(msg),
    decreases zeros.len(),
{
    let data = framed(msg) + zeros;
    lemma_last_nonzero_padded(framed(msg), zeros);
    assert(last_nonzero(framed(msg)) == msg.len() + 1);
    if msg.len() == 0 {
        assert(msg =~= Seq::<u8>::empty());
    } else {
        assert(data.subrange(1, msg.len() as int + 1) =~= msg);
    }
}

/// Zero bytes behind a byte string do not move its last byte that is not zero.
pub proof fn lemma_last_nonzero_padded(data: Seq<u8>, zeros: Seq<u8>)
    requires
        forall|i: int| 0 <= i < zeros.len() ==> zeros[i] == 0,
    ensures
        last_nonzero(data + zeros) == last_nonzero(data),
    decreases zeros.len(),
{
    if zeros.len() == 0 {
        assert(data + zeros =~= data);
    } else {
        assert((data + zeros).drop_last() =~= data + zeros.drop_last());
        lemma_last_nonzero_padded(data, zeros.drop_last());
    }
}

} // verus!
