//! Partially signed transactions in text: hexadecimal or base64, and the
//! merge of two of them.

use bitcoin::psbt::Psbt;
use vstd::prelude::*;

verus! {

/// Why two partially signed transactions were not merged.
#[derive(Debug, Clone, Copy, PartialEq, Eq, Structural)]
pub enum CombineError {
    /// The first text is hexadecimal of odd length.
    HexFirst,
    /// The first text is no base64.
    Base64First,
    /// The second text is hexadecimal of odd length.
    HexSecond,
    /// The second text is no base64.
    Base64Second,
    /// The first bytes are no partially signed transaction.
    DeserializeFirst,
    /// The second bytes are no partially signed transaction.
    DeserializeSecond,
    /// The two do not describe the same unsigned transaction, or disagree otherwise.
    IncompatibleSkeleton,
}

/// What merging two serialised transactions gave.
pub enum Merge {
    Merged(Vec<u8>),
    FirstUnreadable,
    SecondUnreadable,
    Incompatible,
}

/// The outcome of a merge as a mathematical value.
pub enum MergeView {
    Merged(Seq<u8>),
    FirstUnreadable,
    SecondUnreadable,
    Incompatible,
}

impl View for Merge {
    type V = MergeView;

    open spec fn view(&self) -> MergeView {
        match *self {
            Merge::Merged(bytes) => MergeView::Merged(bytes@),
            Merge::FirstUnreadable => MergeView::FirstUnreadable,
            Merge::SecondUnreadable => MergeView::SecondUnreadable,
            Merge::Incompatible => MergeView::Incompatible,
        }
    }
}

/// An extended public key that a partially signed transaction names, and
/// where the key comes from: the fingerprint of its master key and the
/// path from there.
#[derive(Debug)]
pub struct KeySource {
    pub key: Vec<u8>,
    pub fingerprint: Vec<u8>,
    pub path: Vec<u32>,
}

/// A key and its source as a mathematical value.
pub struct KeySourceView {
    pub key: Seq<u8>,
    pub fingerprint: Seq<u8>,
    pub path: Seq<u32>,
}

impl View for KeySource {
    type V = KeySourceView;

    open spec fn view(&self) -> KeySourceView {
        KeySourceView { key: self.key@, fingerprint: self.fingerprint@, path: self.path@ }
    }
}

/// The keys of a list, each as a mathematical value.
pub open spec fn source_views(sources: Seq<KeySource>) -> Seq<KeySourceView> {
    sources.map_values(|k: KeySource| k@)
}

/// Whether `long` ends with `short`.
pub open spec fn is_suffix(short: Seq<u32>, long: Seq<u32>) -> bool {
    short.len() <= long.len() && long.subrange(long.len() - short.len(), long.len() as int)
        == short
}

/// Whether two sources of one key can be merged: they are the same, or
/// the shorter path is the end of the longer one. Paths of one length must
/// be equal.
pub open spec fn sources_agree(own: KeySourceView, other: KeySourceView) -> bool {
    ||| other.path == own.path && other.fingerprint == own.fingerprint
    ||| other.path.len() < own.path.len() && is_suffix(other.path, own.path)
    ||| other.path.len() >= own.path.len() && is_suffix(own.path, other.path)
}

/// Whether the keys of two transactions can be merged: every key that
/// both name has sources that agree.
pub open spec fn can_merge(first: Seq<KeySourceView>, second: Seq<KeySourceView>) -> bool {
    forall|i: int, j: int|
        0 <= i < first.len() && 0 <= j < second.len() && (#[trigger] first[i]).key
            == (#[trigger] second[j]).key ==> sources_agree(first[i], second[j])
}

/// The value of a hexadecimal digit, in either case.
pub open spec fn hex_value(c: u8) -> Option<u8> {
    if 0x30 <= c <= 0x39 {
        Some((c - 0x30) as u8)
    } else if 0x41 <= c <= 0x46 {
        Some((c - 0x41 + 10) as u8)
    } else if 0x61 <= c <= 0x66 {
        Some((c - 0x61 + 10) as u8)
    } else {
        None
    }
}

/// Whether every byte is a hexadecimal digit.
pub open spec fn is_hex(text: Seq<u8>) -> bool {
    forall|i: int| 0 <= i < text.len() ==> hex_value(#[trigger] text[i]) is Some
}

/// The bytes that hexadecimal text stands for, two digits to a byte; none
/// where the length is odd or a byte is no digit.
pub open spec fn unhex(text: Seq<u8>) -> Option<Seq<u8>> {
    if text.len() % 2 != 0 || !is_hex(text) {
        None
    } else {
        Some(
            Seq::new(
                text.len() / 2,
                |i: int| (16 * hex_value(text[2 * i]).unwrap() + hex_value(text[2 * i + 1]).unwrap()) as u8,
            ),
        )
    }
}

/// What `base64::decode` gives for a text: the bytes, or nothing where the
/// text is no base64 of the standard alphabet with padding.
pub uninterp spec fn base64_decoded(text: Seq<u8>) -> Option<Seq<u8>>;

/// What `base64::encode` gives for bytes.
pub uninterp spec fn base64_encoded(bytes: Seq<u8>) -> Seq<char>;

/// The keys that `Psbt::deserialize` reads from bytes, in the order of
/// the keys; nothing where the bytes are no partially signed transaction.
pub uninterp spec fn key_sources(bytes: Seq<u8>) -> Option<Seq<KeySourceView>>;

/// What reading two partially signed transactions and merging the second
/// into the first gives.
pub uninterp spec fn merged_psbt(first: Seq<u8>, second: Seq<u8>) -> MergeView;

/// `hex::decode`: the bytes of hexadecimal text. The source refuses an odd
/// length and every byte that is no digit in either case, and else gives
/// one byte for two digits, the first digit the higher.
#[verifier::external_body]
pub(crate) fn hex_decode(text: &str) -> (r: Option<Vec<u8>>)
    ensures
        match r {
            Some(bytes) => unhex(vstd::utf8::encode_utf8(text@)) == Some(bytes@),
            None => unhex(vstd::utf8::encode_utf8(text@)) is None,
        },
{
    hex::decode(text).ok()
}

/// `base64::decode`, by the name of its result.
#[allow(deprecated)]
#[verifier::external_body]
fn base64_decode(text: &str) -> (r: Option<Vec<u8>>)
    ensures
        match r {
            Some(bytes) => base64_decoded(vstd::utf8::encode_utf8(text@)) == Some(bytes@),
            None => base64_decoded(vstd::utf8::encode_utf8(text@)) is None,
        },
{
    base64::decode(text).ok()
}

/// `base64::encode`, by the name of its result.
#[allow(deprecated)]
#[verifier::external_body]
pub(crate) fn base64_encode(bytes: &Vec<u8>) -> (text: String)
    ensures
        text@ == base64_encoded(bytes@),
{
    base64::encode(bytes)
}

/// `Psbt::deserialize`, and of what it gives the field `xpub`: each key
/// in its 78 bytes, the four bytes of its fingerprint, and its path as
/// numbers.
#[verifier::external_body]
fn read_key_sources(bytes: &Vec<u8>) -> (r: Option<Vec<KeySource>>)
    ensures
        match r {
            Some(sources) => key_sources(bytes@) == Some(source_views(sources@)),
            None => key_sources(bytes@) is None,
        },
{
    let psbt = Psbt::deserialize(bytes).ok()?;
    Some(psbt.xpub.iter().map(|(key, (fingerprint, path))| KeySource {
        key: key.encode().to_vec(),
        fingerprint: fingerprint.to_bytes().to_vec(),
        path: path.to_u32_vec(),
    }).collect())
}

/// `Psbt::deserialize` on both, `Psbt::combine` of the second into the
/// first, and `Psbt::serialize` of the first, by the name of the outcome.
/// Every error of `combine` counts as incompatible. Where both name a key
/// and the path of the second is shorter than that of the first without
/// being its end, `combine` takes a slice out of range; such keys are left
/// out, with all whose sources do not agree.
#[verifier::external_body]
fn merge_psbt(first: &Vec<u8>, second: &Vec<u8>) -> (r: Merge)
    requires
        key_sources(first@) is Some && key_sources(second@) is Some ==> can_merge(
            key_sources(first@).unwrap(),
            key_sources(second@).unwrap(),
        ),
    ensures
        r@ == merged_psbt(first@, second@),
{
    match (Psbt::deserialize(first), Psbt::deserialize(second)) {
        (Err(_), _) => Merge::FirstUnreadable,
        (Ok(_), Err(_)) => Merge::SecondUnreadable,
        (Ok(mut a), Ok(b)) => match a.combine(b) {
            Ok(()) => Merge::Merged(a.serialize()),
            Err(_) => Merge::Incompatible,
        },
    }
}

/// Whether every byte of `text` is a hexadecimal digit.
pub fn is_hex_text(text: &str) -> (r: bool)
    ensures
        r == is_hex(vstd::utf8::encode_utf8(text@)),
{
    let bytes = text.as_bytes();
    let mut i: usize = 0;
    while i < bytes.len()
        invariant
            i <= bytes.len(),
            bytes@ == vstd::utf8::encode_utf8(text@),
            forall|j: int| 0 <= j < i ==> hex_value(#[trigger] bytes@[j]) is Some,
        decreases bytes.len() - i,
    {
        let c = bytes[i];
        if !((0x30 <= c && c <= 0x39) || (0x41 <= c && c <= 0x46) || (0x61 <= c && c <= 0x66)) {
            proof {
                let all = vstd::utf8::encode_utf8(text@);
                assert(all == bytes@);
                assert(hex_value(all[i as int]) is None);
                assert(!is_hex(all));
            }
            return false;
        }
        i += 1;
    }
    true
}

/// Whether `a` and `b` are the same bytes.
fn same_bytes(a: &Vec<u8>, b: &Vec<u8>) -> (r: bool)
    ensures
        r == (a@ == b@),
{
    if a.len() != b.len() {
        return false;
    }
    let mut i: usize = 0;
    while i < a.len()
        invariant
            i <= a.len(),
            a.len() == b.len(),
            forall|k: int| 0 <= k < i ==> a[k] == b[k],
        decreases a.len() - i,
    {
        if a[i] != b[i] {
            return false;
        }
        i += 1;
    }
    assert(a@ =~= b@);
    true
}

/// Whether `long` ends with `short`.
fn ends_with(long: &Vec<u32>, short: &Vec<u32>) -> (r: bool)
    ensures
        r == is_suffix(short@, long@),
{
    if short.len() > long.len() {
        return false;
    }
    let skip: usize = long.len() - short.len();
    let ghost tail = long@.subrange(skip as int, long@.len() as int);
    let mut i: usize = 0;
    while i < short.len()
        invariant
            i <= short.len(),
            skip + short.len() == long.len(),
            tail == long@.subrange(skip as int, long@.len() as int),
            forall|k: int| 0 <= k < i ==> long[skip + k] == short[k],
        decreases short.len() - i,
    {
        if long[skip + i] != short[i] {
            assert(tail[i as int] != short@[i as int]);
            return false;
        }
        i += 1;
    }
    assert(tail =~= short@);
    true
}

/// Whether two sources of one key can be merged.
fn agree(own: &KeySource, other: &KeySource) -> (r: bool)
    ensures
        r == sources_agree(own@, other@),
{
    if other.path.len() < own.path.len() {
        ends_with(&own.path, &other.path)
    } else {
        let ends = ends_with(&other.path, &own.path);
        proof {
            if other.path@ == own.path@ {
                assert(own.path@.subrange(0, own.path@.len() as int) =~= own.path@);
            }
        }
        ends
    }
}

/// Whether the keys of two transactions can be merged.
pub fn sources_can_merge(first: &Vec<KeySource>, second: &Vec<KeySource>) -> (r: bool)
    ensures
        r == can_merge(source_views(first@), source_views(second@)),
{
    let ghost own = source_views(first@);
    let ghost others = source_views(second@);
    let mut i: usize = 0;
    while i < first.len()
        invariant
            i <= first.len(),
            own == source_views(first@),
            others == source_views(second@),
            forall|a: int, b: int|
                0 <= a < i && 0 <= b < others.len() && (#[trigger] own[a]).key
                    == (#[trigger] others[b]).key ==> sources_agree(own[a], others[b]),
        decreases first.len() - i,
    {
        let mut j: usize = 0;
        while j < second.len()
            invariant
                i < first.len(),
                j <= second.len(),
                own == source_views(first@),
                others == source_views(second@),
                forall|b: int|
                    0 <= b < j && own[i as int].key == (#[trigger] others[b]).key
                        ==> sources_agree(own[i as int], others[b]),
            decreases second.len() - j,
        {
            if same_bytes(&first[i].key, &second[j].key) && !agree(&first[i], &second[j]) {
                assert(own[i as int].key == others[j as int].key);
                assert(!sources_agree(own[i as int], others[j as int]));
                return false;
            }
            j += 1;
        }
        i += 1;
    }
    true
}

/// The bytes that a text stands for: read as hexadecimal where every
/// byte of it is a hexadecimal digit, else as base64.
pub open spec fn text_decoded(text: Seq<u8>) -> Option<Seq<u8>> {
    if is_hex(text) {
        unhex(text)
    } else {
        base64_decoded(text)
    }
}

/// The merge of two partially signed transactions in text, or the first
/// failure on the way: reading the first text, the second text, the first
/// transaction, the second, and merging them. Two transactions that can
/// both be read and name a key whose sources do not agree are incompatible.
pub open spec fn combined(first: Seq<u8>, second: Seq<u8>) -> Result<Seq<char>, CombineError> {
    match text_decoded(first) {
        None => Err(
            if is_hex(first) {
                CombineError::HexFirst
            } else {
                CombineError::Base64First
            },
        ),
        Some(a) => match text_decoded(second) {
            None => Err(
                if is_hex(second) {
                    CombineError::HexSecond
                } else {
                    CombineError::Base64Second
                },
            ),
            Some(b) => if keys_clash(a, b) {
                Err(CombineError::IncompatibleSkeleton)
            } else {
                merged_outcome(merged_psbt(a, b))
            },
        },
    }
}

/// Whether two partially signed transactions name a key whose sources do
/// not agree.
pub open spec fn keys_clash(first: Seq<u8>, second: Seq<u8>) -> bool {
    key_sources(first) is Some && key_sources(second) is Some && !can_merge(
        key_sources(first).unwrap(),
        key_sources(second).unwrap(),
    )
}

/// What a merge comes to: the merged transaction in base64, or the failure.
pub open spec fn merged_outcome(merge: MergeView) -> Result<Seq<char>, CombineError> {
    match merge {
        MergeView::Merged(bytes) => Ok(base64_encoded(bytes)),
        MergeView::FirstUnreadable => Err(CombineError::DeserializeFirst),
        MergeView::SecondUnreadable => Err(CombineError::DeserializeSecond),
        MergeView::Incompatible => Err(CombineError::IncompatibleSkeleton),
    }
}

/// The bytes of a text in hexadecimal or base64.
fn decode_text(text: &str) -> (r: Option<Vec<u8>>)
    ensures
        match r {
            Some(bytes) => text_decoded(vstd::utf8::encode_utf8(text@)) == Some(bytes@),
            None => text_decoded(vstd::utf8::encode_utf8(text@)) is None,
        },
{
    if is_hex_text(text) {
        hex_decode(text)
    } else {
        base64_decode(text)
    }
}

/// What a merge comes to.
pub fn merge_outcome(merge: Merge) -> (r: Result<String, CombineError>)
    ensures
        match r {
            Ok(text) => merged_outcome(merge@) == Ok::<Seq<char>, CombineError>(text@),
            Err(e) => merged_outcome(merge@) == Err::<Seq<char>, CombineError>(e),
        },
{
    match merge {
        Merge::Merged(bytes) => Ok(base64_encode(&bytes)),
        Merge::FirstUnreadable => Err(CombineError::DeserializeFirst),
        Merge::SecondUnreadable => Err(CombineError::DeserializeSecond),
        Merge::Incompatible => Err(CombineError::IncompatibleSkeleton),
    }
}

/// Merges two partially signed transactions that describe the same
/// unsigned transaction. Each is given in hexadecimal or in base64; the
/// result is in base64.
pub fn combine_psbt(psbt1: &str, psbt2: &str) -> (r: Result<String, CombineError>)
    ensures
        match r {
            Ok(text) => combined(
                vstd::utf8::encode_utf8(psbt1@),
                vstd::utf8::encode_utf8(psbt2@),
            ) == Ok::<Seq<char>, CombineError>(text@),
            Err(e) => combined(vstd::utf8::encode_utf8(psbt1@), vstd::utf8::encode_utf8(psbt2@))
                == Err::<Seq<char>, CombineError>(e),
        },
{
    let hex1 = is_hex_text(psbt1);
    let first = match decode_text(psbt1) {
        Some(bytes) => bytes,
        None => {
            return Err(
                if hex1 {
                    CombineError::HexFirst
                } else {
                    CombineError::Base64First
                },
            );
        },
    };
    let hex2 = is_hex_text(psbt2);
    let second = match decode_text(psbt2) {
        Some(bytes) => bytes,
        None => {
            return Err(
                if hex2 {
                    CombineError::HexSecond
                } else {
                    CombineError::Base64Second
                },
            );
        },
    };
    if let (Some(own), Some(other)) = (read_key_sources(&first), read_key_sources(&second)) {
        if !sources_can_merge(&own, &other) {
            return Err(CombineError::IncompatibleSkeleton);
        }
    }
    merge_outcome(merge_psbt(&first, &second))
}

} // verus!
