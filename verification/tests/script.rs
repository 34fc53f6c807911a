use alkanes_transfer::protostone::{Edict, Protostone, RuneId};
use alkanes_transfer::script::{
    build_alkanes_transfer_script, generate_protostone, transfer_payload_bytes,
    transfer_protostone, try_build_alkanes_transfer_script, EdictInput,
};

fn transfer(edicts: Vec<Edict>) -> Protostone {
    Protostone {
        subprotocol_id: 1,
        edicts,
        pointer: Some(0),
        refund_pointer: Some(0),
        burn: None,
        message: None,
        from: None,
    }
}

#[test]
fn payload_begins_with_the_protocol_marker() {
    let p = transfer(vec![Edict { id: RuneId { block: 800000, tx: 7 }, amount: 500, output: 1 }]);
    let payload = transfer_payload_bytes(&p);
    assert_eq!(&payload[..2], &[0xff, 0x7f]);
    // words 1, 9, 91, 0, 93, 0, 0, 800000, 7, 500, 1 as integers:
    // 01 09 5b 00 5d 00 00 80ea30 07 f403 01, fourteen bytes in one word
    let word: u128 = 0x01_03f4_07_30ea80_00_00_5d_00_5b_09_01;
    let mut expected = vec![0xff, 0x7f];
    let mut v = word;
    while v >= 128 {
        expected.push((v & 0x7f) as u8 | 0x80);
        v >>= 7;
    }
    expected.push(v as u8);
    assert_eq!(payload, expected);
}

#[test]
fn script_is_op_return_op_13_and_one_push() {
    let p = transfer(vec![Edict { id: RuneId { block: 800000, tx: 7 }, amount: 500, output: 1 }]);
    let payload = transfer_payload_bytes(&p);
    let script = build_alkanes_transfer_script(&p);
    assert_eq!(script[0], 0x6a);
    assert_eq!(script[1], 0x5d);
    assert_eq!(script[2] as usize, payload.len());
    assert_eq!(&script[3..], &payload[..]);
    assert_eq!(try_build_alkanes_transfer_script(&p), Some(script));
}

#[test]
fn script_of_a_long_payload_uses_pushdata1() {
    let mut p = transfer(vec![]);
    p.message = Some((1..=60).collect());
    let payload = transfer_payload_bytes(&p);
    assert!(payload.len() >= 0x4c && payload.len() < 0x100);
    let script = build_alkanes_transfer_script(&p);
    assert_eq!(&script[..4], &[0x6a, 0x5d, 0x4c, payload.len() as u8]);
    assert_eq!(&script[4..], &payload[..]);
}

#[test]
fn script_of_a_longer_payload_uses_pushdata2() {
    let mut p = transfer(vec![]);
    p.message = Some(vec![7u8; 400]);
    let payload = transfer_payload_bytes(&p);
    assert!(payload.len() >= 0x100 && payload.len() < 0x10000);
    let script = build_alkanes_transfer_script(&p);
    assert_eq!(
        &script[..5],
        &[0x6a, 0x5d, 0x4d, (payload.len() % 256) as u8, (payload.len() / 256) as u8]
    );
    assert_eq!(&script[5..], &payload[..]);
}

#[test]
fn script_agrees_with_the_script_type_of_bitcoin() {
    let p = transfer(vec![Edict { id: RuneId { block: 2, tx: 1 }, amount: 9, output: 1 }]);
    let script = bitcoin::ScriptBuf::from_bytes(build_alkanes_transfer_script(&p));
    assert!(script.is_op_return());
    let mut instructions = script.instructions();
    let first = instructions.next().unwrap().unwrap();
    assert_eq!(first.opcode(), Some(bitcoin::opcodes::all::OP_RETURN));
    let second = instructions.next().unwrap().unwrap();
    assert_eq!(second.opcode(), Some(bitcoin::opcodes::all::OP_PUSHNUM_13));
    let third = instructions.next().unwrap().unwrap();
    assert_eq!(third.push_bytes().unwrap().as_bytes(), &transfer_payload_bytes(&p)[..]);
    assert!(instructions.next().is_none());
}

#[test]
fn plain_transfer_has_protocol_one_and_both_pointers_at_zero() {
    let inputs = vec![
        EdictInput { block: 5, tx: 2, amount: 10, output: 1 },
        EdictInput { block: 2, tx: 9, amount: 3, output: 2 },
    ];
    let p = transfer_protostone(inputs.clone());
    assert_eq!(p.subprotocol_id, 1);
    assert_eq!(p.pointer, Some(0));
    assert_eq!(p.refund_pointer, Some(0));
    assert_eq!(p.burn, None);
    assert_eq!(p.message, None);
    assert_eq!(p.from, None);
    assert_eq!(
        p.edicts,
        vec![
            Edict { id: RuneId { block: 5, tx: 2 }, amount: 10, output: 1 },
            Edict { id: RuneId { block: 2, tx: 9 }, amount: 3, output: 2 },
        ]
    );
    assert_eq!(generate_protostone(inputs), build_alkanes_transfer_script(&p));
}

#[test]
fn script_of_a_very_long_payload_uses_pushdata4() {
    let mut p = transfer(vec![]);
    p.message = Some(vec![7u8; 70_000]);
    let payload = transfer_payload_bytes(&p);
    let n = payload.len();
    assert!(n >= 0x10000);
    let script = build_alkanes_transfer_script(&p);
    assert_eq!(
        &script[..7],
        &[
            0x6a,
            0x5d,
            0x4e,
            (n % 256) as u8,
            (n / 256 % 256) as u8,
            (n / 65536 % 256) as u8,
            (n / 16777216) as u8
        ]
    );
    assert_eq!(&script[7..], &payload[..]);
}

#[test]
fn script_at_the_edges_of_the_push_lengths() {
    // the payload grows by whole words of the message, so its length is searched for
    let mut seen_short = false;
    let mut seen_long = false;
    for len in 0..120usize {
        let mut p = transfer(vec![]);
        p.message = Some(vec![9u8; len]);
        let payload = transfer_payload_bytes(&p);
        let script = build_alkanes_transfer_script(&p);
        if payload.len() < 0x4c {
            seen_short = true;
            assert_eq!(script.len(), payload.len() + 3);
            assert_eq!(script[2] as usize, payload.len());
        } else {
            seen_long = true;
            assert_eq!(script.len(), payload.len() + 4);
            assert_eq!(&script[2..4], &[0x4c, payload.len() as u8]);
        }
    }
    assert!(seen_short && seen_long);
}
