use alkanes_transfer::gas::{
    calculate_fee_and_change, calculate_fee_p2tr_with_opreturn, calculate_fee_simple,
    calculate_fee_with_opreturn, compact_size_length, fee_for_weight, get_input_type,
    get_output_type, try_calculate_fee_and_change, InputType, Output, OutputType, Script, Utxo,
    DUST_THRESHOLD,
};

fn addr(s: &str) -> Option<String> {
    Some(s.to_string())
}

#[test]
fn input_kind_goes_by_the_prefix() {
    assert_eq!(get_input_type(&addr("bc1qabc")), InputType::P2WPKH);
    assert_eq!(get_input_type(&addr("tb1qabc")), InputType::P2WPKH);
    assert_eq!(get_input_type(&addr("bc1pabc")), InputType::P2TR);
    assert_eq!(get_input_type(&addr("tb1pabc")), InputType::P2TR);
    assert_eq!(get_input_type(&addr("1abc")), InputType::P2PKH);
    assert_eq!(get_input_type(&addr("mabc")), InputType::P2PKH);
    assert_eq!(get_input_type(&addr("nabc")), InputType::P2PKH);
}

#[test]
fn input_kind_defaults_to_taproot() {
    assert_eq!(get_input_type(&None), InputType::P2TR);
    assert_eq!(get_input_type(&addr("")), InputType::P2TR);
    assert_eq!(get_input_type(&addr("3abc")), InputType::P2TR);
    assert_eq!(get_input_type(&addr("bc1")), InputType::P2TR);
    assert_eq!(get_input_type(&addr("xyz")), InputType::P2TR);
}

#[test]
fn output_kind_goes_by_the_prefix() {
    assert_eq!(get_output_type(&addr("bc1qabc")), OutputType::P2WPKH);
    assert_eq!(get_output_type(&addr("tb1qabc")), OutputType::P2WPKH);
    assert_eq!(get_output_type(&addr("bc1pabc")), OutputType::P2TR);
    assert_eq!(get_output_type(&addr("tb1pabc")), OutputType::P2TR);
    assert_eq!(get_output_type(&addr("3abc")), OutputType::P2SH);
    assert_eq!(get_output_type(&addr("2abc")), OutputType::P2SH);
    assert_eq!(get_output_type(&addr("1abc")), OutputType::P2PKH);
    assert_eq!(get_output_type(&addr("mabc")), OutputType::P2PKH);
    assert_eq!(get_output_type(&addr("nabc")), OutputType::P2PKH);
    assert_eq!(get_output_type(&addr("zzz")), OutputType::P2TR);
    assert_eq!(get_output_type(&None), OutputType::P2TR);
}

#[test]
fn compact_size_thresholds() {
    assert_eq!(compact_size_length(0), 1);
    assert_eq!(compact_size_length(252), 1);
    assert_eq!(compact_size_length(253), 3);
    assert_eq!(compact_size_length(65535), 3);
    assert_eq!(compact_size_length(65536), 5);
}

#[test]
fn fee_rounds_up_to_a_whole_satoshi() {
    assert_eq!(fee_for_weight(443, 1), 111);
    assert_eq!(fee_for_weight(444, 1), 111);
    assert_eq!(fee_for_weight(445, 1), 112);
    assert_eq!(fee_for_weight(0, 7), 0);
    assert_eq!(fee_for_weight(443, 0), 0);
}

#[test]
fn fee_is_capped_at_the_largest_amount() {
    assert_eq!(fee_for_weight(u128::MAX, u64::MAX), u64::MAX);
    assert_eq!(fee_for_weight(8, u64::MAX), u64::MAX);
    assert_eq!(fee_for_weight(4, u64::MAX), u64::MAX);
    assert_eq!(fee_for_weight(2, u64::MAX), u64::MAX / 2 + 1);
    assert_eq!(calculate_fee_simple(usize::MAX, usize::MAX, u64::MAX), u64::MAX);
}

#[test]
fn simple_fee_exact_values() {
    assert_eq!(calculate_fee_simple(1, 1, 1), 111);
    assert_eq!(calculate_fee_simple(0, 0, 5), 50);
    assert_eq!(calculate_fee_simple(2, 3, 10), 2540);
    assert_eq!(calculate_fee_simple(1, 1, 0), 0);
}

#[test]
fn simple_fee_counts_the_longer_input_count() {
    // 252 inputs: 40 + 2 + 252 * 229 quarters; 253 inputs take two bytes more for the count.
    assert_eq!(calculate_fee_simple(252, 0, 4), 40 + 2 + 252 * 229);
    assert_eq!(calculate_fee_simple(253, 0, 4), 48 + 2 + 253 * 229);
}

#[test]
fn opreturn_fee_exact_values() {
    assert_eq!(calculate_fee_with_opreturn(1, 2, 20, 1), 183);
    assert_eq!(calculate_fee_with_opreturn(1, 2, 20, 4), 731);
    assert_eq!(calculate_fee_with_opreturn(0, 0, 0, 4), 40 + 4 * 9);
    // a payload of 253 bytes takes three bytes for its length
    assert_eq!(calculate_fee_with_opreturn(0, 0, 253, 4), 40 + 4 * (8 + 3 + 253));
}

#[test]
fn opreturn_fee_counts_the_carrier_among_the_outputs() {
    // 252 regular outputs and the carrier make 253 outputs
    assert_eq!(
        calculate_fee_with_opreturn(0, 252, 0, 4),
        4 * (4 + 1 + 3 + 4) + 252 * 172 + 4 * 9
    );
}

#[test]
fn the_two_opreturn_models_agree() {
    for (n, m, p, r) in [(0usize, 0usize, 0usize, 0u64), (1, 2, 20, 1), (3, 1, 300, 17), (300, 2, 70000, 2)] {
        assert_eq!(
            calculate_fee_p2tr_with_opreturn(n, m, p, r),
            calculate_fee_with_opreturn(n, m, p, r)
        );
    }
}

#[test]
fn fee_grows_with_each_input() {
    for rate in [1u64, 2, 50] {
        let mut last = calculate_fee_simple(0, 2, rate);
        let mut last_op = calculate_fee_with_opreturn(0, 2, 40, rate);
        for n in 1..300usize {
            let fee = calculate_fee_simple(n, 2, rate);
            let fee_op = calculate_fee_with_opreturn(n, 2, 40, rate);
            assert!(fee > last);
            assert!(fee_op > last_op);
            last = fee;
            last_op = fee_op;
        }
    }
}

#[test]
fn fee_grows_with_the_payload() {
    for rate in [1u64, 3] {
        let mut last = calculate_fee_with_opreturn(2, 2, 0, rate);
        for len in 1..600usize {
            let fee = calculate_fee_with_opreturn(2, 2, len, rate);
            assert!(fee > last);
            last = fee;
        }
    }
}

#[test]
fn fee_does_not_grow_at_rate_zero() {
    assert_eq!(calculate_fee_simple(1, 1, 0), calculate_fee_simple(2, 1, 0));
}

fn sample_utxos() -> Vec<Utxo> {
    vec![
        Utxo { amount: 10000, address: addr("bc1qsender") },
        Utxo { amount: 5000, address: addr("1sender") },
    ]
}

fn sample_outputs() -> Vec<Output> {
    vec![
        Output { amount: 3000, script: None, address: addr("bc1preceiver") },
        Output { amount: 0, script: Some(Script { hex: "6a5d0a".to_string() }), address: None },
    ]
}

#[test]
fn fee_and_change_exact_values() {
    let found = calculate_fee_and_change(sample_utxos(), sample_outputs(), 2);
    assert_eq!(found.estimated_size, 281);
    assert_eq!(found.fee, 562);
    assert_eq!(found.total_input, 15000);
    assert_eq!(found.total_output, 3000);
    assert_eq!(found.change_amount, 11438);
    assert!(found.include_change);
}

#[test]
fn fee_and_change_without_witness_has_no_marker() {
    let utxos = vec![Utxo { amount: 1000, address: addr("1sender") }];
    let outputs = vec![Output { amount: 100, script: None, address: addr("3receiver") }];
    let found = calculate_fee_and_change(utxos, outputs, 1);
    // 40 + 592 + 4 * 32 quarters
    assert_eq!(found.estimated_size, 190);
    assert_eq!(found.fee, 190);
    assert_eq!(found.change_amount, 710);
}

#[test]
fn fee_and_change_leaves_out_empty_scripts() {
    let utxos = vec![Utxo { amount: 1000, address: None }];
    let outputs = vec![Output { amount: 0, script: Some(Script { hex: String::new() }), address: None }];
    let found = calculate_fee_and_change(utxos, outputs, 4);
    assert_eq!(found.fee, 40 + 2 + 229);
}

#[test]
fn fee_and_change_rounds_an_odd_script_length_up() {
    let utxos = vec![Utxo { amount: 1000, address: None }];
    let outputs = vec![Output { amount: 0, script: Some(Script { hex: "6a5".to_string() }), address: None }];
    let found = calculate_fee_and_change(utxos, outputs, 4);
    assert_eq!(found.fee, 40 + 2 + 229 + 4 * (8 + 1 + 2));
}

#[test]
fn change_below_dust_is_not_paid() {
    let utxos = vec![Utxo { amount: 68 + 100 + DUST_THRESHOLD - 1, address: None }];
    let outputs = vec![Output { amount: 100, script: None, address: None }];
    // 42 + 229 quarters: 68 bytes
    let found = calculate_fee_and_change(utxos, outputs, 1);
    assert_eq!(found.fee, 111);
    assert!(!found.include_change);
    assert_eq!(found.change_amount, 0);
}

#[test]
fn change_at_dust_is_paid() {
    let utxos = vec![Utxo { amount: 111 + 100 + DUST_THRESHOLD, address: None }];
    let outputs = vec![Output { amount: 100, script: None, address: None }];
    let found = calculate_fee_and_change(utxos, outputs, 1);
    assert!(found.include_change);
    assert_eq!(found.change_amount, DUST_THRESHOLD);
}

#[test]
fn estimate_is_refused_where_inputs_do_not_pay() {
    let utxos = vec![Utxo { amount: 210, address: None }];
    let outputs = vec![Output { amount: 100, script: None, address: None }];
    assert_eq!(try_calculate_fee_and_change(&utxos, &outputs, 1), None);
    let enough = vec![Utxo { amount: 211, address: None }];
    let found = try_calculate_fee_and_change(&enough, &outputs, 1).unwrap();
    assert_eq!(found.fee, 111);
    assert_eq!(found.change_amount, 0);
}

#[test]
fn estimate_is_refused_where_a_total_overflows() {
    let utxos = vec![
        Utxo { amount: u64::MAX, address: None },
        Utxo { amount: 1, address: None },
    ];
    let outputs = vec![Output { amount: 100, script: None, address: None }];
    assert_eq!(try_calculate_fee_and_change(&utxos, &outputs, 1), None);
}
