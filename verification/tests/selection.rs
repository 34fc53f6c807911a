use alkanes_transfer::protostone::{Edict, RuneId};
use alkanes_transfer::selection::{
    available_amount, change_edicts, order_by_amount, select_coins, select_for_asset, Candidate,
    Requirement, SelectionError,
};

const X: RuneId = RuneId { block: 840000, tx: 3 };
const Y: RuneId = RuneId { block: 2, tx: 1 };

fn cand(asset: RuneId, amount: u64) -> Candidate {
    Candidate { asset, amount }
}

fn pool() -> Vec<Candidate> {
    vec![cand(X, 300), cand(X, 500), cand(Y, 50), cand(X, 500), cand(X, 100)]
}

#[test]
fn available_is_the_sum_of_one_asset() {
    assert_eq!(available_amount(&pool(), X), 1400);
    assert_eq!(available_amount(&pool(), Y), 50);
    assert_eq!(available_amount(&pool(), RuneId { block: 1, tx: 1 }), 0);
    assert_eq!(available_amount(&[], X), 0);
}

#[test]
fn available_does_not_overflow() {
    let many = vec![cand(X, u64::MAX), cand(X, u64::MAX), cand(X, 2)];
    assert_eq!(available_amount(&many, X), 2 * (u64::MAX as u128) + 2);
}

#[test]
fn selection_takes_the_largest_first() {
    let sel = select_for_asset(&pool(), Requirement { asset: X, amount: 900 }).unwrap();
    assert_eq!(sel.chosen, vec![1, 3]);
    assert_eq!(sel.selected, 1000);
    assert_eq!(sel.required, 900);
    assert_eq!(sel.asset, X);
}

#[test]
fn selection_stops_as_soon_as_covered() {
    let sel = select_for_asset(&pool(), Requirement { asset: X, amount: 500 }).unwrap();
    assert_eq!(sel.chosen, vec![1]);
    assert_eq!(sel.selected, 500);
    let more = select_for_asset(&pool(), Requirement { asset: X, amount: 501 }).unwrap();
    assert_eq!(more.chosen, vec![1, 3]);
}

#[test]
fn selection_is_not_minimal_waste() {
    // 100 alone would do for 90; the largest is taken
    let sel = select_for_asset(&pool(), Requirement { asset: X, amount: 90 }).unwrap();
    assert_eq!(sel.chosen, vec![1]);
    assert_eq!(sel.selected, 500);
}

#[test]
fn selection_of_everything() {
    let sel = select_for_asset(&pool(), Requirement { asset: X, amount: 1400 }).unwrap();
    assert_eq!(sel.chosen, vec![1, 3, 0, 4]);
    assert_eq!(sel.selected, 1400);
}

#[test]
fn selection_for_nothing_takes_nothing() {
    let sel = select_for_asset(&pool(), Requirement { asset: X, amount: 0 }).unwrap();
    assert_eq!(sel.chosen, Vec::<usize>::new());
    assert_eq!(sel.selected, 0);
}

#[test]
fn insufficient_funds_scenario() {
    let cands = vec![cand(X, 400), cand(Y, 5000), cand(X, 300)];
    let r = select_for_asset(&cands, Requirement { asset: X, amount: 1000 });
    assert_eq!(
        r.err(),
        Some(SelectionError::InsufficientAsset { asset: X, required: 1000, available: 700 })
    );
    let all = select_coins(&cands, &vec![Requirement { asset: X, amount: 1000 }]);
    assert_eq!(
        all.err(),
        Some(SelectionError::InsufficientAsset { asset: X, required: 1000, available: 700 })
    );
}

#[test]
fn selection_succeeds_exactly_where_enough_is_available() {
    let cands = vec![cand(X, 400), cand(X, 300)];
    assert!(select_for_asset(&cands, Requirement { asset: X, amount: 700 }).is_ok());
    assert!(select_for_asset(&cands, Requirement { asset: X, amount: 701 }).is_err());
}

#[test]
fn several_assets_are_selected_each_by_itself() {
    let reqs = vec![Requirement { asset: Y, amount: 50 }, Requirement { asset: X, amount: 650 }];
    let sels = select_coins(&pool(), &reqs).unwrap();
    assert_eq!(sels.len(), 2);
    assert_eq!(sels[0].asset, Y);
    assert_eq!(sels[0].chosen, vec![2]);
    assert_eq!(sels[0].selected, 50);
    assert_eq!(sels[1].asset, X);
    assert_eq!(sels[1].chosen, vec![1, 3]);
    assert_eq!(sels[1].selected, 1000);
}

#[test]
fn the_first_shortfall_is_reported_and_nothing_selected() {
    let reqs = vec![
        Requirement { asset: X, amount: 10 },
        Requirement { asset: Y, amount: 51 },
        Requirement { asset: X, amount: 5000 },
    ];
    assert_eq!(
        select_coins(&pool(), &reqs).err(),
        Some(SelectionError::InsufficientAsset { asset: Y, required: 51, available: 50 })
    );
}

#[test]
fn change_is_what_was_selected_beyond_the_requirement() {
    let reqs = vec![Requirement { asset: Y, amount: 50 }, Requirement { asset: X, amount: 650 }];
    let sels = select_coins(&pool(), &reqs).unwrap();
    assert_eq!(
        change_edicts(&sels, 0),
        vec![Edict { id: X, amount: 350, output: 0 }]
    );
    assert_eq!(change_edicts(&sels, 7)[0].output, 7);
}

#[test]
fn no_change_no_edict() {
    let sels = select_coins(&pool(), &vec![Requirement { asset: X, amount: 1000 }]).unwrap();
    assert_eq!(change_edicts(&sels, 0), Vec::<Edict>::new());
}

#[test]
fn order_is_by_amount_then_by_position() {
    assert_eq!(order_by_amount(&pool()), vec![1, 3, 0, 4, 2]);
    assert_eq!(order_by_amount(&[]), Vec::<usize>::new());
}
