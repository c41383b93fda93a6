use rollup_verifier::ledger::{State, Transaction};
use rollup_verifier::replay::replay_transactions;

fn ledger_of(entries: &[(u64, u64)]) -> State {
    let mut state = State::new();
    for (account, held) in entries {
        state.balances.insert(*account, *held);
    }
    state
}

fn transfer(from: u64, to: u64, amount: u64) -> Transaction {
    Transaction { from, to, amount }
}

fn entries_of(state: &State) -> Vec<(u64, u64)> {
    let mut entries: Vec<(u64, u64)> = state.balances.iter().map(|(a, h)| (*a, *h)).collect();
    entries.sort();
    entries
}

#[test]
fn new_state_has_no_entries() {
    let state = State::new();
    assert!(state.balances.is_empty());
    assert_eq!(state.balance_of(7), 0);
    assert_eq!(state.total_supply(), Some(0));
}

#[test]
fn balance_of_reads_entry_or_zero() {
    let state = ledger_of(&[(1, 100), (2, 0)]);
    assert_eq!(state.balance_of(1), 100);
    assert_eq!(state.balance_of(2), 0);
    assert_eq!(state.balance_of(3), 0);
}

#[test]
fn apply_tx_debits_sender_and_credits_receiver() {
    let mut state = ledger_of(&[(1, 100), (2, 50)]);
    assert!(state.apply_tx(&transfer(1, 2, 40)));
    assert_eq!(entries_of(&state), vec![(1, 60), (2, 90)]);
}

#[test]
fn apply_tx_without_funds_changes_nothing() {
    let mut state = ledger_of(&[(1, 100), (2, 50)]);
    assert!(!state.apply_tx(&transfer(1, 2, 1000)));
    assert_eq!(entries_of(&state), vec![(1, 100), (2, 50)]);
    assert!(!state.apply_tx(&transfer(1, 2, 101)));
    assert_eq!(entries_of(&state), vec![(1, 100), (2, 50)]);
}

#[test]
fn apply_tx_of_whole_balance_leaves_zero_entry() {
    let mut state = ledger_of(&[(1, 100), (2, 50)]);
    assert!(state.apply_tx(&transfer(1, 2, 100)));
    assert_eq!(entries_of(&state), vec![(1, 0), (2, 150)]);
}

#[test]
fn apply_tx_creates_receiver_entry() {
    let mut state = ledger_of(&[(1, 100)]);
    assert!(state.apply_tx(&transfer(1, 3, 30)));
    assert_eq!(entries_of(&state), vec![(1, 70), (3, 30)]);
}

#[test]
fn apply_tx_from_absent_sender_is_turned_down() {
    let mut state = State::new();
    assert!(!state.apply_tx(&transfer(5, 6, 1)));
    assert!(state.balances.is_empty());
}

#[test]
fn apply_tx_of_nothing_gives_both_sides_an_entry() {
    let mut state = State::new();
    assert!(state.apply_tx(&transfer(5, 6, 0)));
    assert_eq!(entries_of(&state), vec![(5, 0), (6, 0)]);
}

#[test]
fn apply_tx_to_self_keeps_balance() {
    let mut state = ledger_of(&[(1, 100)]);
    assert!(state.apply_tx(&transfer(1, 1, 30)));
    assert_eq!(entries_of(&state), vec![(1, 100)]);
    assert!(!state.apply_tx(&transfer(1, 1, 101)));
    assert_eq!(entries_of(&state), vec![(1, 100)]);
}

#[test]
fn apply_tx_to_self_at_the_largest_balance() {
    let mut state = ledger_of(&[(1, u64::MAX)]);
    assert!(state.apply_tx(&transfer(1, 1, u64::MAX)));
    assert_eq!(entries_of(&state), vec![(1, u64::MAX)]);
}

#[test]
fn apply_tx_is_repeatable() {
    let start = ledger_of(&[(1, 100), (2, 50)]);
    let tx = transfer(1, 2, 40);
    let mut first = start.clone();
    let mut second = start.clone();
    assert_eq!(first.apply_tx(&tx), second.apply_tx(&tx));
    assert!(first.same_balances(&second));
    assert_eq!(entries_of(&start), vec![(1, 100), (2, 50)]);
}

#[test]
fn supply_is_conserved_by_applied_and_rejected_transfers() {
    let mut state = ledger_of(&[(1, 100), (2, 50), (3, 7)]);
    assert_eq!(state.total_supply(), Some(157));
    let txs = [
        transfer(1, 2, 40),
        transfer(2, 3, 1000),
        transfer(3, 4, 7),
        transfer(4, 4, 2),
        transfer(9, 1, 1),
        transfer(2, 1, 90),
        transfer(1, 5, 0),
    ];
    let applied = [true, false, true, true, false, true, true];
    for (tx, expected) in txs.iter().zip(applied.iter()) {
        assert_eq!(state.apply_tx(tx), *expected);
        assert_eq!(state.total_supply(), Some(157));
    }
    assert_eq!(
        entries_of(&state),
        vec![(1, 150), (2, 0), (3, 0), (4, 7), (5, 0)]
    );
}

#[test]
fn total_supply_up_to_the_largest_balance() {
    assert_eq!(ledger_of(&[(1, u64::MAX)]).total_supply(), Some(u64::MAX));
    assert_eq!(
        ledger_of(&[(1, u64::MAX - 5), (2, 5), (3, 0)]).total_supply(),
        Some(u64::MAX)
    );
}

#[test]
fn total_supply_beyond_the_largest_balance() {
    assert_eq!(ledger_of(&[(1, u64::MAX), (2, 1)]).total_supply(), None);
    assert_eq!(
        ledger_of(&[(1, u64::MAX), (2, u64::MAX), (3, u64::MAX)]).total_supply(),
        None
    );
}

#[test]
fn same_balances_compares_every_entry() {
    let ours = ledger_of(&[(1, 60), (2, 90)]);
    assert!(ours.same_balances(&ledger_of(&[(2, 90), (1, 60)])));
    assert!(!ours.same_balances(&ledger_of(&[(1, 60), (2, 91)])));
    assert!(!ours.same_balances(&ledger_of(&[(1, 60), (3, 90)])));
    assert!(!ours.same_balances(&ledger_of(&[(1, 60)])));
    assert!(!ours.same_balances(&ledger_of(&[(1, 60), (2, 90), (3, 1)])));
    assert!(State::new().same_balances(&State::new()));
}

#[test]
fn same_balances_tells_zero_entry_from_no_entry() {
    let with_zero = ledger_of(&[(1, 60), (2, 0)]);
    let without = ledger_of(&[(1, 60)]);
    assert!(!with_zero.same_balances(&without));
    assert!(!without.same_balances(&with_zero));
    assert!(!State::new().same_balances(&ledger_of(&[(1, 0)])));
}

#[test]
fn clone_is_independent_of_its_source() {
    let source = ledger_of(&[(1, 100), (2, 50)]);
    let mut copy = source.clone();
    assert!(copy.same_balances(&source));
    assert!(copy.apply_tx(&transfer(1, 2, 40)));
    assert_eq!(entries_of(&source), vec![(1, 100), (2, 50)]);
    assert_eq!(entries_of(&copy), vec![(1, 60), (2, 90)]);
}

#[test]
fn try_apply_tx_refuses_a_credit_that_does_not_fit() {
    let mut state = ledger_of(&[(1, 10), (2, u64::MAX - 4)]);
    assert_eq!(state.try_apply_tx(&transfer(1, 2, 5)), None);
    assert_eq!(entries_of(&state), vec![(1, 10), (2, u64::MAX - 4)]);
    assert_eq!(state.try_apply_tx(&transfer(1, 2, 4)), Some(true));
    assert_eq!(entries_of(&state), vec![(1, 6), (2, u64::MAX)]);
}

#[test]
fn try_apply_tx_answers_as_apply_tx_where_the_credit_fits() {
    let mut state = ledger_of(&[(1, 1), (2, u64::MAX)]);
    assert_eq!(state.try_apply_tx(&transfer(1, 2, 5)), Some(false));
    assert_eq!(entries_of(&state), vec![(1, 1), (2, u64::MAX)]);
    assert_eq!(state.try_apply_tx(&transfer(2, 2, 5)), Some(true));
    assert_eq!(entries_of(&state), vec![(1, 1), (2, u64::MAX)]);
    assert_eq!(state.try_apply_tx(&transfer(2, 1, 7)), Some(true));
    assert_eq!(entries_of(&state), vec![(1, 8), (2, u64::MAX - 7)]);
}

#[test]
fn replay_passes_over_transfers_without_funds() {
    let mut state = ledger_of(&[(1, 100), (2, 50)]);
    let txs = vec![transfer(1, 2, 40), transfer(1, 2, 1000), transfer(2, 1, 90)];
    replay_transactions(&mut state, &txs);
    assert_eq!(entries_of(&state), vec![(1, 150), (2, 0)]);
}

#[test]
fn replay_of_nothing_changes_nothing() {
    let mut state = ledger_of(&[(1, 100), (2, 50)]);
    replay_transactions(&mut state, &Vec::new());
    assert_eq!(entries_of(&state), vec![(1, 100), (2, 50)]);
}

#[test]
fn replay_applies_in_order() {
    let mut forward = ledger_of(&[(1, 10)]);
    replay_transactions(&mut forward, &vec![transfer(1, 2, 10), transfer(2, 3, 10)]);
    assert_eq!(entries_of(&forward), vec![(1, 0), (2, 0), (3, 10)]);

    let mut backward = ledger_of(&[(1, 10)]);
    replay_transactions(&mut backward, &vec![transfer(2, 3, 10), transfer(1, 2, 10)]);
    assert_eq!(entries_of(&backward), vec![(1, 0), (2, 10)]);
}
