use rollup_verifier::baseline::{derive_baseline, Baseline};
use rollup_verifier::ledger::{State, Transaction};
use rollup_verifier::replay::replay_transactions;

fn holdings(entries: &[(u64, u64)]) -> State {
    let mut state = State::new();
    for (account, held) in entries {
        state.balances.insert(*account, *held);
    }
    state
}

fn pay(from: u64, to: u64, amount: u64) -> Transaction {
    Transaction { from, to, amount }
}

fn listed(state: &State) -> Vec<(u64, u64)> {
    let mut entries: Vec<(u64, u64)> = state.balances.iter().map(|(a, h)| (*a, *h)).collect();
    entries.sort();
    entries
}

#[test]
fn undo_tx_gives_the_amount_back() {
    let mut state = holdings(&[(1, 60), (2, 90)]);
    state.undo_tx(&pay(1, 2, 40));
    assert_eq!(listed(&state), vec![(1, 100), (2, 50)]);
}

#[test]
fn undo_tx_stops_the_receiver_at_zero() {
    let mut state = holdings(&[(1, 60), (2, 10)]);
    state.undo_tx(&pay(1, 2, 40));
    assert_eq!(listed(&state), vec![(1, 100), (2, 0)]);
}

#[test]
fn undo_tx_gives_an_absent_receiver_no_entry() {
    let mut state = holdings(&[(1, 60)]);
    state.undo_tx(&pay(1, 2, 40));
    assert_eq!(listed(&state), vec![(1, 100)]);
}

#[test]
fn undo_tx_gives_an_absent_sender_an_entry() {
    let mut state = holdings(&[(2, 90)]);
    state.undo_tx(&pay(1, 2, 40));
    assert_eq!(listed(&state), vec![(1, 40), (2, 50)]);
}

#[test]
fn undo_tx_to_self() {
    let mut state = holdings(&[(1, 100)]);
    state.undo_tx(&pay(1, 1, 30));
    assert_eq!(listed(&state), vec![(1, 100)]);

    let mut short = holdings(&[(1, 10)]);
    short.undo_tx(&pay(1, 1, 30));
    assert_eq!(listed(&short), vec![(1, 30)]);

    let mut absent = State::new();
    absent.undo_tx(&pay(1, 1, 30));
    assert_eq!(listed(&absent), vec![(1, 30)]);
}

#[test]
fn try_undo_tx_refuses_a_refund_that_does_not_fit() {
    let mut state = holdings(&[(1, u64::MAX), (2, 9)]);
    assert!(!state.try_undo_tx(&pay(1, 2, 1)));
    assert_eq!(listed(&state), vec![(1, u64::MAX), (2, 9)]);
    assert!(state.try_undo_tx(&pay(2, 1, 1)));
    assert_eq!(listed(&state), vec![(1, u64::MAX - 1), (2, 10)]);
}

#[test]
fn try_undo_tx_to_self_at_the_largest_balance() {
    let mut state = holdings(&[(1, u64::MAX)]);
    assert!(state.try_undo_tx(&pay(1, 1, 5)));
    assert_eq!(listed(&state), vec![(1, u64::MAX)]);

    let mut absent = holdings(&[(2, 1)]);
    assert!(absent.try_undo_tx(&pay(1, 1, u64::MAX)));
    assert_eq!(listed(&absent), vec![(1, u64::MAX), (2, 1)]);
}

#[test]
fn derive_baseline_of_one_transfer() {
    let post = holdings(&[(1, 60), (2, 90)]);
    let baseline = derive_baseline(&post, &vec![pay(1, 2, 40)]);
    assert_eq!(listed(&baseline), vec![(1, 100), (2, 50)]);
    assert_eq!(listed(&post), vec![(1, 60), (2, 90)]);
}

#[test]
fn derive_baseline_without_transfers_is_the_claim() {
    let post = holdings(&[(1, 60), (2, 90)]);
    let baseline = derive_baseline(&post, &Vec::new());
    assert_eq!(listed(&baseline), vec![(1, 60), (2, 90)]);
}

#[test]
fn derive_baseline_takes_the_last_transfer_back_first() {
    let post = holdings(&[(1, 0), (2, 0)]);
    let baseline = derive_baseline(&post, &vec![pay(1, 2, 10), pay(2, 1, 100)]);
    assert_eq!(listed(&baseline), vec![(1, 10), (2, 90)]);
}

#[test]
fn baseline_of_a_consistent_block_replays_to_its_claim() {
    let start = holdings(&[(1, 100), (2, 50)]);
    let txs = vec![pay(1, 2, 40), pay(2, 3, 70), pay(3, 1, 5), pay(3, 3, 65), pay(1, 4, 0)];
    let mut post = start.clone();
    for tx in &txs {
        assert!(post.apply_tx(tx));
    }
    assert_eq!(listed(&post), vec![(1, 65), (2, 20), (3, 65), (4, 0)]);

    let baseline = derive_baseline(&post, &txs);
    assert_eq!(listed(&baseline), vec![(1, 100), (2, 50), (3, 0), (4, 0)]);

    let mut again = baseline.clone();
    replay_transactions(&mut again, &txs);
    assert!(again.same_balances(&post));
}

#[test]
fn baseline_of_an_inconsistent_block_is_silently_wrong() {
    let start = holdings(&[(1, 100), (2, 50)]);
    let txs = vec![pay(1, 2, 1000)];
    let mut post = start.clone();
    assert!(!post.apply_tx(&txs[0]));

    let baseline = derive_baseline(&post, &txs);
    assert_eq!(listed(&baseline), vec![(1, 1100), (2, 0)]);

    let mut again = baseline.clone();
    replay_transactions(&mut again, &txs);
    assert_eq!(listed(&again), vec![(1, 100), (2, 1000)]);
    assert!(!again.same_balances(&post));
}

#[test]
fn checked_baseline_is_the_derived_baseline_where_it_fits() {
    let post = holdings(&[(1, 60), (2, 90)]);
    let txs = vec![pay(1, 2, 40)];
    let baseline = Baseline::try_derive(&post, &txs).expect("the supply is 150");
    assert_eq!(listed(&baseline.ledger()), vec![(1, 100), (2, 50)]);
    let same = Baseline::derive(&post, &txs);
    assert!(same.ledger().same_balances(&baseline.ledger()));
}

#[test]
fn checked_baseline_refuses_a_refund_that_does_not_fit() {
    let post = holdings(&[(1, u64::MAX), (2, 0)]);
    assert!(Baseline::try_derive(&post, &vec![pay(1, 2, 5)]).is_none());
}

#[test]
fn checked_baseline_refuses_a_supply_that_does_not_fit() {
    let post = holdings(&[(1, u64::MAX), (3, 1)]);
    assert!(Baseline::try_derive(&post, &Vec::new()).is_none());
    let grown = holdings(&[(1, u64::MAX - 5), (2, 0)]);
    assert!(Baseline::try_derive(&grown, &vec![pay(3, 2, 6)]).is_none());
    let fits = Baseline::try_derive(&grown, &vec![pay(3, 2, 5)]).expect("the supply fits");
    assert_eq!(
        listed(&fits.ledger()),
        vec![(1, u64::MAX - 5), (2, 0), (3, 5)]
    );
}
