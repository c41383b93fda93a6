//! The total supply of a ledger: the sum of all its balances.
//!
//! A ledger is modelled as a finite `Map<u64, nat>` from account to balance.
//! The sum is defined by taking the accounts out one at a time; the lemmas
//! below show that the order in which they are taken does not matter, and say
//! how the sum moves when one entry is written.

use vstd::prelude::*;

verus! {

/// The balance of `account`: its entry, or zero where it has none.
pub open spec fn balance(ledger: Map<u64, nat>, account: u64) -> nat {
    if ledger.contains_key(account) {
        ledger[account]
    } else {
        0
    }
}

/// The sum of all balances of a finite ledger.
pub open spec fn supply(ledger: Map<u64, nat>) -> nat
    decreases ledger.dom().len(),
    when ledger.dom().finite()
{
    if ledger.dom().len() == 0 {
        0
    } else {
        let account = ledger.dom().choose();
        ledger[account] + supply(ledger.remove(account))
    }
}

/// The empty ledger holds nothing.
pub proof fn lemma_supply_empty()
    ensures
        supply(Map::<u64, nat>::empty()) == 0,
{
}

/// Any one account can be taken out first: the supply is its balance plus
/// the supply of the rest.
pub proof fn lemma_supply_remove(ledger: Map<u64, nat>, account: u64)
    requires
        ledger.dom().finite(),
        ledger.contains_key(account),
    ensures
        supply(ledger) == ledger[account] + supply(ledger.remove(account)),
    decreases ledger.dom().len(),
{
    let first = ledger.dom().choose();
    if first != account {
        lemma_supply_remove(ledger.remove(first), account);
        lemma_supply_remove(ledger.remove(account), first);
        assert(ledger.remove(first).remove(account) =~= ledger.remove(account).remove(first));
    }
}

/// Writing one entry changes the supply by the difference between the new
/// balance and the old one.
pub proof fn lemma_supply_insert(ledger: Map<u64, nat>, account: u64, amount: nat)
    requires
        ledger.dom().finite(),
    ensures
        supply(ledger.insert(account, amount)) + balance(ledger, account) == supply(ledger)
            + amount,
{
    let written = ledger.insert(account, amount);
    lemma_supply_remove(written, account);
    assert(written.remove(account) =~= ledger.remove(account));
    if ledger.contains_key(account) {
        lemma_supply_remove(ledger, account);
    } else {
        assert(ledger.remove(account) =~= ledger);
    }
}

/// No account holds more than the whole supply.
pub proof fn lemma_balance_within_supply(ledger: Map<u64, nat>, account: u64)
    requires
        ledger.dom().finite(),
    ensures
        balance(ledger, account) <= supply(ledger),
{
    if ledger.contains_key(account) {
        lemma_supply_remove(ledger, account);
    }
}

/// What the listed accounts hold together, each counted as often as it is
/// listed.
pub open spec fn held_by(ledger: Map<u64, nat>, accounts: Seq<u64>) -> nat
    decreases accounts.len(),
{
    if accounts.len() == 0 {
        0
    } else {
        held_by(ledger, accounts.drop_last()) + balance(ledger, accounts.last())
    }
}

/// What listed accounts hold depends on their balances alone.
pub proof fn lemma_held_by_reads_listed(
    ours: Map<u64, nat>,
    theirs: Map<u64, nat>,
    accounts: Seq<u64>,
)
    requires
        forall|i: int|
            0 <= i < accounts.len() ==> balance(ours, #[trigger] accounts[i]) == balance(
                theirs,
                accounts[i],
            ),
    ensures
        held_by(ours, accounts) == held_by(theirs, accounts),
    decreases accounts.len(),
{
    if accounts.len() > 0 {
        let rest = accounts.drop_last();
        assert forall|i: int| 0 <= i < rest.len() implies balance(ours, #[trigger] rest[i])
            == balance(theirs, rest[i]) by {
            assert(rest[i] == accounts[i]);
        }
        lemma_held_by_reads_listed(ours, theirs, rest);
        assert(accounts.last() == accounts[accounts.len() - 1]);
    }
}

/// The first accounts of a list hold no more than the whole list.
pub proof fn lemma_held_by_prefix(ledger: Map<u64, nat>, accounts: Seq<u64>, i: int)
    requires
        0 <= i <= accounts.len(),
    ensures
        held_by(ledger, accounts.take(i)) <= held_by(ledger, accounts),
    decreases accounts.len() - i,
{
    if i == accounts.len() {
        assert(accounts.take(i) =~= accounts);
    } else {
        lemma_held_by_prefix(ledger, accounts, i + 1);
        assert(accounts.take(i + 1).drop_last() =~= accounts.take(i));
    }
}

/// A list that names every account of the ledger once holds the whole
/// supply.
pub proof fn lemma_held_by_all(ledger: Map<u64, nat>, accounts: Seq<u64>)
    requires
        ledger.dom().finite(),
        accounts.no_duplicates(),
        accounts.to_set() == ledger.dom(),
    ensures
        held_by(ledger, accounts) == supply(ledger),
    decreases accounts.len(),
{
    if accounts.len() == 0 {
        assert(ledger.dom() =~= Set::empty());
    } else {
        let last = accounts.last();
        let rest = accounts.drop_last();
        let others = ledger.remove(last);
        assert(accounts.to_set().contains(last));
        assert(rest.to_set() =~= others.dom()) by {
            assert forall|account: u64| rest.to_set().contains(account) == others.dom().contains(
                account,
            ) by {
                if rest.to_set().contains(account) {
                    let i = choose|i: int| 0 <= i < rest.len() && rest[i] == account;
                    assert(accounts[i] == account);
                    assert(accounts.to_set().contains(account));
                }
                if others.dom().contains(account) {
                    assert(accounts.to_set().contains(account));
                    let i = choose|i: int| 0 <= i < accounts.len() && accounts[i] == account;
                    assert(rest[i] == account);
                }
            }
        }
        assert forall|i: int| 0 <= i < rest.len() implies balance(ledger, #[trigger] rest[i])
            == balance(others, rest[i]) by {
            assert(rest[i] == accounts[i]);
        }
        lemma_held_by_reads_listed(ledger, others, rest);
        lemma_held_by_all(others, rest);
        lemma_supply_remove(ledger, last);
    }
}

} // verus!
