//! Serial schedules: running a queue's transactions one at a time in a given
//! order, and why the order does not change the final balances.
use vstd::prelude::*;
use vstd::set_lib::{lemma_int_range, lemma_subset_equality, set_int_range};
use crate::executor::apply_transaction;
use crate::ledger::AccountsView;
use crate::transaction::{TransactionView, effect};

verus! {

/// The ledger after running `txs[order[0]]`, `txs[order[1]]`, ... one after
/// the other.
pub open spec fn apply_all(accts: AccountsView, txs: Seq<TransactionView>, order: Seq<int>) -> AccountsView
    decreases order.len(),
{
    if order.len() == 0 {
        accts
    } else {
        apply_transaction(apply_all(accts, txs, order.drop_last()), txs[order.last()])
    }
}

/// `order` names transactions of a queue of `n`, each at most once.
pub open spec fn is_schedule(order: Seq<int>, n: int) -> bool {
    &&& order.no_duplicates()
    &&& forall|k: int| 0 <= k < order.len() ==> 0 <= #[trigger] order[k] < n
}

/// The queue order: `0, 1, ..., n - 1`.
pub open spec fn queue_order(n: nat) -> Seq<int> {
    Seq::new(n, |k: int| k)
}

/// The summed effect on the account called `name` of the transactions among
/// the first `n` of `txs` whose index is in `chosen`.
pub open spec fn net_effect(txs: Seq<TransactionView>, chosen: Set<int>, name: Seq<char>, n: nat) -> int
    decreases n,
{
    if n == 0 {
        0
    } else {
        net_effect(txs, chosen, name, (n - 1) as nat) + if chosen.contains(n - 1) {
            effect(txs[n - 1], name)
        } else {
            0
        }
    }
}

/// Each account's balance plus the net effect on it of the chosen
/// transactions of `txs`.
pub open spec fn settled(accts: AccountsView, txs: Seq<TransactionView>, chosen: Set<int>) -> AccountsView {
    Seq::new(
        accts.len(),
        |j: int| (accts[j].0, accts[j].1 + net_effect(txs, chosen, accts[j].0, txs.len())),
    )
}

/// One transaction adds its effect to each account's balance.
pub proof fn lemma_apply_effect(accts: AccountsView, tx: TransactionView)
    ensures
        apply_transaction(accts, tx) == Seq::new(
            accts.len(),
            |j: int| (accts[j].0, accts[j].1 + effect(tx, accts[j].0)),
        ),
{
    assert(apply_transaction(accts, tx) =~= Seq::new(
        accts.len(),
        |j: int| (accts[j].0, accts[j].1 + effect(tx, accts[j].0)),
    ));
}

/// Choosing one more transaction adds its effect, if it is among the first `n`.
proof fn lemma_net_insert(txs: Seq<TransactionView>, chosen: Set<int>, name: Seq<char>, n: nat, x: int)
    requires
        0 <= x,
        !chosen.contains(x),
    ensures
        net_effect(txs, chosen.insert(x), name, n) == net_effect(txs, chosen, name, n) + if x < n {
            effect(txs[x], name)
        } else {
            0
        },
    decreases n,
{
    if n > 0 {
        lemma_net_insert(txs, chosen, name, (n - 1) as nat, x);
    }
}

/// Running a schedule leaves each balance at its start plus the net effect of
/// the scheduled transactions: only the set of transactions run matters.
pub proof fn lemma_apply_all_settled(accts: AccountsView, txs: Seq<TransactionView>, order: Seq<int>)
    requires
        is_schedule(order, txs.len() as int),
    ensures
        apply_all(accts, txs, order) == settled(accts, txs, order.to_set()),
    decreases order.len(),
{
    if order.len() == 0 {
        assert(order.to_set() =~= Set::<int>::empty());
        assert forall|name: Seq<char>, n: nat| net_effect(txs, order.to_set(), name, n) == 0 by {
            lemma_net_empty(txs, order.to_set(), name, n);
        }
        assert(apply_all(accts, txs, order) =~= settled(accts, txs, order.to_set()));
    } else {
        let prefix = order.drop_last();
        let x = order.last();
        assert(is_schedule(prefix, txs.len() as int)) by {
            assert forall|k: int| 0 <= k < prefix.len() implies 0 <= #[trigger] prefix[k] < txs.len() by {
                assert(prefix[k] == order[k]);
            }
            assert forall|a: int, b: int| 0 <= a < prefix.len() && 0 <= b < prefix.len() && a != b implies prefix[a] != prefix[b] by {
                assert(prefix[a] == order[a]);
                assert(prefix[b] == order[b]);
            }
        }
        lemma_apply_all_settled(accts, txs, prefix);
        assert(!prefix.to_set().contains(x)) by {
            if prefix.to_set().contains(x) {
                let k = choose|k: int| 0 <= k < prefix.len() && prefix[k] == x;
                assert(order[k] == order[order.len() - 1]);
            }
        }
        assert(prefix.to_set().insert(x) =~= order.to_set()) by {
            assert(order =~= prefix.push(x));
            assert forall|y: int| order.to_set().contains(y) implies prefix.to_set().insert(x).contains(y) by {
                let k = choose|k: int| 0 <= k < order.len() && order[k] == y;
                if k < prefix.len() {
                    assert(prefix[k] == y);
                }
            }
            assert forall|y: int| prefix.to_set().insert(x).contains(y) implies order.to_set().contains(y) by {
                if y == x {
                    assert(order[order.len() - 1] == y);
                } else {
                    let k = choose|k: int| 0 <= k < prefix.len() && prefix[k] == y;
                    assert(order[k] == y);
                }
            }
        }
        let before = apply_all(accts, txs, prefix);
        lemma_apply_effect(before, txs[x]);
        assert forall|name: Seq<char>| net_effect(txs, order.to_set(), name, txs.len()) == net_effect(txs, prefix.to_set(), name, txs.len()) + effect(txs[x], name) by {
            lemma_net_insert(txs, prefix.to_set(), name, txs.len(), x);
        }
        assert(apply_all(accts, txs, order) =~= settled(accts, txs, order.to_set()));
    }
}

proof fn lemma_net_empty(txs: Seq<TransactionView>, chosen: Set<int>, name: Seq<char>, n: nat)
    requires
        chosen == Set::<int>::empty(),
    ensures
        net_effect(txs, chosen, name, n) == 0,
    decreases n,
{
    if n > 0 {
        lemma_net_empty(txs, chosen, name, (n - 1) as nat);
    }
}

/// A schedule of length `n` over a queue of `n` runs every transaction.
pub proof fn lemma_full_schedule(order: Seq<int>, n: nat)
    requires
        is_schedule(order, n as int),
        order.len() == n,
    ensures
        order.to_set() == set_int_range(0, n as int),
        forall|i: int| 0 <= i < n ==> order.contains(i),
{
    order.unique_seq_to_set();
    lemma_int_range(0, n as int);
    assert(order.to_set().subset_of(set_int_range(0, n as int))) by {
        assert forall|y: int| order.to_set().contains(y) implies set_int_range(0, n as int).contains(y) by {
            let k = choose|k: int| 0 <= k < order.len() && order[k] == y;
        }
    }
    lemma_subset_equality(order.to_set(), set_int_range(0, n as int));
    assert forall|i: int| 0 <= i < n implies order.contains(i) by {
        assert(set_int_range(0, n as int).contains(i));
        assert(order.to_set().contains(i));
    }
}

/// A schedule that runs every transaction of the queue has length `n`.
pub proof fn lemma_covering_schedule(order: Seq<int>, n: nat)
    requires
        is_schedule(order, n as int),
        forall|i: int| 0 <= i < n ==> order.contains(i),
    ensures
        order.len() == n,
        order.to_set() == set_int_range(0, n as int),
{
    order.unique_seq_to_set();
    lemma_int_range(0, n as int);
    assert(order.to_set() =~= set_int_range(0, n as int)) by {
        assert forall|y: int| order.to_set().contains(y) implies set_int_range(0, n as int).contains(y) by {
            let k = choose|k: int| 0 <= k < order.len() && order[k] == y;
        }
        assert forall|y: int| set_int_range(0, n as int).contains(y) implies order.to_set().contains(y) by {
            assert(order.contains(y));
        }
    }
}

/// Running the same set of transactions, each once, in any two orders from
/// the same starting ledger ends in the same ledger.
pub proof fn lemma_order_independent(
    accts: AccountsView,
    txs: Seq<TransactionView>,
    first: Seq<int>,
    second: Seq<int>,
)
    requires
        is_schedule(first, txs.len() as int),
        is_schedule(second, txs.len() as int),
        first.to_set() == second.to_set(),
    ensures
        apply_all(accts, txs, first) == apply_all(accts, txs, second),
{
    lemma_apply_all_settled(accts, txs, first);
    lemma_apply_all_settled(accts, txs, second);
}

/// Any two runs of a whole queue from freshly initialised accounts, each
/// transaction once and in whatever order, end with the same balances, and
/// those of running the queue in its own order.
pub proof fn lemma_complete_runs_agree(
    accts: AccountsView,
    txs: Seq<TransactionView>,
    first: Seq<int>,
    second: Seq<int>,
)
    requires
        is_schedule(first, txs.len() as int),
        first.len() == txs.len(),
        is_schedule(second, txs.len() as int),
        second.len() == txs.len(),
    ensures
        apply_all(accts, txs, first) == apply_all(accts, txs, second),
        apply_all(accts, txs, first) == apply_all(accts, txs, queue_order(txs.len())),
{
    let n = txs.len();
    let q = queue_order(n);
    assert(is_schedule(q, n as int));
    lemma_full_schedule(first, n);
    lemma_full_schedule(second, n);
    lemma_full_schedule(q, n);
    lemma_order_independent(accts, txs, first, second);
    lemma_order_independent(accts, txs, first, q);
}

} // verus!
