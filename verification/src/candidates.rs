//! The candidate set: the transactions of a pool that validate, each with
//! its witness bundle, in the order in which the pool holds them.

use vstd::prelude::*;
use crate::block::Candidate;
use crate::bytes::{copy_range, items_view, stacks_view};
use crate::codec::TxError;
use crate::transaction::{transaction_outcome, validate_transaction};

verus! {

/// Whether validation of the raw transaction `tx` yields a bundle.
pub open spec fn is_accepted(tx: Seq<u8>) -> bool {
    transaction_outcome(tx) matches Ok(Some(_))
}

/// Whether validation of the raw transaction `tx` ends in an error.
pub open spec fn is_failed(tx: Seq<u8>) -> bool {
    transaction_outcome(tx) is Err
}

/// The bundle that validation of `tx` yields; empty where it yields none.
pub open spec fn bundle_of(tx: Seq<u8>) -> Seq<Seq<Seq<u8>>> {
    match transaction_outcome(tx) {
        Ok(Some(bundle)) => bundle,
        _ => Seq::empty(),
    }
}

/// The error that validation of `tx` ends in; where it ends in none, the
/// value is of no interest.
pub open spec fn error_of(tx: Seq<u8>) -> TxError {
    match transaction_outcome(tx) {
        Err(e) => e,
        _ => TxError::MalformedEncoding,
    }
}

/// The positions below `n` of the accepted transactions, in rising order.
pub open spec fn accepted_positions(pool: Seq<Seq<u8>>, n: nat) -> Seq<int>
    decreases n,
{
    if n == 0 {
        Seq::empty()
    } else if is_accepted(pool[n - 1]) {
        accepted_positions(pool, (n - 1) as nat).push(n - 1)
    } else {
        accepted_positions(pool, (n - 1) as nat)
    }
}

/// The positions below `n` of the transactions whose validation ends in
/// an error, in rising order.
pub open spec fn failed_positions(pool: Seq<Seq<u8>>, n: nat) -> Seq<int>
    decreases n,
{
    if n == 0 {
        Seq::empty()
    } else if is_failed(pool[n - 1]) {
        failed_positions(pool, (n - 1) as nat).push(n - 1)
    } else {
        failed_positions(pool, (n - 1) as nat)
    }
}

/// The candidate set of the first `n` transactions of `pool`: every
/// accepted transaction with its bundle, in pool order.
pub open spec fn selected(pool: Seq<Seq<u8>>, n: nat) -> Seq<(Seq<u8>, Seq<Seq<Seq<u8>>>)> {
    Seq::new(
        accepted_positions(pool, n).len(),
        |k: int| (pool[accepted_positions(pool, n)[k]], bundle_of(pool[accepted_positions(pool, n)[k]])),
    )
}

/// Position and error of every one of the first `n` transactions of `pool`
/// whose validation ends in an error, in pool order.
pub open spec fn failures(pool: Seq<Seq<u8>>, n: nat) -> Seq<(usize, TxError)> {
    Seq::new(
        failed_positions(pool, n).len(),
        |k: int| (failed_positions(pool, n)[k] as usize, error_of(pool[failed_positions(pool, n)[k]])),
    )
}

/// A list of candidates as sequences.
pub open spec fn candidates_view(candidates: Vec<Candidate>) -> Seq<(Seq<u8>, Seq<Seq<Seq<u8>>>)> {
    Seq::new(candidates@.len(), |k: int| (candidates@[k].0@, stacks_view(candidates@[k].1)))
}

/// The accepted positions are exactly the positions of the accepted
/// transactions, each once and in rising order.
pub proof fn lemma_accepted_positions(pool: Seq<Seq<u8>>, n: nat)
    requires
        n <= pool.len(),
    ensures
        forall|k: int|
            0 <= k < accepted_positions(pool, n).len() ==> 0 <= #[trigger] accepted_positions(
                pool,
                n,
            )[k] < n && is_accepted(pool[accepted_positions(pool, n)[k]]),
        forall|k: int, l: int|
            0 <= k < l < accepted_positions(pool, n).len() ==> #[trigger] accepted_positions(
                pool,
                n,
            )[k] < #[trigger] accepted_positions(pool, n)[l],
        forall|i: int|
            0 <= i < n && is_accepted(#[trigger] pool[i]) ==> accepted_positions(pool, n).contains(
                i,
            ),
    decreases n,
{
    if n > 0 {
        let before = accepted_positions(pool, (n - 1) as nat);
        let now = accepted_positions(pool, n);
        lemma_accepted_positions(pool, (n - 1) as nat);
        assert forall|i: int| 0 <= i < n && is_accepted(#[trigger] pool[i]) implies now.contains(
            i,
        ) by {
            if i < n - 1 {
                let k = choose|k: int| 0 <= k < before.len() && before[k] == i;
                assert(now[k] == i);
            } else {
                assert(now[now.len() - 1] == i);
            }
        }
    }
}

/// Every member of the candidate set has passed validation and carries
/// the bundle that validation gave it; the members stand in pool order; and
/// every transaction of the pool that validates is a member.
pub proof fn lemma_candidate_set(pool: Seq<Seq<u8>>)
    ensures
        forall|k: int|
            0 <= k < selected(pool, pool.len()).len() ==> transaction_outcome(
                (#[trigger] selected(pool, pool.len())[k]).0,
            ) == Ok::<Option<Seq<Seq<Seq<u8>>>>, TxError>(Some(selected(pool, pool.len())[k].1)),
        forall|k: int|
            0 <= k < selected(pool, pool.len()).len() ==> (#[trigger] selected(
                pool,
                pool.len(),
            )[k]).0 == pool[accepted_positions(pool, pool.len())[k]],
        forall|i: int|
            0 <= i < pool.len() && is_accepted(#[trigger] pool[i]) ==> selected(
                pool,
                pool.len(),
            ).contains((pool[i], bundle_of(pool[i]))),
{
    let n = pool.len();
    let positions = accepted_positions(pool, n);
    let set = selected(pool, n);
    lemma_accepted_positions(pool, n);
    assert forall|k: int| 0 <= k < set.len() implies transaction_outcome((#[trigger] set[k]).0)
        == Ok::<Option<Seq<Seq<Seq<u8>>>>, TxError>(Some(set[k].1)) by {
        assert(is_accepted(pool[positions[k]]));
    }
    assert forall|i: int| 0 <= i < n && is_accepted(#[trigger] pool[i]) implies set.contains(
        (pool[i], bundle_of(pool[i])),
    ) by {
        let k = choose|k: int| 0 <= k < positions.len() && positions[k] == i;
        assert(set[k] == (pool[i], bundle_of(pool[i])));
    }
}

/// Validates every transaction of `transactions` and sorts them: the
/// first list holds each transaction that validates, with its witness
/// bundle; the second holds position and error of each transaction whose
/// validation ends in an error. Both keep the order of `transactions`. A
/// transaction that is rejected appears in neither.
pub fn select_candidates(transactions: &Vec<Vec<u8>>) -> (r: (Vec<Candidate>, Vec<(usize, TxError)>))
    ensures
        candidates_view(r.0) == selected(items_view(*transactions), transactions@.len()),
        r.1@ == failures(items_view(*transactions), transactions@.len()),
{
    let ghost pool = items_view(*transactions);
    let mut candidates: Vec<Candidate> = Vec::new();
    let mut failed: Vec<(usize, TxError)> = Vec::new();
    let mut i: usize = 0;
    proof {
        assert(candidates_view(candidates) =~= selected(pool, 0));
        assert(failed@ =~= failures(pool, 0));
    }
    while i < transactions.len()
        invariant
            i <= transactions.len(),
            pool == items_view(*transactions),
            candidates_view(candidates) == selected(pool, i as nat),
            failed@ == failures(pool, i as nat),
        decreases transactions.len() - i,
    {
        let tx = &transactions[i];
        let ghost chosen = candidates_view(candidates);
        let ghost noted = failed@;
        assert(pool[i as int] == tx@);
        match validate_transaction(tx.as_slice()) {
            Ok(Some(bundle)) => {
                let ghost stacks = stacks_view(bundle);
                let copy = copy_range(tx.as_slice(), 0, tx.len());
                assert(copy@ =~= tx@);
                candidates.push((copy, bundle));
                proof {
                    assert(is_accepted(pool[i as int]) && !is_failed(pool[i as int]));
                    assert(bundle_of(pool[i as int]) == stacks);
                    assert(candidates_view(candidates) =~= chosen.push((tx@, stacks)));
                    assert(selected(pool, (i + 1) as nat) =~= chosen.push((tx@, stacks)));
                    assert(failures(pool, (i + 1) as nat) =~= noted);
                }
            },
            Ok(None) => {
                proof {
                    assert(!is_accepted(pool[i as int]) && !is_failed(pool[i as int]));
                    assert(selected(pool, (i + 1) as nat) =~= chosen);
                    assert(failures(pool, (i + 1) as nat) =~= noted);
                }
            },
            Err(e) => {
                failed.push((i, e));
                proof {
                    assert(!is_accepted(pool[i as int]) && is_failed(pool[i as int]));
                    assert(error_of(pool[i as int]) == e);
                    assert(selected(pool, (i + 1) as nat) =~= chosen);
                    assert(failures(pool, (i + 1) as nat) =~= noted.push((i, e)));
                }
            },
        }
        i += 1;
    }
    (candidates, failed)
}

} // verus!
