//! The scraper's decisions: sorting a batch of fetch outcomes into the
//! ids to reschedule and the ids to record as deactivated. The fetching
//! itself, an outside concern, hands in one outcome per attempted id.

use vstd::prelude::*;

verus! {

/// What one fetch attempt produced: a fresh profile, a terminal status
/// with its upstream code, or nothing usable this tick.
#[derive(Clone, Copy, Debug, PartialEq, Eq)]
pub enum FetchOutcome {
    Updated,
    Terminal(u64),
    Skipped,
}

/// Ids whose outcome matches `Updated`, in order.
pub open spec fn updated_ids(results: Seq<(u64, FetchOutcome)>) -> Seq<u64>
    decreases results.len(),
{
    if results.len() == 0 {
        Seq::empty()
    } else {
        let rest = updated_ids(results.skip(1));
        if results[0].1 is Updated {
            seq![results[0].0] + rest
        } else {
            rest
        }
    }
}

/// Ids whose outcome is terminal, in order.
pub open spec fn terminal_ids(results: Seq<(u64, FetchOutcome)>) -> Seq<u64>
    decreases results.len(),
{
    if results.len() == 0 {
        Seq::empty()
    } else {
        let rest = terminal_ids(results.skip(1));
        if results[0].1 is Terminal {
            seq![results[0].0] + rest
        } else {
            rest
        }
    }
}

/// Splits a batch of fetch outcomes into the ids to reschedule and the
/// ids to record as deactivated; skipped ids fall out of the tick.
pub fn classify_batch(results: &Vec<(u64, FetchOutcome)>) -> (r: (Vec<u64>, Vec<u64>))
    ensures
        r.0@ == updated_ids(results@),
        r.1@ == terminal_ids(results@),
{
    let mut updated: Vec<u64> = Vec::new();
    let mut deactivated: Vec<u64> = Vec::new();
    let mut i: usize = results.len();
    proof {
        assert(results@.skip(i as int) =~= Seq::<(u64, FetchOutcome)>::empty());
    }
    while i > 0
        invariant
            0 <= i <= results@.len(),
            updated@ == updated_ids(results@.skip(i as int)),
            deactivated@ == terminal_ids(results@.skip(i as int)),
        decreases i,
    {
        i = i - 1;
        match results[i].1 {
            FetchOutcome::Updated => {
                updated.insert(0, results[i].0);
            },
            FetchOutcome::Terminal(_) => {
                deactivated.insert(0, results[i].0);
            },
            FetchOutcome::Skipped => {},
        }
        proof {
            assert(results@.skip(i as int)[0] == results@[i as int]);
            assert(results@.skip(i as int).skip(1) =~= results@.skip(i + 1));
            assert(updated@ =~= updated_ids(results@.skip(i as int)));
            assert(deactivated@ =~= terminal_ids(results@.skip(i as int)));
        }
    }
    proof {
        assert(results@.skip(0) =~= results@);
    }
    (updated, deactivated)
}

} // verus!
