use vstd::prelude::*;

verus! {

/// The positions of the candidates that passed, in rising order.
pub open spec fn passed(outcomes: Seq<bool>) -> Seq<int>
    decreases outcomes.len(),
{
    if outcomes.len() == 0 {
        Seq::empty()
    } else if outcomes.last() {
        passed(outcomes.drop_last()).push(outcomes.len() - 1)
    } else {
        passed(outcomes.drop_last())
    }
}

/// The positions of the candidates that are admitted: the first `quota` of those that passed.
pub open spec fn admitted(outcomes: Seq<bool>, quota: nat) -> Seq<int> {
    if passed(outcomes).len() <= quota {
        passed(outcomes)
    } else {
        passed(outcomes).take(quota as int)
    }
}

/// The moment at which the probe ends: `timeout` after `now`, or the last moment there is.
pub fn deadline(now: u64, timeout: u64) -> (end: u64)
    ensures
        end == if now + timeout <= u64::MAX {
            now + timeout
        } else {
            u64::MAX as int
        },
{
    now.saturating_add(timeout)
}

/// Whether a candidate goes on competing: more candidates than are wanted are still in the race,
/// and the deadline has not come.
pub fn keeps_probing(competing: usize, quota: usize, now: u64, deadline: u64) -> (go_on: bool)
    ensures
        go_on == (competing > quota && now < deadline),
{
    competing > quota && now < deadline
}

/// Chooses among the candidates of a probe: `outcomes` tells of each, in the order in which they
/// were opened, whether its driver left the probe of its own accord. The first `quota` of those
/// are admitted.
pub fn survivors(outcomes: &Vec<bool>, quota: usize) -> (chosen: Vec<usize>)
    ensures
        chosen@.map_values(|i: usize| i as int) == admitted(outcomes@, quota as nat),
{
    let mut chosen: Vec<usize> = Vec::new();
    let mut i: usize = 0;
    while i < outcomes.len()
        invariant
            i <= outcomes.len(),
            chosen@.map_values(|i: usize| i as int) == admitted(outcomes@.take(i as int), quota as nat),
        decreases outcomes.len() - i,
    {
        proof {
            assert(outcomes@.take(i + 1).drop_last() =~= outcomes@.take(i as int));
            let before = passed(outcomes@.take(i as int));
            if outcomes@[i as int] && before.len() >= quota {
                assert(before.push(i as int).take(quota as int) =~= before.take(quota as int));
            }
        }
        if outcomes[i] && chosen.len() < quota {
            chosen.push(i);
            assert(chosen@.map_values(|i: usize| i as int) =~= admitted(
                outcomes@.take(i as int),
                quota as nat,
            ).push(i as int));
        }
        i += 1;
    }
    assert(outcomes@.take(outcomes@.len() as int) =~= outcomes@);
    chosen
}

/// The candidates that passed are numbered in rising order, and each of them did pass.
pub proof fn lemma_passed(outcomes: Seq<bool>)
    ensures
        passed(outcomes).len() <= outcomes.len(),
        forall|n: int|
            0 <= n < passed(outcomes).len() ==> 0 <= #[trigger] passed(outcomes)[n]
                < outcomes.len() && outcomes[passed(outcomes)[n]],
        forall|m: int, n: int|
            0 <= m < n < passed(outcomes).len() ==> passed(outcomes)[m] < passed(outcomes)[n],
        (forall|i: int| 0 <= i < outcomes.len() ==> outcomes[i]) ==> passed(outcomes).len()
            == outcomes.len(),
    decreases outcomes.len(),
{
    if outcomes.len() > 0 {
        lemma_passed(outcomes.drop_last());
        let front = passed(outcomes.drop_last());
        assert forall|n: int| 0 <= n < front.len() implies outcomes[#[trigger] front[n]] by {
            assert(outcomes.drop_last()[front[n]]);
        }
        if forall|i: int| 0 <= i < outcomes.len() ==> outcomes[i] {
            assert forall|i: int| 0 <= i < outcomes.drop_last().len() implies outcomes.drop_last()[i] by {
                assert(outcomes[i]);
            }
        }
    }
}

/// Where every candidate passes, the probe admits as many as are wanted, or all of them if they
/// are fewer.
pub proof fn law_all_pass(outcomes: Seq<bool>, quota: nat)
    requires
        forall|i: int| 0 <= i < outcomes.len() ==> outcomes[i],
    ensures
        admitted(outcomes, quota).len() == if outcomes.len() <= quota {
            outcomes.len()
        } else {
            quota
        },
{
    lemma_passed(outcomes);
}

/// Where fewer candidates pass than are wanted, the probe admits exactly those that passed.
pub proof fn law_few_pass(outcomes: Seq<bool>, quota: nat)
    requires
        passed(outcomes).len() < quota,
    ensures
        admitted(outcomes, quota) == passed(outcomes),
        admitted(outcomes, quota).len() == passed(outcomes).len(),
{
}

/// A probe never admits more than are wanted, nor a candidate that did not pass.
pub proof fn law_admits_within_quota(outcomes: Seq<bool>, quota: nat)
    ensures
        admitted(outcomes, quota).len() <= quota,
        forall|n: int|
            0 <= n < admitted(outcomes, quota).len() ==> 0 <= #[trigger] admitted(
                outcomes,
                quota,
            )[n] < outcomes.len() && outcomes[admitted(outcomes, quota)[n]],
{
    lemma_passed(outcomes);
}

} // verus!
