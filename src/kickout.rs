//! Kickout of under-performing or slashed validators, and the stake
//! proposals that decide the next epoch's validator list.
use vstd::prelude::*;

use crate::types::{stake_views, AccountId, StakeView, ValidatorStake};

verus! {

/// A validator is kicked out when slashed, or when it produced less than
/// `threshold` percent of the blocks it was expected to produce.
pub open spec fn is_kicked(produced: int, expected: int, threshold: int, slashed: bool) -> bool {
    slashed || (expected > 0 && produced * 100 < threshold * expected)
}

/// Decides, validator by validator, who is kicked out at the end of an epoch.
/// `stats` holds each validator's produced and expected block counts,
/// `slashed` whether it was slashed, and `threshold` is a percentage.
pub fn compute_kickout(stats: &Vec<(u64, u64)>, slashed: &Vec<bool>, threshold: u8) -> (r: Vec<
    bool,
>)
    requires
        stats@.len() == slashed@.len(),
    ensures
        r@.len() == stats@.len(),
        forall|i: int|
            0 <= i < r@.len() ==> #[trigger] r@[i] == is_kicked(
                stats@[i].0 as int,
                stats@[i].1 as int,
                threshold as int,
                slashed@[i],
            ),
{
    let mut r: Vec<bool> = Vec::new();
    let mut i: usize = 0;
    while i < stats.len()
        invariant
            stats@.len() == slashed@.len(),
            0 <= i <= stats@.len(),
            r@.len() == i,
            forall|j: int|
                0 <= j < i ==> #[trigger] r@[j] == is_kicked(
                    stats@[j].0 as int,
                    stats@[j].1 as int,
                    threshold as int,
                    slashed@[j],
                ),
        decreases stats@.len() - i,
    {
        let (produced, expected) = stats[i];
        assert((threshold as int) * (expected as int) <= 255 * u64::MAX) by (nonlinear_arith)
            requires
                threshold <= 255,
                expected <= u64::MAX,
                expected >= 0,
        ;
        let low = expected > 0 && (produced as u128) * 100 < (threshold as u128) * (
        expected as u128);
        r.push(slashed[i] || low);
        i = i + 1;
    }
    r
}

/// Index of the last entry of `t` for `account`, or -1.
pub open spec fn position(t: Seq<StakeView>, account: Seq<char>) -> int
    decreases t.len(),
{
    if t.len() == 0 {
        -1
    } else if t.last().0 == account {
        t.len() - 1
    } else {
        position(t.drop_last(), account)
    }
}

/// Stake held by `account` in `t`, zero when absent.
pub open spec fn stake_of(t: Seq<StakeView>, account: Seq<char>) -> int {
    let k = position(t, account);
    if k >= 0 {
        t[k].2 as int
    } else {
        0
    }
}

/// A proposal replaces the account's entry, or joins at the end.
pub open spec fn apply_proposal(t: Seq<StakeView>, p: StakeView) -> Seq<StakeView> {
    let k = position(t, p.0);
    if k >= 0 {
        t.update(k, p)
    } else {
        t.push(p)
    }
}

/// Whether `account` belongs to a validator that is kicked out.
pub open spec fn kicked_account(old: Seq<StakeView>, kicked: Seq<bool>, account: Seq<char>) -> bool {
    exists|i: int| 0 <= i < old.len() && i < kicked.len() && #[trigger] kicked[i] && old[i].0 == account
}

/// The table after the proposals, those of kicked-out accounts ignored.
pub open spec fn fold_proposals(
    t: Seq<StakeView>,
    ps: Seq<StakeView>,
    old: Seq<StakeView>,
    kicked: Seq<bool>,
) -> Seq<StakeView>
    decreases ps.len(),
{
    if ps.len() == 0 {
        t
    } else {
        let before = fold_proposals(t, ps.drop_last(), old, kicked);
        if kicked_account(old, kicked, ps.last().0) {
            before
        } else {
            apply_proposal(before, ps.last())
        }
    }
}

/// The first `k` validators that are not kicked out, in order.
pub open spec fn keep_active(old: Seq<StakeView>, kicked: Seq<bool>, k: int) -> Seq<StakeView>
    decreases k,
{
    if k <= 0 {
        Seq::empty()
    } else if kicked[k - 1] {
        keep_active(old, kicked, k - 1)
    } else {
        keep_active(old, kicked, k - 1).push(old[k - 1])
    }
}

/// The entries of `t` with a nonzero stake, in order.
pub open spec fn drop_zero(t: Seq<StakeView>) -> Seq<StakeView>
    decreases t.len(),
{
    if t.len() == 0 {
        Seq::empty()
    } else if t.last().2 == 0 {
        drop_zero(t.drop_last())
    } else {
        drop_zero(t.drop_last()).push(t.last())
    }
}

/// The next epoch's validators: those not kicked out, after the proposals of
/// accounts that were not kicked out, without zero stakes.
pub open spec fn next_validators_spec(
    old: Seq<StakeView>,
    kicked: Seq<bool>,
    ps: Seq<StakeView>,
) -> Seq<StakeView> {
    drop_zero(fold_proposals(keep_active(old, kicked, old.len() as int), ps, old, kicked))
}

/// Folds one proposal into the table.
pub fn apply_stake_proposal(table: &mut Vec<ValidatorStake>, p: ValidatorStake)
    ensures
        stake_views(final(table)@) == apply_proposal(stake_views(old(table)@), p@),
{
    let ghost t0 = stake_views(table@);
    let mut k: usize = 0;
    let mut found = false;
    let mut i: usize = 0;
    while i < table.len()
        invariant
            0 <= i <= table@.len(),
            t0 == stake_views(table@),
            found ==> k < i && position(t0.subrange(0, i as int), p@.0) == k,
            !found ==> position(t0.subrange(0, i as int), p@.0) == -1,
        decreases table@.len() - i,
    {
        proof {
            assert(t0.subrange(0, i as int + 1).drop_last() =~= t0.subrange(0, i as int));
        }
        if table[i].account_id == p.account_id {
            k = i;
            found = true;
        }
        i = i + 1;
    }
    assert(t0.subrange(0, table@.len() as int) =~= t0);
    if found {
        table.set(k, p);
        assert(stake_views(table@) =~= apply_proposal(t0, p@));
    } else {
        table.push(p);
        assert(stake_views(table@) =~= apply_proposal(t0, p@));
    }
}

/// Computes the next epoch's validators from this epoch's, the kickout
/// decisions and the epoch's stake proposals, in order.
pub fn next_validators(
    old: &Vec<ValidatorStake>,
    kicked: &Vec<bool>,
    proposals: &Vec<ValidatorStake>,
) -> (r: Vec<ValidatorStake>)
    requires
        old@.len() == kicked@.len(),
    ensures
        stake_views(r@) == next_validators_spec(stake_views(old@), kicked@, stake_views(proposals@)),
{
    let ghost ov = stake_views(old@);
    let ghost pv = stake_views(proposals@);
    let mut table: Vec<ValidatorStake> = Vec::new();
    let mut i: usize = 0;
    while i < old.len()
        invariant
            old@.len() == kicked@.len(),
            ov == stake_views(old@),
            0 <= i <= old@.len(),
            stake_views(table@) == keep_active(ov, kicked@, i as int),
        decreases old@.len() - i,
    {
        if !kicked[i] {
            table.push(old[i].copy());
        }
        i = i + 1;
        assert(stake_views(table@) =~= keep_active(ov, kicked@, i as int));
    }
    let ghost start = stake_views(table@);
    let mut j: usize = 0;
    while j < proposals.len()
        invariant
            old@.len() == kicked@.len(),
            ov == stake_views(old@),
            pv == stake_views(proposals@),
            0 <= j <= proposals@.len(),
            stake_views(table@) == fold_proposals(start, pv.subrange(0, j as int), ov, kicked@),
        decreases proposals@.len() - j,
    {
        let skip = is_kicked_account(old, kicked, &proposals[j].account_id);
        proof {
            assert(pv.subrange(0, j as int + 1).drop_last() =~= pv.subrange(0, j as int));
        }
        if !skip {
            apply_stake_proposal(&mut table, proposals[j].copy());
        }
        j = j + 1;
    }
    assert(pv.subrange(0, proposals@.len() as int) =~= pv);
    let ghost folded = stake_views(table@);
    let mut r: Vec<ValidatorStake> = Vec::new();
    let mut k: usize = 0;
    while k < table.len()
        invariant
            0 <= k <= table@.len(),
            folded == stake_views(table@),
            stake_views(r@) == drop_zero(folded.subrange(0, k as int)),
        decreases table@.len() - k,
    {
        proof {
            assert(folded.subrange(0, k as int + 1).drop_last() =~= folded.subrange(0, k as int));
        }
        if table[k].amount != 0 {
            r.push(table[k].copy());
        }
        k = k + 1;
        assert(stake_views(r@) =~= drop_zero(folded.subrange(0, k as int)));
    }
    assert(folded.subrange(0, table@.len() as int) =~= folded);
    r
}

/// Whether `account` belongs to a validator of `old` that is kicked out.
fn is_kicked_account(old: &Vec<ValidatorStake>, kicked: &Vec<bool>, account: &AccountId) -> (r:
    bool)
    requires
        old@.len() == kicked@.len(),
    ensures
        r == kicked_account(stake_views(old@), kicked@, account@),
{
    let mut i: usize = 0;
    while i < old.len()
        invariant
            old@.len() == kicked@.len(),
            0 <= i <= old@.len(),
            forall|j: int|
                0 <= j < i ==> !(#[trigger] kicked@[j] && stake_views(old@)[j].0 == account@),
        decreases old@.len() - i,
    {
        if kicked[i] && old[i].account_id == *account {
            assert(kicked@[i as int] && stake_views(old@)[i as int].0 == account@);
            return true;
        }
        i = i + 1;
    }
    false
}

/// Sum of the stakes in `t`.
pub open spec fn stake_total(t: Seq<StakeView>) -> int
    decreases t.len(),
{
    if t.len() == 0 {
        0
    } else {
        stake_total(t.drop_last()) + t.last().2
    }
}

/// Sum of the stakes of the first `k` validators that are kicked out.
pub open spec fn kicked_stake(old: Seq<StakeView>, kicked: Seq<bool>, k: int) -> int
    decreases k,
{
    if k <= 0 {
        0
    } else if kicked[k - 1] {
        kicked_stake(old, kicked, k - 1) + old[k - 1].2
    } else {
        kicked_stake(old, kicked, k - 1)
    }
}

/// Sum of what the proposals that take effect change, each against the stake
/// the account held just before it.
pub open spec fn proposal_deltas(
    t: Seq<StakeView>,
    ps: Seq<StakeView>,
    old: Seq<StakeView>,
    kicked: Seq<bool>,
) -> int
    decreases ps.len(),
{
    if ps.len() == 0 {
        0
    } else {
        let before = fold_proposals(t, ps.drop_last(), old, kicked);
        if kicked_account(old, kicked, ps.last().0) {
            proposal_deltas(t, ps.drop_last(), old, kicked)
        } else {
            proposal_deltas(t, ps.drop_last(), old, kicked) + ps.last().2 - stake_of(
                before,
                ps.last().0,
            )
        }
    }
}

proof fn position_in_range(t: Seq<StakeView>, a: Seq<char>)
    ensures
        -1 <= position(t, a) < t.len(),
        position(t, a) >= 0 ==> t[position(t, a)].0 == a,
    decreases t.len(),
{
    if t.len() > 0 {
        position_in_range(t.drop_last(), a);
    }
}

proof fn stake_total_update(t: Seq<StakeView>, k: int, p: StakeView)
    requires
        0 <= k < t.len(),
    ensures
        stake_total(t.update(k, p)) == stake_total(t) - t[k].2 + p.2,
    decreases t.len(),
{
    let u = t.update(k, p);
    if k == t.len() - 1 {
        assert(u.drop_last() =~= t.drop_last());
    } else {
        stake_total_update(t.drop_last(), k, p);
        assert(u.drop_last() =~= t.drop_last().update(k, p));
    }
}

proof fn stake_total_apply(t: Seq<StakeView>, p: StakeView)
    ensures
        stake_total(apply_proposal(t, p)) == stake_total(t) + p.2 - stake_of(t, p.0),
{
    position_in_range(t, p.0);
    let k = position(t, p.0);
    if k >= 0 {
        stake_total_update(t, k, p);
    } else {
        assert(t.push(p).drop_last() =~= t);
    }
}

proof fn stake_total_fold(t: Seq<StakeView>, ps: Seq<StakeView>, old: Seq<StakeView>, kicked: Seq<bool>)
    ensures
        stake_total(fold_proposals(t, ps, old, kicked)) == stake_total(t) + proposal_deltas(
            t,
            ps,
            old,
            kicked,
        ),
    decreases ps.len(),
{
    if ps.len() > 0 {
        stake_total_fold(t, ps.drop_last(), old, kicked);
        stake_total_apply(fold_proposals(t, ps.drop_last(), old, kicked), ps.last());
    }
}

proof fn stake_total_keep(old: Seq<StakeView>, kicked: Seq<bool>, k: int)
    requires
        0 <= k <= old.len(),
        old.len() == kicked.len(),
    ensures
        stake_total(keep_active(old, kicked, k)) == stake_total(old.subrange(0, k)) - kicked_stake(
            old,
            kicked,
            k,
        ),
    decreases k,
{
    if k > 0 {
        stake_total_keep(old, kicked, k - 1);
        assert(old.subrange(0, k).drop_last() =~= old.subrange(0, k - 1));
        let kept = keep_active(old, kicked, k - 1);
        assert(kept.push(old[k - 1]).drop_last() =~= kept);
    }
}

proof fn stake_total_drop_zero(t: Seq<StakeView>)
    ensures
        stake_total(drop_zero(t)) == stake_total(t),
    decreases t.len(),
{
    if t.len() > 0 {
        stake_total_drop_zero(t.drop_last());
        let d = drop_zero(t.drop_last());
        assert(d.push(t.last()).drop_last() =~= d);
    }
}

/// The next validators' total stake is this epoch's total, less the stake of
/// those kicked out, plus what the proposals that took effect changed.
pub proof fn lemma_stake_conservation(old: Seq<StakeView>, kicked: Seq<bool>, ps: Seq<StakeView>)
    requires
        old.len() == kicked.len(),
    ensures
        stake_total(next_validators_spec(old, kicked, ps)) == stake_total(old) - kicked_stake(
            old,
            kicked,
            old.len() as int,
        ) + proposal_deltas(keep_active(old, kicked, old.len() as int), ps, old, kicked),
{
    let kept = keep_active(old, kicked, old.len() as int);
    stake_total_keep(old, kicked, old.len() as int);
    assert(old.subrange(0, old.len() as int) =~= old);
    stake_total_fold(kept, ps, old, kicked);
    stake_total_drop_zero(fold_proposals(kept, ps, old, kicked));
}

/// No entry of `t` belongs to `account`.
pub open spec fn absent(t: Seq<StakeView>, account: Seq<char>) -> bool {
    forall|m: int| 0 <= m < t.len() ==> (#[trigger] t[m]).0 != account
}

proof fn keep_absent(old: Seq<StakeView>, kicked: Seq<bool>, k: int, a: Seq<char>)
    requires
        0 <= k <= old.len(),
        old.len() == kicked.len(),
        forall|j: int| 0 <= j < k && !kicked[j] ==> (#[trigger] old[j]).0 != a,
    ensures
        absent(keep_active(old, kicked, k), a),
    decreases k,
{
    if k > 0 {
        keep_absent(old, kicked, k - 1, a);
    }
}

proof fn keep_present(old: Seq<StakeView>, kicked: Seq<bool>, k: int, i: int)
    requires
        0 <= i < k <= old.len(),
        old.len() == kicked.len(),
        !kicked[i],
    ensures
        keep_active(old, kicked, k).contains(old[i]),
    decreases k,
{
    let kept = keep_active(old, kicked, k - 1);
    if i == k - 1 {
        assert(keep_active(old, kicked, k)[kept.len() as int] == old[i]);
    } else {
        keep_present(old, kicked, k - 1, i);
        let m = choose|m: int| 0 <= m < kept.len() && kept[m] == old[i];
        if !kicked[k - 1] {
            assert(keep_active(old, kicked, k)[m] == old[i]);
        }
    }
}

proof fn fold_absent(
    t: Seq<StakeView>,
    ps: Seq<StakeView>,
    old: Seq<StakeView>,
    kicked: Seq<bool>,
    a: Seq<char>,
)
    requires
        kicked_account(old, kicked, a),
        absent(t, a),
    ensures
        absent(fold_proposals(t, ps, old, kicked), a),
    decreases ps.len(),
{
    if ps.len() > 0 {
        let before = fold_proposals(t, ps.drop_last(), old, kicked);
        fold_absent(t, ps.drop_last(), old, kicked, a);
        if !kicked_account(old, kicked, ps.last().0) {
            position_in_range(before, ps.last().0);
            let after = apply_proposal(before, ps.last());
            assert forall|m: int| 0 <= m < after.len() implies (#[trigger] after[m]).0 != a by {
                if m < before.len() && after[m] != before[m] {
                    assert(after[m] == ps.last());
                }
            }
        }
    }
}

proof fn fold_present(
    t: Seq<StakeView>,
    ps: Seq<StakeView>,
    old: Seq<StakeView>,
    kicked: Seq<bool>,
    x: StakeView,
)
    requires
        t.contains(x),
        forall|j: int| 0 <= j < ps.len() ==> (#[trigger] ps[j]).0 != x.0,
    ensures
        fold_proposals(t, ps, old, kicked).contains(x),
    decreases ps.len(),
{
    if ps.len() > 0 {
        let before = fold_proposals(t, ps.drop_last(), old, kicked);
        assert forall|j: int| 0 <= j < ps.drop_last().len() implies (
        #[trigger] ps.drop_last()[j]).0 != x.0 by {
            assert(ps.drop_last()[j] == ps[j]);
        }
        fold_present(t, ps.drop_last(), old, kicked, x);
        assert(ps.last() == ps[ps.len() - 1]);
        if !kicked_account(old, kicked, ps.last().0) {
            position_in_range(before, ps.last().0);
            let m = choose|m: int| 0 <= m < before.len() && before[m] == x;
            assert(apply_proposal(before, ps.last())[m] == x);
        }
    }
}

/// Every entry that survives `drop_zero` has a nonzero stake.
pub proof fn drop_zero_nonzero(t: Seq<StakeView>)
    ensures
        forall|m: int| 0 <= m < drop_zero(t).len() ==> (#[trigger] drop_zero(t)[m]).2 > 0,
    decreases t.len(),
{
    if t.len() > 0 {
        drop_zero_nonzero(t.drop_last());
        let d = drop_zero(t.drop_last());
        if t.last().2 != 0 {
            assert forall|m: int| 0 <= m < drop_zero(t).len() implies (#[trigger] drop_zero(t)[m]).2
                > 0 by {
                if m < d.len() {
                    assert(drop_zero(t)[m] == d[m]);
                }
            }
        }
    }
}

proof fn drop_zero_absent(t: Seq<StakeView>, a: Seq<char>)
    requires
        absent(t, a),
    ensures
        absent(drop_zero(t), a),
    decreases t.len(),
{
    if t.len() > 0 {
        drop_zero_absent(t.drop_last(), a);
    }
}

proof fn drop_zero_present(t: Seq<StakeView>, x: StakeView)
    requires
        t.contains(x),
        x.2 > 0,
    ensures
        drop_zero(t).contains(x),
    decreases t.len(),
{
    let d = drop_zero(t.drop_last());
    if t.last() == x {
        assert(drop_zero(t)[d.len() as int] == x);
    } else {
        let m = choose|m: int| 0 <= m < t.len() && t[m] == x;
        assert(t.drop_last()[m] == x);
        drop_zero_present(t.drop_last(), x);
        let q = choose|q: int| 0 <= q < d.len() && d[q] == x;
        if t.last().2 != 0 {
            assert(drop_zero(t)[q] == x);
        }
    }
}

/// With kickout decided by production and slashing: a validator that produced
/// less than the threshold of its expected blocks, or was slashed, has no
/// entry among the next validators; one that was not kicked out, that no
/// proposal names and whose stake is nonzero stays, unchanged.
pub proof fn lemma_kickout_correctness(
    old: Seq<StakeView>,
    stats: Seq<(u64, u64)>,
    slashed: Seq<bool>,
    threshold: u8,
    kicked: Seq<bool>,
    ps: Seq<StakeView>,
    i: int,
)
    requires
        old.len() == kicked.len(),
        stats.len() == kicked.len(),
        slashed.len() == kicked.len(),
        forall|j: int|
            0 <= j < kicked.len() ==> #[trigger] kicked[j] == is_kicked(
                stats[j].0 as int,
                stats[j].1 as int,
                threshold as int,
                slashed[j],
            ),
        forall|a: int, b: int|
            0 <= a < old.len() && 0 <= b < old.len() && a != b ==> (#[trigger] old[a]).0 != (
            #[trigger] old[b]).0,
        0 <= i < old.len(),
    ensures
        (slashed[i] || (stats[i].1 > 0 && stats[i].0 * 100 < threshold * stats[i].1)) ==> absent(
            next_validators_spec(old, kicked, ps),
            old[i].0,
        ),
        (!is_kicked(stats[i].0 as int, stats[i].1 as int, threshold as int, slashed[i])
            && old[i].2 > 0 && forall|j: int| 0 <= j < ps.len() ==> (#[trigger] ps[j]).0
            != old[i].0) ==> next_validators_spec(old, kicked, ps).contains(old[i]),
{
    let n = old.len() as int;
    let kept = keep_active(old, kicked, n);
    let a = old[i].0;
    if kicked[i] {
        assert forall|j: int| 0 <= j < n && !kicked[j] implies (#[trigger] old[j]).0 != a by {
            assert(j != i);
        }
        keep_absent(old, kicked, n, a);
        assert(kicked_account(old, kicked, a));
        fold_absent(kept, ps, old, kicked, a);
        drop_zero_absent(fold_proposals(kept, ps, old, kicked), a);
    } else if old[i].2 > 0 && forall|j: int| 0 <= j < ps.len() ==> (#[trigger] ps[j]).0 != a {
        keep_present(old, kicked, n, i);
        fold_present(kept, ps, old, kicked, old[i]);
        drop_zero_present(fold_proposals(kept, ps, old, kicked), old[i]);
    }
}

} // verus!
