//! The epoch manager: records blocks, detects epoch boundaries, derives each
//! new epoch from the last, and stages every write in a change-set that the
//! caller commits or drops.
use vstd::prelude::*;

use crate::kickout::{
    absent, compute_kickout, drop_zero_nonzero, fold_proposals, is_kicked, keep_active,
    lemma_kickout_correctness, next_validators, next_validators_spec,
};
use crate::order::{
    amounts, lemma_permutation_keeps_totals, lemma_sorted_permutation_unique, sort_by_account,
    sorted_by_account,
};
use crate::reward::{
    rewards_overflow, rewards_sum, rewards_sum_matches, seq_sum_nonneg, validator_reward,
    RewardCalculator,
};
use crate::sampler::{
    assign_seats, is_apportionment, layout_slots, lemma_apportionment_unique, seat_sum,
    seat_sum_prefix, seats_overflow, slot_layout, stake_prefix_nonneg, total_stake,
};
use crate::types::{
    hash_eq, AccountId, Balance, BlockIndex, BlockInfo, CryptoHash, EpochConfig, EpochError,
    EpochInfo, Gas, StakeView, ValidatorStake, ValidatorWeight, stake_views,
};

verus! {

broadcast use vstd::seq_lib::group_to_multiset_ensures;

/// A block in the ledger, with the epoch it belongs to.
pub struct StoredBlock {
    pub hash: CryptoHash,
    pub info: BlockInfo,
    pub epoch_id: usize,
    /// Height of the first block of that epoch.
    pub epoch_start: BlockIndex,
}

/// Writes staged by `record_block_info`: nothing happens until it is
/// committed, and dropping it discards them.
pub struct ChangeSet {
    pub block: Option<StoredBlock>,
    pub epoch: Option<EpochInfo>,
}

impl ChangeSet {
    pub open spec fn is_empty(&self) -> bool {
        self.block is None && self.epoch is None
    }
}

pub struct EpochManager {
    pub config: EpochConfig,
    pub reward_calculator: RewardCalculator,
    pub blocks: Vec<StoredBlock>,
    pub epochs: Vec<EpochInfo>,
}

/// An epoch the manager can build on: indices are sound and there is at
/// least one block-producer slot.
pub open spec fn epoch_usable(e: EpochInfo) -> bool {
    e.wf() && e.block_producers@.len() > 0
}

/// Two records describe the same block.
pub open spec fn same_block(a: BlockInfo, b: BlockInfo) -> bool {
    &&& a.index == b.index
    &&& a.prev_hash@ == b.prev_hash@
    &&& a.gas_used == b.gas_used
    &&& a.gas_price == b.gas_price
    &&& a.total_supply == b.total_supply
    &&& stake_views(a.proposals@) == stake_views(b.proposals@)
    &&& a.validator_mask@ == b.validator_mask@
    &&& account_views(a.slashed@) == account_views(b.slashed@)
}

/// The plain values of a list of accounts.
pub open spec fn account_views(s: Seq<AccountId>) -> Seq<Seq<char>> {
    Seq::new(s.len(), |i: int| s[i]@)
}

/// A configuration the manager accepts.
pub open spec fn config_ok(config: EpochConfig, rc: RewardCalculator) -> bool {
    config.wf() && rc.wf() && config.num_block_producers > 0
}

/// A block at height `index` whose parent is `parent` is the first of a new
/// epoch: epochs are the windows of `epoch_length` heights counted from
/// genesis, and the block lies in a later window than its parent's epoch
/// start.
pub open spec fn starts_epoch(parent: StoredBlock, index: BlockIndex, epoch_length: u64) -> bool {
    index / epoch_length > parent.epoch_start / epoch_length
}

/// When each block's epoch start lies in the block's own window, a block
/// right after its parent starts an epoch exactly at a multiple of the
/// epoch length.
pub proof fn lemma_boundary_at_multiples(parent: StoredBlock, index: BlockIndex, epoch_length: u64)
    requires
        epoch_length > 0,
        parent.info.index + 1 == index,
        parent.epoch_start / epoch_length == parent.info.index / epoch_length,
    ensures
        starts_epoch(parent, index, epoch_length) <==> index % epoch_length == 0,
{
    let l = epoch_length as int;
    let i = index as int;
    assert(((i - 1) / l < i / l) <==> i % l == 0) by (nonlinear_arith)
        requires
            l > 0,
            i >= 1,
    ;
}

fn same_block_exec(a: &BlockInfo, b: &BlockInfo) -> (r: bool)
    ensures
        r == same_block(*a, *b),
{
    a.index == b.index && hash_eq(&a.prev_hash, &b.prev_hash) && a.gas_used == b.gas_used
        && a.gas_price == b.gas_price && a.total_supply == b.total_supply && stakes_eq(
        &a.proposals,
        &b.proposals,
    ) && bools_eq(&a.validator_mask, &b.validator_mask) && accounts_eq(&a.slashed, &b.slashed)
}

fn bytes_eq(a: &Vec<u8>, b: &Vec<u8>) -> (r: bool)
    ensures
        r == (a@ == b@),
{
    if a.len() != b.len() {
        return false;
    }
    let mut i: usize = 0;
    while i < a.len()
        invariant
            a@.len() == b@.len(),
            0 <= i <= a@.len(),
            forall|j: int| 0 <= j < i ==> a@[j] == b@[j],
        decreases a@.len() - i,
    {
        if a[i] != b[i] {
            return false;
        }
        i = i + 1;
    }
    assert(a@ =~= b@);
    true
}

fn bools_eq(a: &Vec<bool>, b: &Vec<bool>) -> (r: bool)
    ensures
        r == (a@ == b@),
{
    if a.len() != b.len() {
        return false;
    }
    let mut i: usize = 0;
    while i < a.len()
        invariant
            a@.len() == b@.len(),
            0 <= i <= a@.len(),
            forall|j: int| 0 <= j < i ==> a@[j] == b@[j],
        decreases a@.len() - i,
    {
        if a[i] != b[i] {
            return false;
        }
        i = i + 1;
    }
    assert(a@ =~= b@);
    true
}

fn accounts_eq(a: &Vec<AccountId>, b: &Vec<AccountId>) -> (r: bool)
    ensures
        r == (account_views(a@) == account_views(b@)),
{
    if a.len() != b.len() {
        assert(account_views(a@).len() != account_views(b@).len());
        return false;
    }
    let mut i: usize = 0;
    while i < a.len()
        invariant
            a@.len() == b@.len(),
            0 <= i <= a@.len(),
            forall|j: int| 0 <= j < i ==> a@[j]@ == b@[j]@,
        decreases a@.len() - i,
    {
        if a[i] != b[i] {
            assert(account_views(a@)[i as int] != account_views(b@)[i as int]);
            return false;
        }
        i = i + 1;
    }
    assert(account_views(a@) =~= account_views(b@));
    true
}

fn stakes_eq(a: &Vec<ValidatorStake>, b: &Vec<ValidatorStake>) -> (r: bool)
    ensures
        r == (stake_views(a@) == stake_views(b@)),
{
    if a.len() != b.len() {
        assert(stake_views(a@).len() != stake_views(b@).len());
        return false;
    }
    let mut i: usize = 0;
    while i < a.len()
        invariant
            a@.len() == b@.len(),
            0 <= i <= a@.len(),
            forall|j: int| 0 <= j < i ==> a@[j]@ == b@[j]@,
        decreases a@.len() - i,
    {
        if a[i].account_id != b[i].account_id || a[i].amount != b[i].amount || !bytes_eq(
            &a[i].public_key,
            &b[i].public_key,
        ) {
            assert(stake_views(a@)[i as int] != stake_views(b@)[i as int]);
            return false;
        }
        i = i + 1;
    }
    assert(stake_views(a@) =~= stake_views(b@));
    true
}

/// The seat assignments of an epoch can be made for validators with these
/// stakes: there is stake, its total fits in 128 bits, and no stake times a
/// seat quota leaves 128 bits.
pub open spec fn epoch_buildable(config: EpochConfig, t: Seq<StakeView>) -> bool {
    let a = amounts(t);
    let fish = seat_sum(config.avg_fisherman_per_shard@);
    &&& 0 < total_stake(a) <= u128::MAX
    &&& !seats_overflow(a, config.num_block_producers as int)
    &&& forall|s: int|
        0 <= s < config.block_producers_per_shard@.len() ==> !seats_overflow(
            a,
            #[trigger] config.block_producers_per_shard@[s] as int,
        )
    &&& fish <= usize::MAX
    &&& (fish > 0 ==> !seats_overflow(a, fish))
}

/// `slots` lays out over the epoch, by `seed`, the largest-remainder
/// apportionment of `quota` seats over the stakes of `t`.
pub open spec fn assigned_by_stake(t: Seq<StakeView>, quota: int, seed: Seq<u8>, slots: Seq<usize>) -> bool {
    exists|s: Seq<usize>| #[trigger] is_apportionment(amounts(t), quota, s) && slots == slot_layout(s, seed)
}

/// Each validator among the first `k` that holds fisherman seats, with its
/// number of seats as weight.
pub open spec fn fish_list(seats: Seq<usize>, k: int) -> Seq<ValidatorWeight>
    decreases k,
{
    if k <= 0 {
        Seq::empty()
    } else if seats[k - 1] > 0 {
        fish_list(seats, k - 1).push(((k - 1) as usize, seats[k - 1] as u64))
    } else {
        fish_list(seats, k - 1)
    }
}

/// The fishermen of an epoch over `t`: none without a fisherman quota, else
/// the apportionment of the summed quotas, validator by validator.
pub open spec fn fishermen_by_stake(t: Seq<StakeView>, config: EpochConfig, fishermen: Seq<ValidatorWeight>) -> bool {
    let fish = seat_sum(config.avg_fisherman_per_shard@);
    if fish == 0 {
        fishermen.len() == 0
    } else {
        exists|s: Seq<usize>| #[trigger] is_apportionment(amounts(t), fish, s) && fishermen == fish_list(s, t.len() as int)
    }
}

/// The assignments of an epoch over validators `t`, from `config` and `seed`.
pub open spec fn assignments_follow(e: EpochInfo, config: EpochConfig, seed: Seq<u8>) -> bool {
    let t = stake_views(e.validators@);
    &&& assigned_by_stake(t, config.num_block_producers as int, seed, e.block_producers@)
    &&& e.chunk_producers@.len() == config.num_shards
    &&& forall|x: int|
        0 <= x < e.chunk_producers@.len() ==> (#[trigger] e.chunk_producers@[x])@.len()
            == config.block_producers_per_shard@[x]
    &&& forall|x: int|
        0 <= x < e.chunk_producers@.len() ==> assigned_by_stake(
            t,
            config.block_producers_per_shard@[x] as int,
            seed,
            #[trigger] e.chunk_producers@[x]@,
        )
    &&& fishermen_by_stake(t, config, e.fishermen@)
}

/// The seed of the first epoch: 32 zero bytes.
pub open spec fn genesis_seed() -> Seq<u8> {
    Seq::new(32, |_i: int| 0u8)
}

/// Builds an epoch's assignments for `validators` from the seed: block
/// producers over all seats, then chunk producers shard by shard.
fn build_epoch_info(config: &EpochConfig, validators: Vec<ValidatorStake>, seed: &[u8; 32]) -> (r:
    Result<EpochInfo, EpochError>)
    requires
        config.wf(),
    ensures
        r is Ok <==> epoch_buildable(*config, stake_views(validators@)),
        r matches Err(err) ==> (err == EpochError::InsufficientValidators <==> total_stake(
            amounts(stake_views(validators@)),
        ) == 0),
        r matches Err(err) ==> (err == EpochError::InsufficientValidators || err
            == EpochError::ArithmeticOverflow),
        r matches Ok(e) ==> {
            &&& e.wf()
            &&& sorted_by_account(stake_views(e.validators@))
            &&& stake_views(e.validators@).to_multiset() == stake_views(validators@).to_multiset()
            &&& e.block_producers@.len() == config.num_block_producers
            &&& e.chunk_producers@.len() == config.num_shards
            &&& assignments_follow(e, *config, seed@)
            &&& pair_views(e.stake_change@) == stake_pairs(stake_views(e.validators@))
            &&& e.total_gas_used == 0
            &&& e.inflation == 0
        },
{
    let ghost given = stake_views(validators@);
    let ordered = sort_by_account(validators);
    let ghost sorted = stake_views(ordered@);
    let n = ordered.len();
    let mut stakes: Vec<Balance> = Vec::new();
    let mut stake_change: Vec<(AccountId, Balance)> = Vec::new();
    let mut i: usize = 0;
    while i < n
        invariant
            n == ordered@.len(),
            0 <= i <= n,
            stakes@.len() == i,
            forall|j: int| 0 <= j < i ==> #[trigger] stakes@[j] == ordered@[j].amount,
            pair_views(stake_change@) == stake_pairs(stake_views(ordered@)).subrange(0, i as int),
        decreases n - i,
    {
        let ghost pre = stake_change@;
        proof {
            assert(stake_pairs(stake_views(ordered@)).subrange(0, i as int + 1) =~= stake_pairs(
                stake_views(ordered@),
            ).subrange(0, i as int).push((ordered@[i as int].account_id@, ordered@[i as int].amount)));
        }
        stakes.push(ordered[i].amount);
        stake_change.push((ordered[i].account_id.clone(), ordered[i].amount));
        assert(pair_views(stake_change@) =~= pair_views(pre).push(
            (ordered@[i as int].account_id@, ordered@[i as int].amount),
        ));
        i = i + 1;
    }
    assert(stake_pairs(stake_views(ordered@)).subrange(0, n as int) =~= stake_pairs(
        stake_views(ordered@),
    ));
    assert(stakes@ =~= amounts(sorted));
    proof {
        stake_prefix_nonneg(stakes@, stakes@.len() as int);
        lemma_permutation_keeps_totals(sorted, given, config.num_block_producers as int);
        assert forall|q: int| #[trigger] seats_overflow(amounts(sorted), q) == seats_overflow(
            amounts(given),
            q,
        ) by {
            lemma_permutation_keeps_totals(sorted, given, q);
        }
    }
    let seats = match assign_seats(&stakes, config.num_block_producers) {
        Ok(v) => v,
        Err(err) => return Err(err),
    };
    let block_producers = layout_slots(&seats, seed);
    assert(is_apportionment(amounts(sorted), config.num_block_producers as int, seats@));
    let mut chunk_producers: Vec<Vec<usize>> = Vec::new();
    let mut s: usize = 0;
    while s < config.block_producers_per_shard.len()
        invariant
            config.wf(),
            n == stakes@.len(),
            0 <= s <= config.block_producers_per_shard@.len(),
            chunk_producers@.len() == s,
            stakes@ == amounts(sorted),
            given == stake_views(validators@),
            sorted == stake_views(ordered@),
            0 < total_stake(stakes@) <= u128::MAX,
            total_stake(amounts(sorted)) == total_stake(amounts(given)),
            forall|q: int| #[trigger] seats_overflow(amounts(sorted), q) == seats_overflow(
                amounts(given),
                q,
            ),
            forall|t: int|
                0 <= t < s ==> !seats_overflow(
                    stakes@,
                    #[trigger] config.block_producers_per_shard@[t] as int,
                ),
            forall|t: int, k: int|
                0 <= t < s && 0 <= k < chunk_producers@[t]@.len() ==> #[trigger] chunk_producers@[t]@[k]
                    < n,
            forall|x: int|
                0 <= x < s ==> (#[trigger] chunk_producers@[x])@.len()
                    == config.block_producers_per_shard@[x],
            forall|x: int|
                0 <= x < s ==> assigned_by_stake(
                    sorted,
                    config.block_producers_per_shard@[x] as int,
                    seed@,
                    #[trigger] chunk_producers@[x]@,
                ),
        decreases config.block_producers_per_shard@.len() - s,
    {
        let shard_seats = match assign_seats(&stakes, config.block_producers_per_shard[s]) {
            Ok(v) => v,
            Err(err) => return Err(err),
        };
        let slots = layout_slots(&shard_seats, seed);
        assert(is_apportionment(amounts(sorted), config.block_producers_per_shard@[s as int] as int, shard_seats@));
        let ghost before = chunk_producers@;
        chunk_producers.push(slots);
        assert(forall|x: int| 0 <= x < s ==> chunk_producers@[x] == before[x]);
        s = s + 1;
    }
    let mut fish_total: usize = 0;
    let mut f: usize = 0;
    let ghost quotas = config.avg_fisherman_per_shard@;
    while f < config.avg_fisherman_per_shard.len()
        invariant
            quotas == config.avg_fisherman_per_shard@,
            stakes@ == amounts(sorted),
            given == stake_views(validators@),
            sorted == stake_views(ordered@),
            0 < total_stake(stakes@) <= u128::MAX,
            total_stake(amounts(sorted)) == total_stake(amounts(given)),
            forall|q: int| #[trigger] seats_overflow(amounts(sorted), q) == seats_overflow(
                amounts(given),
                q,
            ),
            forall|t: int|
                0 <= t < config.block_producers_per_shard@.len() ==> !seats_overflow(
                    stakes@,
                    #[trigger] config.block_producers_per_shard@[t] as int,
                ),
            0 <= f <= quotas.len(),
            fish_total as int == seat_sum(quotas.subrange(0, f as int)),
        decreases quotas.len() - f,
    {
        proof {
            assert(quotas.subrange(0, f as int + 1).drop_last() =~= quotas.subrange(0, f as int));
        }
        fish_total = match fish_total.checked_add(config.avg_fisherman_per_shard[f]) {
            Some(v) => v,
            None => {
                proof {
                    seat_sum_prefix(quotas, f as int + 1);
                }
                return Err(EpochError::ArithmeticOverflow);
            },
        };
        f = f + 1;
    }
    assert(quotas.subrange(0, quotas.len() as int) =~= quotas);
    let mut fishermen: Vec<ValidatorWeight> = Vec::new();
    if fish_total > 0 {
        let fish_seats = match assign_seats(&stakes, fish_total) {
            Ok(v) => v,
            Err(err) => return Err(err),
        };
        let mut v: usize = 0;
        while v < fish_seats.len()
            invariant
                fish_seats@.len() == n,
                0 <= v <= n,
                forall|k: int| 0 <= k < fishermen@.len() ==> (#[trigger] fishermen@[k]).0 < n,
                fishermen@ == fish_list(fish_seats@, v as int),
            decreases n - v,
        {
            if fish_seats[v] > 0 {
                fishermen.push((v, fish_seats[v] as u64));
            }
            v = v + 1;
        }
        assert(is_apportionment(amounts(sorted), fish_total as int, fish_seats@));
    }
    assert(sorted.len() == n);
    let e = EpochInfo {
        validators: ordered,
        block_producers,
        chunk_producers,
        fishermen,
        stake_change,
        total_gas_used: 0,
        validator_reward: Vec::new(),
        inflation: 0,
    };
    Ok(e)
}

/// Validators of the coming epoch: this epoch's, less those kicked out by
/// `stats` (produced and expected blocks) and `slashed`, after `proposals`.
pub open spec fn coming_validators(
    config: EpochConfig,
    old: Seq<StakeView>,
    stats: Seq<(u64, u64)>,
    slashed: Seq<bool>,
    proposals: Seq<StakeView>,
) -> Seq<StakeView> {
    next_validators_spec(old, kicked_flags(config, stats, slashed, old.len()), proposals)
}

/// Which of `n` validators are kicked out, by their counts and slashing.
pub open spec fn kicked_flags(config: EpochConfig, stats: Seq<(u64, u64)>, slashed: Seq<bool>, n: nat) -> Seq<bool> {
    Seq::new(
        n,
        |i: int|
            is_kicked(
                stats[i].0 as int,
                stats[i].1 as int,
                config.validator_kickout_threshold as int,
                slashed[i],
            ),
    )
}

/// Account and amount pairs as plain values.
pub open spec fn pair_views(s: Seq<(AccountId, Balance)>) -> Seq<(Seq<char>, u128)> {
    Seq::new(s.len(), |i: int| (s[i].0@, s[i].1))
}

/// Each stake's account and amount.
pub open spec fn stake_pairs(t: Seq<StakeView>) -> Seq<(Seq<char>, u128)> {
    Seq::new(t.len(), |i: int| (t[i].0, t[i].2))
}

/// The first `k` kicked-out validators, each with a stake of zero.
pub open spec fn kicked_zeros(old: Seq<StakeView>, kicked: Seq<bool>, k: int) -> Seq<(Seq<char>, u128)>
    decreases k,
{
    if k <= 0 {
        Seq::empty()
    } else if kicked[k - 1] {
        kicked_zeros(old, kicked, k - 1).push((old[k - 1].0, 0u128))
    } else {
        kicked_zeros(old, kicked, k - 1)
    }
}

/// The epoch's reward cannot be computed in 128 bits.
pub open spec fn reward_fails(rc: RewardCalculator, stats: Seq<(u64, u64)>, total_supply: int) -> bool {
    rc.supply_overflows(total_supply) || rewards_overflow(
        rc.spec_validator_pool(rc.spec_total_reward(total_supply)),
        stats,
    )
}

/// The next epoch can be derived: its reward computes in 128 bits and its
/// seats can be assigned.
pub open spec fn derivable(
    config: EpochConfig,
    rc: RewardCalculator,
    old: Seq<ValidatorStake>,
    stats: Seq<(u64, u64)>,
    slashed: Seq<bool>,
    proposals: Seq<StakeView>,
    total_supply: int,
) -> bool {
    !reward_fails(rc, stats, total_supply) && epoch_buildable(
        config,
        coming_validators(config, stake_views(old), stats, slashed, proposals),
    )
}

/// `e` is the epoch derived from `old` and what the finished epoch recorded:
/// its validators are the coming validators in canonical order, its seats
/// follow their stakes and the seed, and its rewards follow production.
pub open spec fn derived(
    config: EpochConfig,
    rc: RewardCalculator,
    old: Seq<ValidatorStake>,
    stats: Seq<(u64, u64)>,
    slashed: Seq<bool>,
    proposals: Seq<StakeView>,
    total_supply: int,
    gas: int,
    seed: Seq<u8>,
    e: EpochInfo,
) -> bool {
    let next = coming_validators(config, stake_views(old), stats, slashed, proposals);
    let total = rc.spec_total_reward(total_supply);
    let pool = rc.spec_validator_pool(total);
    &&& epoch_usable(e)
    &&& sorted_by_account(stake_views(e.validators@))
    &&& stake_views(e.validators@).to_multiset() == next.to_multiset()
    &&& e.block_producers@.len() == config.num_block_producers
    &&& e.chunk_producers@.len() == config.num_shards
    &&& assignments_follow(e, config, seed)
    &&& pair_views(e.stake_change@) == stake_pairs(stake_views(e.validators@)) + kicked_zeros(
        stake_views(old),
        kicked_flags(config, stats, slashed, old.len()),
        old.len() as int,
    )
    &&& e.inflation == total
    &&& e.total_gas_used == gas
    &&& e.validator_reward@.len() == old.len() + 1
    &&& forall|i: int|
        0 <= i < old.len() ==> (#[trigger] e.validator_reward@[i]).0@ == old[i].account_id@
            && e.validator_reward@[i].1 == validator_reward(
            pool,
            stats[i].0 as int,
            stats[i].1 as int,
            old.len() as int,
        )
    &&& e.validator_reward@[old.len() as int].0@ == rc.protocol_treasury_account@
    &&& e.validator_reward@[old.len() as int].1 == total - rewards_sum(pool, stats, old.len() as int)
}

/// `change` followed by each kicked-out validator of `old` with stake zero.
fn with_kicked_zeros(
    change: Vec<(AccountId, Balance)>,
    old: &Vec<ValidatorStake>,
    kicked: &Vec<bool>,
) -> (r: Vec<(AccountId, Balance)>)
    requires
        kicked@.len() == old@.len(),
    ensures
        pair_views(r@) == pair_views(change@) + kicked_zeros(
            stake_views(old@),
            kicked@,
            old@.len() as int,
        ),
{
    let n = old.len();
    let ghost base = pair_views(change@);
    let ghost ov = stake_views(old@);
    let mut r = change;
    let mut z: usize = 0;
    while z < n
        invariant
            n == old@.len(),
            kicked@.len() == n,
            ov == stake_views(old@),
            0 <= z <= n,
            pair_views(r@) == base + kicked_zeros(ov, kicked@, z as int),
        decreases n - z,
    {
        if kicked[z] {
            let ghost pre = pair_views(r@);
            r.push((old[z].account_id.clone(), 0));
            assert(pair_views(r@) =~= pre.push((ov[z as int].0, 0u128)));
        }
        z = z + 1;
        assert(pair_views(r@) =~= base + kicked_zeros(ov, kicked@, z as int));
    }
    r
}

/// Derives the next epoch from this epoch's validators, their production
/// counts and slashing, and the epoch's proposals in chain order: kickout,
/// stake changes, canonical order, seat assignment and rewards. The last
/// entry of the reward list is the treasury's share with the remainder.
pub fn derive_epoch(
    config: &EpochConfig,
    rc: &RewardCalculator,
    old: &Vec<ValidatorStake>,
    stats: &Vec<(u64, u64)>,
    slashed: &Vec<bool>,
    proposals: &Vec<ValidatorStake>,
    total_supply: Balance,
    gas: Gas,
    seed: &[u8; 32],
) -> (r: Result<EpochInfo, EpochError>)
    requires
        config.wf(),
        config.num_block_producers > 0,
        rc.wf(),
        stats@.len() == old@.len(),
        slashed@.len() == old@.len(),
    ensures
        r is Ok <==> derivable(
            *config,
            *rc,
            old@,
            stats@,
            slashed@,
            stake_views(proposals@),
            total_supply as int,
        ),
        r matches Err(err) ==> (err == EpochError::InsufficientValidators || err
            == EpochError::ArithmeticOverflow),
        r matches Ok(e) ==> derived(
            *config,
            *rc,
            old@,
            stats@,
            slashed@,
            stake_views(proposals@),
            total_supply as int,
            gas as int,
            seed@,
            e,
        ),
{
    let n = old.len();
    let kicked = compute_kickout(stats, slashed, config.validator_kickout_threshold);
    let validators = next_validators(old, &kicked, proposals);
    proof {
        assert(kicked@ =~= Seq::new(
            old@.len(),
            |i: int|
                is_kicked(
                    stats@[i].0 as int,
                    stats@[i].1 as int,
                    config.validator_kickout_threshold as int,
                    slashed@[i],
                ),
        ));
    }
    let split = match rc.calculate_reward(stats, total_supply) {
        Ok(v) => v,
        Err(err) => return Err(err),
    };
    let mut rewards: Vec<(AccountId, Balance)> = Vec::new();
    let mut i: usize = 0;
    while i < n
        invariant
            n == old@.len(),
            n == stats@.len(),
            split.validator_rewards@.len() == n,
            0 <= i <= n,
            rewards@.len() == i,
            forall|j: int|
                0 <= j < i ==> (#[trigger] rewards@[j]).0@ == old@[j].account_id@ && rewards@[j].1
                    == split.validator_rewards@[j],
        decreases n - i,
    {
        rewards.push((old[i].account_id.clone(), split.validator_rewards[i]));
        i = i + 1;
    }
    proof {
        seq_sum_nonneg(split.validator_rewards@);
    }
    let treasury = split.protocol_share + split.remainder;
    rewards.push((rc.protocol_treasury_account.clone(), treasury));
    let mut epoch = match build_epoch_info(config, validators, seed) {
        Ok(e) => e,
        Err(err) => return Err(err),
    };
    epoch.total_gas_used = gas;
    epoch.validator_reward = rewards;
    epoch.inflation = split.total_reward;
    epoch.stake_change = with_kicked_zeros(epoch.stake_change, old, &kicked);
    proof {
        rewards_sum_matches(
            split.validator_rewards@,
            rc.spec_validator_pool(rc.spec_total_reward(total_supply as int)),
            stats@,
            n as int,
        );
        assert(split.validator_rewards@.subrange(0, n as int) =~= split.validator_rewards@);
        assert(epoch.validator_reward@[n as int] == (rc.protocol_treasury_account, treasury));
    }
    Ok(epoch)
}

/// Kickout as an epoch sees it: in any validator list that holds exactly the
/// coming validators, a validator that produced less than the threshold of
/// its expected blocks, or was slashed, has no entry; one that was not kicked
/// out, that no proposal names and whose stake is nonzero is there unchanged.
pub proof fn lemma_epoch_kickout(
    config: EpochConfig,
    old: Seq<StakeView>,
    stats: Seq<(u64, u64)>,
    slashed: Seq<bool>,
    proposals: Seq<StakeView>,
    validators: Seq<StakeView>,
    i: int,
)
    requires
        stats.len() == old.len(),
        slashed.len() == old.len(),
        forall|a: int, b: int|
            0 <= a < old.len() && 0 <= b < old.len() && a != b ==> (#[trigger] old[a]).0 != (
            #[trigger] old[b]).0,
        validators.to_multiset() == coming_validators(
            config,
            old,
            stats,
            slashed,
            proposals,
        ).to_multiset(),
        0 <= i < old.len(),
    ensures
        (slashed[i] || (stats[i].1 > 0 && stats[i].0 * 100 < config.validator_kickout_threshold
            * stats[i].1)) ==> absent(validators, old[i].0),
        (!is_kicked(
            stats[i].0 as int,
            stats[i].1 as int,
            config.validator_kickout_threshold as int,
            slashed[i],
        ) && old[i].2 > 0 && forall|j: int|
            0 <= j < proposals.len() ==> (#[trigger] proposals[j]).0 != old[i].0)
            ==> validators.contains(old[i]),
{
    let t = config.validator_kickout_threshold;
    let kicked = Seq::new(
        old.len(),
        |k: int| is_kicked(stats[k].0 as int, stats[k].1 as int, t as int, slashed[k]),
    );
    let next = next_validators_spec(old, kicked, proposals);
    lemma_kickout_correctness(old, stats, slashed, t, kicked, proposals, i);
    assert forall|m: int| 0 <= m < validators.len() && absent(next, old[i].0) implies (
    #[trigger] validators[m]).0 != old[i].0 by {
        assert(validators.contains(validators[m]));
        assert(validators.to_multiset().count(validators[m]) > 0);
        assert(next.contains(validators[m]));
    }
    if next.contains(old[i]) {
        assert(next.to_multiset().count(old[i]) > 0);
    }
}

/// The derived epoch is determined: any two epochs derived from the same
/// inputs have the same validators, assignments, stake changes and rewards.
pub proof fn lemma_derived_unique(
    config: EpochConfig,
    rc: RewardCalculator,
    old: Seq<ValidatorStake>,
    stats: Seq<(u64, u64)>,
    slashed: Seq<bool>,
    proposals: Seq<StakeView>,
    total_supply: int,
    gas: int,
    seed: Seq<u8>,
    e1: EpochInfo,
    e2: EpochInfo,
)
    requires
        derived(config, rc, old, stats, slashed, proposals, total_supply, gas, seed, e1),
        derived(config, rc, old, stats, slashed, proposals, total_supply, gas, seed, e2),
    ensures
        stake_views(e1.validators@) == stake_views(e2.validators@),
        e1.block_producers@ == e2.block_producers@,
        e1.chunk_producers@.len() == e2.chunk_producers@.len(),
        forall|x: int|
            0 <= x < e1.chunk_producers@.len() ==> (#[trigger] e1.chunk_producers@[x])@
                == e2.chunk_producers@[x]@,
        e1.fishermen@ == e2.fishermen@,
        pair_views(e1.stake_change@) == pair_views(e2.stake_change@),
        pair_views(e1.validator_reward@) == pair_views(e2.validator_reward@),
        e1.inflation == e2.inflation,
        e1.total_gas_used == e2.total_gas_used,
{
    let t1 = stake_views(e1.validators@);
    let t2 = stake_views(e2.validators@);
    lemma_sorted_permutation_unique(t1, t2);
    let a = amounts(t1);
    let q = config.num_block_producers as int;
    let s1 = choose|s: Seq<usize>| #[trigger] is_apportionment(a, q, s) && e1.block_producers@ == slot_layout(s, seed);
    let s2 = choose|s: Seq<usize>| #[trigger] is_apportionment(a, q, s) && e2.block_producers@ == slot_layout(s, seed);
    lemma_apportionment_unique(a, q, s1, s2);
    assert forall|x: int| 0 <= x < e1.chunk_producers@.len() implies (#[trigger] e1.chunk_producers@[x])@
        == e2.chunk_producers@[x]@ by {
        let qx = config.block_producers_per_shard@[x] as int;
        assert(assigned_by_stake(t1, qx, seed, e1.chunk_producers@[x]@));
        assert(assigned_by_stake(t2, qx, seed, e2.chunk_producers@[x]@));
        let c1 = choose|s: Seq<usize>| #[trigger] is_apportionment(a, qx, s) && e1.chunk_producers@[x]@ == slot_layout(s, seed);
        let c2 = choose|s: Seq<usize>| #[trigger] is_apportionment(a, qx, s) && e2.chunk_producers@[x]@ == slot_layout(s, seed);
        lemma_apportionment_unique(a, qx, c1, c2);
    }
    let fish = seat_sum(config.avg_fisherman_per_shard@);
    if fish == 0 {
        assert(e1.fishermen@ =~= e2.fishermen@);
    } else {
        let f1 = choose|s: Seq<usize>| #[trigger] is_apportionment(a, fish, s) && e1.fishermen@ == fish_list(s, t1.len() as int);
        let f2 = choose|s: Seq<usize>| #[trigger] is_apportionment(a, fish, s) && e2.fishermen@ == fish_list(s, t2.len() as int);
        lemma_apportionment_unique(a, fish, f1, f2);
    }
    assert(pair_views(e1.validator_reward@) =~= pair_views(e2.validator_reward@));
}

/// Every validator of a derived epoch holds a nonzero stake.
pub proof fn lemma_derived_stakes_nonzero(
    config: EpochConfig,
    rc: RewardCalculator,
    old: Seq<ValidatorStake>,
    stats: Seq<(u64, u64)>,
    slashed: Seq<bool>,
    proposals: Seq<StakeView>,
    total_supply: int,
    gas: int,
    seed: Seq<u8>,
    e: EpochInfo,
)
    requires
        derived(config, rc, old, stats, slashed, proposals, total_supply, gas, seed, e),
    ensures
        forall|i: int| 0 <= i < e.validators@.len() ==> (#[trigger] e.validators@[i]).amount > 0,
{
    let next = coming_validators(config, stake_views(old), stats, slashed, proposals);
    let t = stake_views(e.validators@);
    let folded = fold_proposals(
        keep_active(stake_views(old), kicked_flags(config, stats, slashed, old.len()), old.len() as int),
        proposals,
        stake_views(old),
        kicked_flags(config, stats, slashed, old.len()),
    );
    drop_zero_nonzero(folded);
    assert forall|i: int| 0 <= i < e.validators@.len() implies (#[trigger] e.validators@[i]).amount > 0 by {
        assert(t[i] == e.validators@[i]@);
        assert(t.contains(t[i]));
        assert(t.to_multiset().count(t[i]) > 0);
        assert(next.contains(t[i]));
    }
}

/// Any two epochs that the same block would start after the same parent
/// agree: staging the same block twice stages the same epoch.
pub proof fn lemma_transition_unique(
    m: EpochManager,
    parent: int,
    index: u64,
    new_slashed: Seq<Seq<char>>,
    supply: int,
    seed: Seq<u8>,
    e1: EpochInfo,
    e2: EpochInfo,
)
    requires
        m.transition(parent, index, new_slashed, supply, seed, e1),
        m.transition(parent, index, new_slashed, supply, seed, e2),
    ensures
        stake_views(e1.validators@) == stake_views(e2.validators@),
        e1.block_producers@ == e2.block_producers@,
        e1.chunk_producers@.len() == e2.chunk_producers@.len(),
        forall|x: int|
            0 <= x < e1.chunk_producers@.len() ==> (#[trigger] e1.chunk_producers@[x])@
                == e2.chunk_producers@[x]@,
        e1.fishermen@ == e2.fishermen@,
        pair_views(e1.stake_change@) == pair_views(e2.stake_change@),
        pair_views(e1.validator_reward@) == pair_views(e2.validator_reward@),
        e1.inflation == e2.inflation,
        e1.total_gas_used == e2.total_gas_used,
{
    let chain = m.epoch_chain(parent);
    lemma_derived_unique(
        m.config,
        m.reward_calculator,
        m.epoch_of(parent).validators@,
        m.epoch_stats(parent, index),
        m.epoch_slashed(parent, new_slashed),
        m.epoch_proposals(parent),
        supply,
        m.gas_upto(chain, chain.len() as int),
        seed,
        e1,
        e2,
    );
}

impl EpochManager {
    /// The manager's invariant.
    pub open spec fn wf(&self) -> bool {
        &&& config_ok(self.config, self.reward_calculator)
        &&& self.epochs@.len() > 0
        &&& forall|e: int| 0 <= e < self.epochs@.len() ==> epoch_usable(#[trigger] self.epochs@[e])
        &&& forall|k: int|
            0 <= k < self.blocks@.len() ==> (#[trigger] self.blocks@[k]).epoch_id
                < self.epochs@.len()
        &&& forall|j: int, k: int|
            0 <= j < self.blocks@.len() && 0 <= k < self.blocks@.len() && (#[trigger] self.blocks@[j]).hash@
                == (#[trigger] self.blocks@[k]).hash@ ==> j == k
    }

    /// A block with this hash is in the ledger.
    pub open spec fn recorded(&self, hash: Seq<u8>) -> bool {
        exists|k: int| 0 <= k < self.blocks@.len() && (#[trigger] self.blocks@[k]).hash@ == hash
    }

    /// The ledger holds a block with hash `child` whose parent hash is
    /// `parent`.
    pub open spec fn links(&self, child: Seq<u8>, parent: Seq<u8>) -> bool {
        exists|j: int|
            0 <= j < self.blocks@.len() && (#[trigger] self.blocks@[j]).hash@ == child
                && self.blocks@[j].info.prev_hash@ == parent
    }

    /// The parent hash of the block with hash `h`.
    pub open spec fn parent_hash(&self, h: Seq<u8>) -> Seq<u8> {
        let j = choose|j: int| 0 <= j < self.blocks@.len() && self.blocks@[j].hash@ == h;
        self.blocks@[j].info.prev_hash@
    }

    /// The hash reached from `h` by following `k` parent links.
    pub open spec fn ancestor(&self, h: Seq<u8>, k: nat) -> Seq<u8>
        decreases k,
    {
        if k == 0 {
            h
        } else {
            self.parent_hash(self.ancestor(h, (k - 1) as nat))
        }
    }

    /// A change-set that this manager can commit.
    pub open spec fn fits(&self, cs: ChangeSet) -> bool {
        &&& cs.epoch matches Some(e) ==> epoch_usable(e)
        &&& cs.block matches Some(b) ==> b.epoch_id < self.epochs@.len() + (if cs.epoch is Some {
            1int
        } else {
            0int
        }) && !self.recorded(b.hash@)
    }

    /// Starts a manager whose first epoch is made of `validators`.
    pub fn new(
        config: EpochConfig,
        reward_calculator: RewardCalculator,
        validators: Vec<ValidatorStake>,
    ) -> (r: Result<EpochManager, EpochError>)
        ensures
            !config_ok(config, reward_calculator) ==> r == Err::<EpochManager, EpochError>(
                EpochError::ConfigError,
            ),
            r is Ok <==> config_ok(config, reward_calculator) && epoch_buildable(
                config,
                stake_views(validators@),
            ),
            r matches Err(e) ==> (e == EpochError::ConfigError || e
                == EpochError::InsufficientValidators || e == EpochError::ArithmeticOverflow),
            r matches Ok(m) ==> {
                &&& m.wf()
                &&& m.blocks@.len() == 0
                &&& m.epochs@.len() == 1
                &&& sorted_by_account(stake_views(m.epochs@[0].validators@))
                &&& stake_views(m.epochs@[0].validators@).to_multiset() == stake_views(
                    validators@,
                ).to_multiset()
                &&& m.config == config
                &&& m.reward_calculator == reward_calculator
                &&& m.epochs@[0].block_producers@.len() == config.num_block_producers
                &&& assignments_follow(m.epochs@[0], config, genesis_seed())
            },
            config_ok(config, reward_calculator) ==> (r matches Err(e) ==> (e
                == EpochError::InsufficientValidators <==> total_stake(
                amounts(stake_views(validators@)),
            ) == 0)),
    {
        let shards_ok = config.block_producers_per_shard.len() as u64 == config.num_shards
            && config.avg_fisherman_per_shard.len() as u64 == config.num_shards;
        let rc_ok = reward_calculator.num_blocks_per_year > 0
            && reward_calculator.validator_reward_percentage as u16
            + reward_calculator.protocol_reward_percentage as u16 <= 100;
        if !(config.epoch_length > 0 && shards_ok && rc_ok && config.num_block_producers > 0) {
            return Err(EpochError::ConfigError);
        }
        let seed = [0u8; 32];
        assert(seed@ =~= genesis_seed());
        let genesis = match build_epoch_info(&config, validators, &seed) {
            Ok(e) => e,
            Err(e) => return Err(e),
        };
        let mut epochs: Vec<EpochInfo> = Vec::new();
        epochs.push(genesis);
        Ok(EpochManager { config, reward_calculator, blocks: Vec::new(), epochs })
    }

    /// Position of the block with this hash in the ledger.
    fn find_block(&self, hash: &CryptoHash) -> (r: Option<usize>)
        ensures
            r matches Some(k) ==> k < self.blocks@.len() && self.blocks@[k as int].hash@ == hash@,
            r is None <==> !self.recorded(hash@),
    {
        let mut k: usize = 0;
        while k < self.blocks.len()
            invariant
                0 <= k <= self.blocks@.len(),
                forall|j: int| 0 <= j < k ==> (#[trigger] self.blocks@[j]).hash@ != hash@,
            decreases self.blocks@.len() - k,
        {
            if hash_eq(&self.blocks[k].hash, hash) {
                return Some(k);
            }
            k = k + 1;
        }
        None
    }

    /// The recorded block with this hash.
    pub fn get_block_info(&self, hash: &CryptoHash) -> (r: Result<&BlockInfo, EpochError>)
        ensures
            r is Err <==> !self.recorded(hash@),
            r is Err ==> r == Err::<&BlockInfo, EpochError>(EpochError::BlockInfoMissing),
            r matches Ok(b) ==> exists|k: int|
                0 <= k < self.blocks@.len() && (#[trigger] self.blocks@[k]).hash@ == hash@ && *b
                    == self.blocks@[k].info,
    {
        match self.find_block(hash) {
            Some(k) => Ok(&self.blocks[k].info),
            None => Err(EpochError::BlockInfoMissing),
        }
    }

    /// The epoch with this identifier.
    pub fn get_epoch_info(&self, epoch_id: usize) -> (r: Result<&EpochInfo, EpochError>)
        ensures
            epoch_id < self.epochs@.len() ==> r == Ok::<&EpochInfo, EpochError>(
                &self.epochs@[epoch_id as int],
            ),
            epoch_id >= self.epochs@.len() ==> r == Err::<&EpochInfo, EpochError>(
                EpochError::EpochInfoMissing,
            ),
    {
        if epoch_id < self.epochs.len() {
            Ok(&self.epochs[epoch_id])
        } else {
            Err(EpochError::EpochInfoMissing)
        }
    }

    /// Identifier of the epoch that the block with this hash belongs to.
    pub fn get_epoch_id(&self, hash: &CryptoHash) -> (r: Result<usize, EpochError>)
        ensures
            r is Err <==> !self.recorded(hash@),
            r is Err ==> r == Err::<usize, EpochError>(EpochError::BlockInfoMissing),
            r matches Ok(e) ==> exists|k: int|
                0 <= k < self.blocks@.len() && (#[trigger] self.blocks@[k]).hash@ == hash@ && e
                    == self.blocks@[k].epoch_id,
    {
        match self.find_block(hash) {
            Some(k) => Ok(self.blocks[k].epoch_id),
            None => Err(EpochError::BlockInfoMissing),
        }
    }

    /// Stages the writes for a new block: its ledger entry and, when it
    /// starts a new epoch, that epoch. Nothing is written until the returned
    /// change-set is committed. A block that is already recorded with the
    /// same contents gives an empty change-set.
    pub fn record_block_info(&self, hash: &CryptoHash, info: BlockInfo, seed: &[u8; 32]) -> (r:
        Result<ChangeSet, EpochError>)
        requires
            self.wf(),
        ensures
            self.recorded(hash@) ==> (r matches Ok(cs) ==> cs.is_empty()),
            self.recorded(hash@) ==> (r is Ok <==> exists|k: int|
                0 <= k < self.blocks@.len() && (#[trigger] self.blocks@[k]).hash@ == hash@
                    && same_block(self.blocks@[k].info, info)),
            self.recorded(hash@) && r is Err ==> r == Err::<ChangeSet, EpochError>(
                EpochError::DuplicateBlock,
            ),
            !self.recorded(hash@) && !self.recorded(info.prev_hash@) ==> (if info.index == 0
                && self.blocks@.len() == 0 {
                &&& r is Ok
                &&& r->Ok_0.epoch is None
                &&& r->Ok_0.block is Some
                &&& r->Ok_0.block->Some_0.epoch_id == 0
                &&& r->Ok_0.block->Some_0.epoch_start == 0
            } else {
                r == Err::<ChangeSet, EpochError>(EpochError::BlockInfoMissing)
            }),
            !self.recorded(hash@) ==> (r matches Ok(cs) ==> (cs.block matches Some(b) && b.hash@
                == hash@ && b.info == info)),
            !self.recorded(hash@) && self.recorded(info.prev_hash@) ==> (r matches Ok(cs) ==> (
            cs.block matches Some(b) && exists|k: int|
                0 <= k < self.blocks@.len() && (#[trigger] self.blocks@[k]).hash@
                    == info.prev_hash@ && (cs.epoch is Some <==> starts_epoch(
                    self.blocks@[k],
                    info.index,
                    self.config.epoch_length,
                )) && (cs.epoch is Some ==> b.epoch_id == self.epochs@.len() && b.epoch_start
                    == info.index) && (cs.epoch is None ==> b.epoch_id
                    == self.blocks@[k].epoch_id && b.epoch_start
                    == self.blocks@[k].epoch_start))),
            !self.recorded(hash@) ==> forall|k: int|
                0 <= k < self.blocks@.len() && (#[trigger] self.blocks@[k]).hash@
                    == info.prev_hash@ && !starts_epoch(
                    self.blocks@[k],
                    info.index,
                    self.config.epoch_length,
                ) ==> r is Ok,
            !self.recorded(hash@) ==> forall|k: int|
                0 <= k < self.blocks@.len() && (#[trigger] self.blocks@[k]).hash@
                    == info.prev_hash@ && starts_epoch(
                    self.blocks@[k],
                    info.index,
                    self.config.epoch_length,
                ) ==> (r is Ok <==> self.transition_ok(
                    k,
                    info.index,
                    account_views(info.slashed@),
                    info.total_supply as int,
                )) && (r matches Ok(cs) ==> (cs.epoch is Some && self.transition(
                    k,
                    info.index,
                    account_views(info.slashed@),
                    info.total_supply as int,
                    seed@,
                    cs.epoch->Some_0,
                ))),
            !self.recorded(hash@) && self.recorded(info.prev_hash@) ==> (r matches Err(err) ==> (
            err == EpochError::InsufficientValidators || err == EpochError::ArithmeticOverflow)),
            r matches Ok(cs) ==> self.fits(cs),
            r matches Ok(cs) ==> (cs.epoch matches Some(e) ==> {
                &&& sorted_by_account(stake_views(e.validators@))
                &&& e.block_producers@.len() == self.config.num_block_producers
                &&& e.chunk_producers@.len() == self.config.num_shards
                &&& e.inflation == self.reward_calculator.spec_total_reward(info.total_supply as int)
            }),
    {
        match self.find_block(hash) {
            Some(k) => {
                if same_block_exec(&self.blocks[k].info, &info) {
                    return Ok(ChangeSet { block: None, epoch: None });
                } else {
                    return Err(EpochError::DuplicateBlock);
                }
            },
            None => {},
        }
        let parent = match self.find_block(&info.prev_hash) {
            Some(p) => p,
            None => {
                if info.index == 0 && self.blocks.len() == 0 {
                    let b = StoredBlock { hash: *hash, info, epoch_id: 0, epoch_start: 0 };
                    return Ok(ChangeSet { block: Some(b), epoch: None });
                }
                return Err(EpochError::BlockInfoMissing);
            },
        };
        let pstart = self.blocks[parent].epoch_start;
        let boundary = info.index / self.config.epoch_length > pstart / self.config.epoch_length;
        if boundary {
            assert(info.index >= pstart) by {
                if info.index < pstart {
                    vstd::arithmetic::div_mod::lemma_div_is_ordered(
                        info.index as int,
                        pstart as int,
                        self.config.epoch_length as int,
                    );
                }
            }
        }
        if !boundary {
            let b = StoredBlock {
                hash: *hash,
                info,
                epoch_id: self.blocks[parent].epoch_id,
                epoch_start: pstart,
            };
            return Ok(ChangeSet { block: Some(b), epoch: None });
        }
        let epoch = match self.next_epoch_info(parent, &info, seed) {
            Ok(e) => e,
            Err(err) => return Err(err),
        };
        let index = info.index;
        let b = StoredBlock { hash: *hash, info, epoch_id: self.epochs.len(), epoch_start: index };
        Ok(ChangeSet { block: Some(b), epoch: Some(epoch) })
    }

    /// Position of the block with hash `h` in the ledger.
    pub open spec fn index_of(&self, h: Seq<u8>) -> int {
        choose|j: int| 0 <= j < self.blocks@.len() && self.blocks@[j].hash@ == h
    }

    /// The blocks of an epoch, newest first, from block `k` back along
    /// parent links while heights fall and stay at or above `start`, for at
    /// most `budget` more steps.
    pub open spec fn walk(&self, k: usize, start: u64, budget: nat) -> Seq<usize>
        decreases budget,
    {
        let b = self.blocks@[k as int];
        let p = self.index_of(b.info.prev_hash@);
        if budget == 0 || !self.recorded(b.info.prev_hash@) || !(self.blocks@[p].info.index
            < b.info.index && self.blocks@[p].info.index >= start) {
            seq![k]
        } else {
            seq![k] + self.walk(p as usize, start, (budget - 1) as nat)
        }
    }

    /// The recorded blocks of the epoch that block `parent` closes.
    pub open spec fn epoch_chain(&self, parent: int) -> Seq<usize> {
        let b = self.blocks@[parent];
        if b.info.index >= b.epoch_start {
            self.walk(parent as usize, b.epoch_start, (b.info.index - b.epoch_start) as nat)
        } else {
            Seq::empty()
        }
    }

    /// The epoch that block `parent` belongs to.
    pub open spec fn epoch_of(&self, parent: int) -> EpochInfo {
        self.epochs@[self.blocks@[parent].epoch_id as int]
    }

    /// The validator that slot height `h` of an epoch starting at `start` was
    /// assigned to.
    pub open spec fn slot_owner(bps: Seq<usize>, start: int, h: int) -> int {
        bps[(h - start) % (bps.len() as int)] as int
    }

    /// Blocks validator `v` was expected to produce at heights `start..h`.
    pub open spec fn expected_upto(bps: Seq<usize>, start: int, h: int, v: int) -> int
        decreases h - start,
    {
        if h <= start {
            0
        } else {
            Self::expected_upto(bps, start, h - 1, v) + (if Self::slot_owner(bps, start, h - 1) == v {
                1int
            } else {
                0int
            })
        }
    }

    /// Blocks validator `v` produced among the first `c` blocks of `chain`.
    pub open spec fn produced_upto(&self, chain: Seq<usize>, bps: Seq<usize>, start: int, c: int, v: int) -> int
        decreases c,
    {
        if c <= 0 {
            0
        } else {
            let h = self.blocks@[chain[c - 1] as int].info.index as int;
            self.produced_upto(chain, bps, start, c - 1, v) + (if h >= start && Self::slot_owner(
                bps,
                start,
                h,
            ) == v {
                1int
            } else {
                0int
            })
        }
    }

    /// Gas used by the first `c` blocks of `chain`.
    pub open spec fn gas_upto(&self, chain: Seq<usize>, c: int) -> int
        decreases c,
    {
        if c <= 0 {
            0
        } else {
            self.gas_upto(chain, c - 1) + self.blocks@[chain[c - 1] as int].info.gas_used
        }
    }

    /// Accounts slashed in the first `c` blocks of `chain`.
    pub open spec fn slashed_upto(&self, chain: Seq<usize>, c: int) -> Seq<Seq<char>>
        decreases c,
    {
        if c <= 0 {
            Seq::empty()
        } else {
            self.slashed_upto(chain, c - 1) + account_views(
                self.blocks@[chain[c - 1] as int].info.slashed@,
            )
        }
    }

    /// Proposals of the blocks `chain[c..]`, oldest block first.
    pub open spec fn proposals_from(&self, chain: Seq<usize>, c: int) -> Seq<StakeView>
        decreases chain.len() - c,
    {
        if c >= chain.len() || c < 0 {
            Seq::empty()
        } else {
            self.proposals_from(chain, c + 1) + stake_views(
                self.blocks@[chain[c] as int].info.proposals@,
            )
        }
    }

    /// No production counter and no gas sum leaves 64 bits while the
    /// finished epoch's blocks are counted.
    pub open spec fn counts_fit(&self, parent: int) -> bool {
        let chain = self.epoch_chain(parent);
        let bps = self.epoch_of(parent).block_producers@;
        let start = self.blocks@[parent].epoch_start as int;
        &&& forall|c: int, v: int|
            0 <= c <= chain.len() && 0 <= v < self.epoch_of(parent).validators@.len()
                ==> #[trigger] self.produced_upto(chain, bps, start, c, v) <= u64::MAX
        &&& forall|c: int| 0 <= c <= chain.len() ==> #[trigger] self.gas_upto(chain, c) <= u64::MAX
    }

    /// Produced and expected blocks of each validator of the finished epoch.
    pub open spec fn epoch_stats(&self, parent: int, index: u64) -> Seq<(u64, u64)> {
        let chain = self.epoch_chain(parent);
        let e = self.epoch_of(parent);
        let start = self.blocks@[parent].epoch_start as int;
        Seq::new(
            e.validators@.len(),
            |v: int|
                (
                    self.produced_upto(chain, e.block_producers@, start, chain.len() as int, v) as u64,
                    Self::expected_upto(e.block_producers@, start, index as int, v) as u64,
                ),
        )
    }

    /// Whether each validator of the finished epoch was slashed in one of its
    /// blocks or in the new block's slashed set `new_slashed`.
    pub open spec fn epoch_slashed(&self, parent: int, new_slashed: Seq<Seq<char>>) -> Seq<bool> {
        let chain = self.epoch_chain(parent);
        let all = self.slashed_upto(chain, chain.len() as int) + new_slashed;
        let e = self.epoch_of(parent);
        Seq::new(e.validators@.len(), |v: int| all.contains(e.validators@[v].account_id@))
    }

    /// The proposals of the finished epoch, in chain order.
    pub open spec fn epoch_proposals(&self, parent: int) -> Seq<StakeView> {
        self.proposals_from(self.epoch_chain(parent), 0)
    }

    /// The epoch that a block at `index` with slashed set `new_slashed` and
    /// supply `supply` would start after block `parent` can be derived.
    pub open spec fn transition_ok(&self, parent: int, index: u64, new_slashed: Seq<Seq<char>>, supply: int) -> bool {
        &&& self.counts_fit(parent)
        &&& derivable(
            self.config,
            self.reward_calculator,
            self.epoch_of(parent).validators@,
            self.epoch_stats(parent, index),
            self.epoch_slashed(parent, new_slashed),
            self.epoch_proposals(parent),
            supply,
        )
    }

    /// `e` is the epoch that such a block starts.
    pub open spec fn transition(
        &self,
        parent: int,
        index: u64,
        new_slashed: Seq<Seq<char>>,
        supply: int,
        seed: Seq<u8>,
        e: EpochInfo,
    ) -> bool {
        let chain = self.epoch_chain(parent);
        derived(
            self.config,
            self.reward_calculator,
            self.epoch_of(parent).validators@,
            self.epoch_stats(parent, index),
            self.epoch_slashed(parent, new_slashed),
            self.epoch_proposals(parent),
            supply,
            self.gas_upto(chain, chain.len() as int),
            seed,
            e,
        )
    }

    /// Derives the epoch that a block at `info.index` starts, from the epoch
    /// of its parent: production counts, kickout, proposals, seats, rewards.
    fn next_epoch_info(&self, parent: usize, info: &BlockInfo, seed: &[u8; 32]) -> (r: Result<
        EpochInfo,
        EpochError,
    >)
        requires
            self.wf(),
            parent < self.blocks@.len(),
            self.blocks@[parent as int].epoch_start <= info.index,
        ensures
            r is Ok <==> self.transition_ok(parent as int, info.index, account_views(info.slashed@), info.total_supply as int),
            r matches Err(err) ==> (err == EpochError::InsufficientValidators || err
                == EpochError::ArithmeticOverflow),
            r matches Ok(e) ==> self.transition(parent as int, info.index, account_views(info.slashed@), info.total_supply as int, seed@, e),
    {
        let start = self.blocks[parent].epoch_start;
        let prev = &self.epochs[self.blocks[parent].epoch_id];
        let ghost ep = self.epoch_of(parent as int);
        let n = prev.validators.len();
        let bps = &prev.block_producers;
        let len = bps.len() as u64;
        let mut produced: Vec<u64> = Vec::new();
        let mut expected: Vec<u64> = Vec::new();
        let mut i: usize = 0;
        while i < n
            invariant
                0 <= i <= n,
                produced@.len() == i,
                expected@.len() == i,
                forall|v: int| 0 <= v < i ==> #[trigger] produced@[v] == 0,
                forall|v: int| 0 <= v < i ==> #[trigger] expected@[v] == 0,
            decreases n - i,
        {
            produced.push(0);
            expected.push(0);
            i = i + 1;
        }
        let mut h: u64 = start;
        while h < info.index
            invariant
                self.wf(),
                *prev == ep,
                epoch_usable(*prev),
                n == prev.validators@.len(),
                bps@ == prev.block_producers@,
                len == bps@.len(),
                start <= h <= info.index,
                produced@.len() == n,
                expected@.len() == n,
                forall|v: int| 0 <= v < n ==> #[trigger] produced@[v] == 0,
                forall|v: int|
                    0 <= v < n ==> #[trigger] expected@[v] == Self::expected_upto(
                        bps@,
                        start as int,
                        h as int,
                        v,
                    ) && expected@[v] <= h - start,
            decreases info.index - h,
        {
            let off = (h - start) % len;
            let bl = bps.len();
            assert(off < bl);
            let idx = off as usize;
            assert(idx as int == (h as int - start as int) % (len as int));
            let slot = bps[idx];
            let ghost old_e = expected@;
            expected.set(slot, expected[slot] + 1);
            assert forall|v: int| 0 <= v < n implies #[trigger] expected@[v] == Self::expected_upto(
                bps@,
                start as int,
                h as int + 1,
                v,
            ) && expected@[v] <= h + 1 - start by {
                assert(Self::slot_owner(bps@, start as int, h as int) == slot as int);
            }
            h = h + 1;
        }
        // Walk back over the blocks of the finished epoch, newest first.
        let ghost full = self.epoch_chain(parent as int);
        let mut chain: Vec<usize> = Vec::new();
        let mut cur = parent;
        let mut more = self.blocks[parent].info.index >= start;
        let mut budget: u64 = if more {
            self.blocks[parent].info.index - start
        } else {
            0
        };
        while more
            invariant
                self.wf(),
                cur < self.blocks@.len(),
                forall|j: int| 0 <= j < chain@.len() ==> #[trigger] chain@[j] < self.blocks@.len(),
                more ==> chain@ + self.walk(cur, start, budget as nat) == full,
                !more ==> chain@ == full,
            decreases budget as int + (if more {
                1int
            } else {
                0int
            }),
        {
            let ghost rest = self.walk(cur, start, budget as nat);
            let ghost before = chain@;
            chain.push(cur);
            if budget == 0 {
                more = false;
                assert(chain@ =~= before + rest);
            } else {
                let h_cur = self.blocks[cur].info.index;
                match self.find_block(&self.blocks[cur].info.prev_hash) {
                    Some(p) => {
                        let h_p = self.blocks[p].info.index;
                        proof {
                            let q = self.index_of(self.blocks@[cur as int].info.prev_hash@);
                            assert(self.blocks@[q].hash@ == self.blocks@[p as int].hash@);
                        }
                        if h_p < h_cur && h_p >= start {
                            assert(rest == seq![cur] + self.walk(p, start, (budget - 1) as nat));
                            assert(chain@ + self.walk(p, start, (budget - 1) as nat) =~= before + rest);
                            cur = p;
                            budget = budget - 1;
                        } else {
                            more = false;
                            assert(chain@ =~= before + rest);
                        }
                    },
                    None => {
                        more = false;
                        assert(chain@ =~= before + rest);
                    },
                }
            }
        }
        let mut gas: Gas = 0;
        let mut slashed: Vec<AccountId> = Vec::new();
        let mut c: usize = 0;
        while c < chain.len()
            invariant
                self.wf(),
                *prev == ep,
                epoch_usable(*prev),
                n == prev.validators@.len(),
                bps@ == prev.block_producers@,
                len == bps@.len(),
                chain@ == full,
                full == self.epoch_chain(parent as int),
                ep == self.epoch_of(parent as int),
                parent < self.blocks@.len(),
                start == self.blocks@[parent as int].epoch_start,
                forall|j: int| 0 <= j < chain@.len() ==> #[trigger] chain@[j] < self.blocks@.len(),
                produced@.len() == n,
                expected@.len() == n,
                0 <= c <= chain@.len(),
                forall|v: int|
                    0 <= v < n ==> #[trigger] produced@[v] == self.produced_upto(
                        full,
                        bps@,
                        start as int,
                        c as int,
                        v,
                    ),
                forall|cc: int, v: int|
                    0 <= cc <= c && 0 <= v < n ==> #[trigger] self.produced_upto(
                        full,
                        bps@,
                        start as int,
                        cc,
                        v,
                    ) <= u64::MAX,
                forall|cc: int| 0 <= cc <= c ==> #[trigger] self.gas_upto(full, cc) <= u64::MAX,
                gas as int == self.gas_upto(full, c as int),
                account_views(slashed@) == self.slashed_upto(full, c as int),
            decreases chain@.len() - c,
        {
            let b = &self.blocks[chain[c]].info;
            let ghost old_p = produced@;
            if b.index >= start {
                let off = (b.index - start) % len;
                let bl = bps.len();
                assert(off < bl);
                let idx = off as usize;
                assert(idx as int == (b.index as int - start as int) % (len as int));
                let slot = bps[idx];
                proof {
                    assert(Self::slot_owner(bps@, start as int, b.index as int) == slot as int);
                }
                produced.set(slot, match produced[slot].checked_add(1) {
                    Some(v) => v,
                    None => {
                        assert(prev.block_producers@[idx as int] < prev.validators@.len());
                        assert(self.produced_upto(full, bps@, start as int, c as int + 1, slot as int) > u64::MAX);
                        assert(self.epoch_of(parent as int).block_producers@ == bps@);
                        assert(!self.counts_fit(parent as int));
                        return Err(EpochError::ArithmeticOverflow);
                    },
                });
            }
            assert forall|v: int| 0 <= v < n implies #[trigger] produced@[v] == self.produced_upto(
                full,
                bps@,
                start as int,
                c as int + 1,
                v,
            ) by {
                if b.index >= start {
                    assert(Self::slot_owner(bps@, start as int, b.index as int) == bps@[((b.index as int
                        - start as int) % (len as int))] as int);
                }
            }
            assert forall|v: int| 0 <= v < n implies #[trigger] self.produced_upto(
                full,
                bps@,
                start as int,
                c as int + 1,
                v,
            ) <= u64::MAX by {
                assert(produced@[v] == self.produced_upto(full, bps@, start as int, c as int + 1, v));
            }
            gas = match gas.checked_add(b.gas_used) {
                Some(v) => v,
                None => {
                    assert(self.gas_upto(full, c as int + 1) > u64::MAX);
                    assert(!self.counts_fit(parent as int));
                    return Err(EpochError::ArithmeticOverflow);
                },
            };
            let ghost before_s = slashed@;
            let mut a: usize = 0;
            while a < b.slashed.len()
                invariant
                    0 <= a <= b.slashed@.len(),
                    account_views(slashed@) == account_views(before_s) + account_views(b.slashed@).subrange(0, a as int),
                decreases b.slashed@.len() - a,
            {
                let ghost pre = slashed@;
                slashed.push(b.slashed[a].clone());
                assert(account_views(slashed@) =~= account_views(pre).push(b.slashed@[a as int]@));
                assert(account_views(b.slashed@).subrange(0, a as int + 1) =~= account_views(
                    b.slashed@,
                ).subrange(0, a as int).push(b.slashed@[a as int]@));
                a = a + 1;
                assert(account_views(slashed@) =~= account_views(before_s) + account_views(b.slashed@).subrange(0, a as int));
            }
            assert(account_views(b.slashed@).subrange(0, b.slashed@.len() as int) =~= account_views(b.slashed@));
            c = c + 1;
        }
        let ghost chain_slashed = slashed@;
        let mut a: usize = 0;
        while a < info.slashed.len()
            invariant
                0 <= a <= info.slashed@.len(),
                account_views(slashed@) == account_views(chain_slashed) + account_views(info.slashed@).subrange(0, a as int),
            decreases info.slashed@.len() - a,
        {
            let ghost pre = slashed@;
            slashed.push(info.slashed[a].clone());
            assert(account_views(slashed@) =~= account_views(pre).push(info.slashed@[a as int]@));
            assert(account_views(info.slashed@).subrange(0, a as int + 1) =~= account_views(
                info.slashed@,
            ).subrange(0, a as int).push(info.slashed@[a as int]@));
            a = a + 1;
            assert(account_views(slashed@) =~= account_views(chain_slashed) + account_views(info.slashed@).subrange(0, a as int));
        }
        assert(account_views(info.slashed@).subrange(0, info.slashed@.len() as int) =~= account_views(info.slashed@));
        // Proposals in chain order, oldest block first.
        let mut proposals: Vec<ValidatorStake> = Vec::new();
        let mut c: usize = chain.len();
        while c > 0
            invariant
                chain@ == full,
                forall|j: int| 0 <= j < chain@.len() ==> #[trigger] chain@[j] < self.blocks@.len(),
                0 <= c <= chain@.len(),
                stake_views(proposals@) == self.proposals_from(full, c as int),
            decreases c,
        {
            c = c - 1;
            let b = &self.blocks[chain[c]].info;
            let ghost before_p = stake_views(proposals@);
            let mut q: usize = 0;
            while q < b.proposals.len()
                invariant
                    0 <= q <= b.proposals@.len(),
                    stake_views(proposals@) == before_p + stake_views(b.proposals@).subrange(0, q as int),
                decreases b.proposals@.len() - q,
            {
                let ghost pre = proposals@;
                proposals.push(b.proposals[q].copy());
                assert(stake_views(proposals@) =~= stake_views(pre).push(b.proposals@[q as int]@));
                assert(stake_views(b.proposals@).subrange(0, q as int + 1) =~= stake_views(
                    b.proposals@,
                ).subrange(0, q as int).push(b.proposals@[q as int]@));
                q = q + 1;
                assert(stake_views(proposals@) =~= before_p + stake_views(b.proposals@).subrange(0, q as int));
            }
            assert(stake_views(b.proposals@).subrange(0, b.proposals@.len() as int) =~= stake_views(b.proposals@));
        }
        let mut stats: Vec<(u64, u64)> = Vec::new();
        let mut flags: Vec<bool> = Vec::new();
        let ghost all = account_views(slashed@);
        i = 0;
        while i < n
            invariant
                n == prev.validators@.len(),
                produced@.len() == n,
                expected@.len() == n,
                0 <= i <= n,
                stats@.len() == i,
                flags@.len() == i,
                forall|v: int| 0 <= v < i ==> #[trigger] stats@[v] == (produced@[v], expected@[v]),
                forall|v: int| 0 <= v < i ==> #[trigger] flags@[v] == all.contains(prev.validators@[v].account_id@),
                all == account_views(slashed@),
            decreases n - i,
        {
            stats.push((produced[i], expected[i]));
            let f = contains_account(&slashed, &prev.validators[i].account_id);
            proof {
                if f {
                    let x = choose|x: int| 0 <= x < slashed@.len() && (#[trigger] slashed@[x])@ == prev.validators@[i as int].account_id@;
                    assert(all[x] == prev.validators@[i as int].account_id@);
                }
            }
            flags.push(f);
            i = i + 1;
        }
        assert(stats@ =~= self.epoch_stats(parent as int, info.index));
        assert(flags@ =~= self.epoch_slashed(parent as int, account_views(info.slashed@)));
        assert(stake_views(proposals@) == self.epoch_proposals(parent as int));
        derive_epoch(
            &self.config,
            &self.reward_calculator,
            &prev.validators,
            &stats,
            &flags,
            &proposals,
            info.total_supply,
            gas,
            seed,
        )
    }

    /// The hashes of the last `n` blocks of the chain that ends at `hash`,
    /// newest first, found by following parent hashes.
    pub fn ancestor_chain(&self, hash: &CryptoHash, n: usize) -> (r: Result<
        Vec<CryptoHash>,
        EpochError,
    >)
        requires
            self.wf(),
        ensures
            r is Ok <==> forall|k: nat| k < n ==> self.recorded(#[trigger] self.ancestor(hash@, k)),
            n > 0 && !self.recorded(hash@) ==> r == Err::<Vec<CryptoHash>, EpochError>(
                EpochError::BlockInfoMissing,
            ),
            r is Err && self.recorded(hash@) ==> r == Err::<Vec<CryptoHash>, EpochError>(
                EpochError::ChainTooShort,
            ),
            r matches Ok(v) ==> {
                &&& v@.len() == n
                &&& forall|k: int| 0 <= k < n ==> (#[trigger] v@[k])@ == self.ancestor(hash@, k as nat)
                &&& forall|k: int| 0 <= k < n - 1 ==> #[trigger] self.links(v@[k]@, v@[k + 1]@)
            },
    {
        let mut v: Vec<CryptoHash> = Vec::new();
        if n == 0 {
            return Ok(v);
        }
        let mut cur = match self.find_block(hash) {
            Some(k) => k,
            None => {
                assert(!self.recorded(self.ancestor(hash@, 0)));
                return Err(EpochError::BlockInfoMissing);
            },
        };
        v.push(*hash);
        while v.len() < n
            invariant
                self.wf(),
                self.recorded(hash@),
                1 <= v@.len() <= n,
                cur < self.blocks@.len(),
                self.blocks@[cur as int].hash@ == v@[v@.len() - 1]@,
                forall|k: int| 0 <= k < v@.len() ==> (#[trigger] v@[k])@ == self.ancestor(hash@, k as nat),
                forall|k: nat| k < v@.len() ==> self.recorded(#[trigger] self.ancestor(hash@, k)),
                forall|k: int|
                    0 <= k < v@.len() - 1 ==> #[trigger] self.links(v@[k]@, v@[k + 1]@),
            decreases n - v@.len(),
        {
            let prev = self.blocks[cur].info.prev_hash;
            let ghost last = (v@.len() - 1) as nat;
            proof {
                let x = self.ancestor(hash@, last);
                let j = choose|j: int| 0 <= j < self.blocks@.len() && self.blocks@[j].hash@ == x;
                assert(j == cur);
                assert(self.ancestor(hash@, last + 1) == prev@);
            }
            cur = match self.find_block(&prev) {
                Some(k) => k,
                None => {
                    assert(!self.recorded(self.ancestor(hash@, last + 1)));
                    return Err(EpochError::ChainTooShort);
                },
            };
            let ghost before = v@;
            proof {
                assert(self.links(before[last as int]@, prev@));
            }
            v.push(prev);
            assert(forall|k: int| 0 <= k < before.len() ==> v@[k] == before[k]);
        }
        Ok(v)
    }

    /// Applies every write of the change-set at once, or none of them when it
    /// does not fit this manager.
    pub fn commit(&mut self, cs: ChangeSet) -> (r: Result<(), EpochError>)
        requires
            old(self).wf(),
        ensures
            final(self).wf(),
            final(self).config == old(self).config,
            final(self).reward_calculator == old(self).reward_calculator,
            r is Ok <==> old(self).fits(cs),
            r is Err ==> r == Err::<(), EpochError>(EpochError::StorageError),
            r is Err || cs.is_empty() ==> final(self).blocks@ == old(self).blocks@
                && final(self).epochs@ == old(self).epochs@,
            r is Ok ==> final(self).blocks@ == old(self).blocks@ + (match cs.block {
                Some(b) => seq![b],
                None => Seq::empty(),
            }),
            r is Ok ==> final(self).epochs@ == old(self).epochs@ + (match cs.epoch {
                Some(e) => seq![e],
                None => Seq::empty(),
            }),
    {
        let grows: usize = if cs.epoch.is_some() {
            1
        } else {
            0
        };
        let block_ok = match &cs.block {
            Some(b) => (b.epoch_id < grows || b.epoch_id - grows < self.epochs.len())
                && self.find_block(&b.hash).is_none(),
            None => true,
        };
        let epoch_ok = match &cs.epoch {
            Some(e) => e.block_producers.len() > 0 && epoch_indices_sound(e),
            None => true,
        };
        if !(block_ok && epoch_ok) {
            return Err(EpochError::StorageError);
        }
        match cs.epoch {
            Some(e) => self.epochs.push(e),
            None => {},
        }
        let ghost before = self.blocks@;
        match cs.block {
            Some(b) => self.blocks.push(b),
            None => {},
        }
        assert forall|j: int, k: int|
            0 <= j < self.blocks@.len() && 0 <= k < self.blocks@.len() && (
            #[trigger] self.blocks@[j]).hash@ == (#[trigger] self.blocks@[k]).hash@ implies j
            == k by {
            if j < before.len() && k < before.len() {
                assert(before[j] == self.blocks@[j] && before[k] == self.blocks@[k]);
            } else if j < before.len() {
                assert(before[j] == self.blocks@[j]);
            } else if k < before.len() {
                assert(before[k] == self.blocks@[k]);
            }
        }
        assert(forall|k: int|
            0 <= k < self.blocks@.len() ==> (#[trigger] self.blocks@[k]).epoch_id
                < self.epochs@.len());
        Ok(())
    }
}

/// Once a block is committed, the ledger holds it under its hash with the
/// same contents; recording it again then stages nothing, and committing
/// that empty change-set changes nothing.
pub proof fn lemma_committed_block_is_recorded(
    before: EpochManager,
    after: EpochManager,
    b: StoredBlock,
)
    requires
        after.blocks@ == before.blocks@ + seq![b],
    ensures
        after.recorded(b.hash@),
        exists|k: int|
            0 <= k < after.blocks@.len() && (#[trigger] after.blocks@[k]).hash@ == b.hash@
                && same_block(after.blocks@[k].info, b.info),
{
    let k = before.blocks@.len() as int;
    assert(after.blocks@[k] == b);
}

/// Whether `account` is in `list`.
fn contains_account(list: &Vec<AccountId>, account: &AccountId) -> (r: bool)
    ensures
        r == exists|i: int| 0 <= i < list@.len() && (#[trigger] list@[i])@ == account@,
{
    let mut i: usize = 0;
    while i < list.len()
        invariant
            0 <= i <= list@.len(),
            forall|j: int| 0 <= j < i ==> (#[trigger] list@[j])@ != account@,
        decreases list@.len() - i,
    {
        if list[i] == *account {
            return true;
        }
        i = i + 1;
    }
    false
}

/// Whether every index the epoch's assignments refer to names a validator.
fn epoch_indices_sound(e: &EpochInfo) -> (r: bool)
    ensures
        r == e.wf(),
{
    let n = e.validators.len();
    let mut k: usize = 0;
    while k < e.block_producers.len()
        invariant
            n == e.validators@.len(),
            0 <= k <= e.block_producers@.len(),
            forall|j: int| 0 <= j < k ==> #[trigger] e.block_producers@[j] < n,
        decreases e.block_producers@.len() - k,
    {
        if e.block_producers[k] >= n {
            return false;
        }
        k = k + 1;
    }
    let mut s: usize = 0;
    while s < e.chunk_producers.len()
        invariant
            n == e.validators@.len(),
            forall|j: int| 0 <= j < e.block_producers@.len() ==> #[trigger] e.block_producers@[j] < n,
            0 <= s <= e.chunk_producers@.len(),
            forall|t: int, j: int|
                0 <= t < s && 0 <= j < e.chunk_producers@[t]@.len() ==> #[trigger] e.chunk_producers@[t]@[j]
                    < n,
        decreases e.chunk_producers@.len() - s,
    {
        let row = &e.chunk_producers[s];
        let mut j: usize = 0;
        while j < row.len()
            invariant
                n == e.validators@.len(),
                0 <= s < e.chunk_producers@.len(),
                row@ == e.chunk_producers@[s as int]@,
                0 <= j <= row@.len(),
                forall|x: int| 0 <= x < j ==> #[trigger] row@[x] < n,
            decreases row@.len() - j,
        {
            if row[j] >= n {
                assert(e.chunk_producers@[s as int]@[j as int] >= n);
                return false;
            }
            j = j + 1;
        }
        s = s + 1;
    }
    let mut f: usize = 0;
    while f < e.fishermen.len()
        invariant
            n == e.validators@.len(),
            forall|j: int| 0 <= j < e.block_producers@.len() ==> #[trigger] e.block_producers@[j] < n,
            forall|t: int, j: int|
                0 <= t < e.chunk_producers@.len() && 0 <= j < e.chunk_producers@[t]@.len()
                    ==> #[trigger] e.chunk_producers@[t]@[j] < n,
            0 <= f <= e.fishermen@.len(),
            forall|j: int| 0 <= j < f ==> (#[trigger] e.fishermen@[j]).0 < n,
        decreases e.fishermen@.len() - f,
    {
        if e.fishermen[f].0 >= n {
            return false;
        }
        f = f + 1;
    }
    true
}

} // verus!
