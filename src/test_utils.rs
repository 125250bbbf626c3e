//! Builders for configurations, validator sets and managers, with the
//! defaults that tests and tools share.
use vstd::prelude::*;

use crate::crypto::{ed25519_public_key_of, hash_bytes, public_key_from_seed, sha256_of};
use crate::manager::{
    account_views, assignments_follow, genesis_seed, same_block, starts_epoch, EpochManager,
};
use crate::order::amounts;
use crate::sampler::{seat_sum, seats_overflow, total_stake};
use crate::order::{sort_by_account, sorted_by_account};
use crate::reward::RewardCalculator;
use crate::types::{
    AccountId, Balance, BlockIndex, BlockInfo, CryptoHash, EpochConfig, EpochError, EpochInfo,
    Gas, ShardId, StakeView, ValidatorStake, ValidatorWeight, stake_views,
};

verus! {

pub const DEFAULT_GAS_PRICE: u128 = 100;

pub const DEFAULT_TOTAL_SUPPLY: u128 = 1_000_000_000_000;

/// The hashes of the one-byte strings `0, 1, ..., num - 1`.
pub fn hash_range(num: usize) -> (r: Vec<CryptoHash>)
    ensures
        r@.len() == num,
        forall|i: int| 0 <= i < num ==> (#[trigger] r@[i])@ == sha256_of(seq![(i % 256) as u8]),
{
    let mut result: Vec<CryptoHash> = Vec::new();
    let mut i: usize = 0;
    while i < num
        invariant
            0 <= i <= num,
            result@.len() == i,
            forall|j: int| 0 <= j < i ==> (#[trigger] result@[j])@ == sha256_of(seq![(j % 256) as u8]),
        decreases num - i,
    {
        let byte = vec![(i % 256) as u8];
        assert(byte@ =~= seq![(i % 256) as u8]);
        result.push(hash_bytes(byte.as_slice()));
        i = i + 1;
    }
    result
}

/// The amount of the last pair for `key`, if any.
pub open spec fn last_value(pairs: Seq<(&str, Balance)>, key: Seq<char>) -> Option<Balance>
    decreases pairs.len(),
{
    if pairs.len() == 0 {
        None
    } else if pairs.last().0@ == key {
        Some(pairs.last().1)
    } else {
        last_value(pairs.drop_last(), key)
    }
}

/// `r` maps each account of `pairs` once, to the amount of its last pair.
pub open spec fn keyed_by_last(pairs: Seq<(&str, Balance)>, r: Seq<(AccountId, Balance)>) -> bool {
    &&& forall|i: int, j: int|
        0 <= i < r.len() && 0 <= j < r.len() && i != j ==> (#[trigger] r[i]).0@ != (
        #[trigger] r[j]).0@
    &&& forall|i: int| 0 <= i < r.len() ==> last_value(pairs, (#[trigger] r[i]).0@) == Some(r[i].1)
    &&& forall|k: int|
        0 <= k < pairs.len() ==> exists|j: int| 0 <= j < r.len() && (#[trigger] r[j]).0@ == (
        #[trigger] pairs[k]).0@
}

/// Each account's new stake: one entry per account, the last pair winning.
pub fn change_stake(stake_changes: Vec<(&str, Balance)>) -> (r: Vec<(AccountId, Balance)>)
    ensures
        keyed_by_last(stake_changes@, r@),
{
    last_per_account(&stake_changes)
}

fn last_per_account(pairs: &Vec<(&str, Balance)>) -> (r: Vec<(AccountId, Balance)>)
    ensures
        keyed_by_last(pairs@, r@),
{
    let mut r: Vec<(AccountId, Balance)> = Vec::new();
    let mut i: usize = 0;
    while i < pairs.len()
        invariant
            0 <= i <= pairs@.len(),
            keyed_by_last(pairs@.subrange(0, i as int), r@),
        decreases pairs@.len() - i,
    {
        let ghost pre = pairs@.subrange(0, i as int);
        let ghost post = pairs@.subrange(0, i as int + 1);
        proof {
            assert(post.drop_last() =~= pre);
        }
        let (account, amount) = pairs[i];
        let key = account.to_owned();
        let mut j: usize = 0;
        let mut found = false;
        while j < r.len() && !found
            invariant
                0 <= j <= r@.len(),
                !found ==> forall|x: int| 0 <= x < j ==> (#[trigger] r@[x]).0@ != key@,
                found ==> j < r@.len() && r@[j as int].0@ == key@,
            decreases r@.len() - j + (if found { 0int } else { 1int }),
        {
            if r[j].0 == key {
                found = true;
            } else {
                j = j + 1;
            }
        }
        let ghost old_r = r@;
        if found {
            r.set(j, (key, amount));
            proof {
                assert forall|x: int| 0 <= x < r@.len() implies last_value(post, (#[trigger] r@[x]).0@)
                    == Some(r@[x].1) by {
                    if x != j {
                        assert(r@[x] == old_r[x]);
                    }
                }
                assert forall|k: int| 0 <= k < post.len() implies exists|y: int|
                    0 <= y < r@.len() && (#[trigger] r@[y]).0@ == (#[trigger] post[k]).0@ by {
                    if k < pre.len() {
                        assert(post[k] == pre[k]);
                        let y = choose|y: int| 0 <= y < old_r.len() && (#[trigger] old_r[y]).0@ == pre[k].0@;
                        assert(r@[y].0@ == old_r[y].0@);
                    } else {
                        assert(r@[j as int].0@ == post[k].0@);
                    }
                }
            }
        } else {
            r.push((key, amount));
            proof {
                assert forall|x: int| 0 <= x < r@.len() implies last_value(post, (#[trigger] r@[x]).0@)
                    == Some(r@[x].1) by {
                    if x < old_r.len() {
                        assert(r@[x] == old_r[x]);
                    }
                }
                assert forall|k: int| 0 <= k < post.len() implies exists|y: int|
                    0 <= y < r@.len() && (#[trigger] r@[y]).0@ == (#[trigger] post[k]).0@ by {
                    if k < pre.len() {
                        assert(post[k] == pre[k]);
                        let y = choose|y: int| 0 <= y < old_r.len() && (#[trigger] old_r[y]).0@ == pre[k].0@;
                        assert(r@[y] == old_r[y]);
                    } else {
                        assert(r@[old_r.len() as int].0@ == post[k].0@);
                    }
                }
                assert forall|x: int, y: int|
                    0 <= x < r@.len() && 0 <= y < r@.len() && x != y implies (#[trigger] r@[x]).0@ != (
                    #[trigger] r@[y]).0@ by {
                    if x < old_r.len() {
                        assert(r@[x] == old_r[x]);
                    }
                    if y < old_r.len() {
                        assert(r@[y] == old_r[y]);
                    }
                }
            }
        }
        i = i + 1;
    }
    assert(pairs@.subrange(0, pairs@.len() as int) =~= pairs@);
    r
}

/// The stakes that `stake` builds from account and amount pairs.
pub open spec fn stakes_of(pairs: Seq<(&str, Balance)>) -> Seq<StakeView> {
    Seq::new(
        pairs.len(),
        |i: int| (pairs[i].0@, ed25519_public_key_of(pairs[i].0@), pairs[i].1),
    )
}

/// A stake whose public key is derived from the account identifier.
pub fn stake(account_id: &str, amount: Balance) -> (r: ValidatorStake)
    ensures
        r@ == (account_id@, ed25519_public_key_of(account_id@), amount),
{
    let public_key = public_key_from_seed(account_id);
    ValidatorStake::new(account_id.to_owned(), public_key, amount)
}

/// An epoch with the given validators, in the given order, and assignments.
pub fn epoch_info(
    accounts: Vec<(&str, Balance)>,
    block_producers: Vec<usize>,
    chunk_producers: Vec<Vec<usize>>,
    fishermen: Vec<ValidatorWeight>,
    stake_change: Vec<(AccountId, Balance)>,
    total_gas_used: Gas,
    validator_reward: Vec<(AccountId, Balance)>,
    inflation: u128,
) -> (r: EpochInfo)
    ensures
        sorted_by_account(stake_views(r.validators@)),
        stake_views(r.validators@).to_multiset() == stakes_of(accounts@).to_multiset(),
        r.block_producers@ == block_producers@,
        r.chunk_producers@ == chunk_producers@,
        r.fishermen@ == fishermen@,
        r.stake_change@ == stake_change@,
        r.total_gas_used == total_gas_used,
        r.validator_reward@ == validator_reward@,
        r.inflation == inflation,
{
    let mut validators: Vec<ValidatorStake> = Vec::new();
    let mut i: usize = 0;
    while i < accounts.len()
        invariant
            0 <= i <= accounts@.len(),
            validators@.len() == i,
            forall|j: int|
                0 <= j < i ==> (#[trigger] validators@[j])@ == (
                    accounts@[j].0@,
                    ed25519_public_key_of(accounts@[j].0@),
                    accounts@[j].1,
                ),
        decreases accounts@.len() - i,
    {
        let (account, amount) = accounts[i];
        validators.push(stake(account, amount));
        i = i + 1;
    }
    assert(stake_views(validators@) =~= stakes_of(accounts@));
    EpochInfo {
        validators: sort_by_account(validators),
        block_producers,
        chunk_producers,
        fishermen,
        stake_change,
        total_gas_used,
        validator_reward,
        inflation,
    }
}

/// A configuration with the same quotas on every shard.
pub fn epoch_config(
    epoch_length: BlockIndex,
    num_shards: ShardId,
    num_block_producers: usize,
    num_fisherman: usize,
    validator_kickout_threshold: u8,
) -> (r: EpochConfig)
    ensures
        r.epoch_length == epoch_length,
        r.num_shards == num_shards,
        r.num_block_producers == num_block_producers,
        r.block_producers_per_shard@ == Seq::new(num_shards as nat, |_s: int| num_block_producers),
        r.avg_fisherman_per_shard@ == Seq::new(num_shards as nat, |_s: int| num_fisherman),
        r.validator_kickout_threshold == validator_kickout_threshold,
        epoch_length > 0 ==> r.wf(),
{
    let mut block_producers_per_shard: Vec<usize> = Vec::new();
    let mut avg_fisherman_per_shard: Vec<usize> = Vec::new();
    let mut s: u64 = 0;
    while s < num_shards
        invariant
            0 <= s <= num_shards,
            block_producers_per_shard@ == Seq::new(s as nat, |_s: int| num_block_producers),
            avg_fisherman_per_shard@ == Seq::new(s as nat, |_s: int| num_fisherman),
        decreases num_shards - s,
    {
        block_producers_per_shard.push(num_block_producers);
        avg_fisherman_per_shard.push(num_fisherman);
        s = s + 1;
        assert(block_producers_per_shard@ =~= Seq::new(s as nat, |_s: int| num_block_producers));
        assert(avg_fisherman_per_shard@ =~= Seq::new(s as nat, |_s: int| num_fisherman));
    }
    EpochConfig {
        epoch_length,
        num_shards,
        num_block_producers,
        block_producers_per_shard,
        avg_fisherman_per_shard,
        validator_kickout_threshold,
    }
}

pub fn reward_calculator(
    max_inflation_rate: u8,
    num_blocks_per_year: u64,
    epoch_length: u64,
    validator_reward_percentage: u8,
    protocol_reward_percentage: u8,
    protocol_treasury_account: AccountId,
) -> (r: RewardCalculator)
    ensures
        r.max_inflation_rate == max_inflation_rate,
        r.num_blocks_per_year == num_blocks_per_year,
        r.epoch_length == epoch_length,
        r.validator_reward_percentage == validator_reward_percentage,
        r.protocol_reward_percentage == protocol_reward_percentage,
        r.protocol_treasury_account == protocol_treasury_account,
{
    RewardCalculator {
        max_inflation_rate,
        num_blocks_per_year,
        epoch_length,
        validator_reward_percentage,
        protocol_reward_percentage,
        protocol_treasury_account,
    }
}

/// A calculator that mints nothing.
pub fn default_reward_calculator() -> (r: RewardCalculator)
    ensures
        r.wf(),
        r.max_inflation_rate == 0,
        r.num_blocks_per_year == 1,
        r.epoch_length == 1,
        r.validator_reward_percentage == 0,
        r.protocol_reward_percentage == 0,
        r.protocol_treasury_account@ == "near"@,
        forall|supply: int| r.spec_total_reward(supply) == 0,
{
    let r = RewardCalculator {
        max_inflation_rate: 0,
        num_blocks_per_year: 1,
        epoch_length: 1,
        validator_reward_percentage: 0,
        protocol_reward_percentage: 0,
        protocol_treasury_account: "near".to_owned(),
    };
    proof {
        reveal_strlit("near");
    }
    r
}

/// Each account's reward: one entry per account, the last pair winning.
pub fn reward(info: Vec<(&str, Balance)>) -> (r: Vec<(AccountId, Balance)>)
    ensures
        keyed_by_last(info@, r@),
{
    last_per_account(&info)
}

/// Seats can be assigned to validators `t` with the same quotas on every
/// shard: there is stake, its total fits in 128 bits, and no stake times the
/// seat count or the summed fisherman quota leaves 128 bits.
pub open spec fn uniform_buildable(t: Seq<StakeView>, seats: int, shards: int, fisherman: int) -> bool {
    let a = amounts(t);
    let fish = seat_sum(Seq::new(shards as nat, |_s: int| fisherman as usize));
    &&& 0 < total_stake(a) <= u128::MAX
    &&& !seats_overflow(a, seats)
    &&& fish <= usize::MAX
    &&& (fish > 0 ==> !seats_overflow(a, fish))
}

/// A manager over the given validators, with the same quotas on every shard.
pub fn setup_epoch_manager(
    validators: Vec<(&str, Balance)>,
    epoch_length: BlockIndex,
    num_shards: ShardId,
    num_seats: usize,
    num_fisherman: usize,
    kickout_threshold: u8,
    reward_calculator: RewardCalculator,
) -> (r: Result<EpochManager, EpochError>)
    ensures
        r matches Ok(m) ==> {
            &&& m.wf()
            &&& m.epochs@.len() == 1
            &&& m.blocks@.len() == 0
            &&& m.reward_calculator == reward_calculator
            &&& sorted_by_account(stake_views(m.epochs@[0].validators@))
            &&& stake_views(m.epochs@[0].validators@).to_multiset() == stakes_of(
                validators@,
            ).to_multiset()
            &&& m.config.epoch_length == epoch_length
            &&& m.config.num_shards == num_shards
            &&& m.config.num_block_producers == num_seats
            &&& m.config.block_producers_per_shard@ == Seq::new(num_shards as nat, |_s: int| num_seats)
            &&& m.config.avg_fisherman_per_shard@ == Seq::new(num_shards as nat, |_s: int| num_fisherman)
            &&& m.config.validator_kickout_threshold == kickout_threshold
            &&& m.epochs@[0].block_producers@.len() == num_seats
            &&& m.epochs@[0].chunk_producers@.len() == num_shards
            &&& assignments_follow(m.epochs@[0], m.config, genesis_seed())
        },
        r is Ok <==> (epoch_length > 0 && num_seats > 0 && reward_calculator.wf()
            && uniform_buildable(stakes_of(validators@), num_seats as int, num_shards as int, num_fisherman as int)),
        epoch_length == 0 || num_seats == 0 || !reward_calculator.wf() ==> r
            == Err::<EpochManager, EpochError>(EpochError::ConfigError),
        r matches Err(e) ==> (e == EpochError::ConfigError || e == EpochError::InsufficientValidators || e == EpochError::ArithmeticOverflow),
        epoch_length > 0 && num_seats > 0 && reward_calculator.wf() ==> (r matches Err(e) ==> (e
            == EpochError::InsufficientValidators <==> total_stake(amounts(stakes_of(validators@))) == 0)),
{
    let config = epoch_config(epoch_length, num_shards, num_seats, num_fisherman, kickout_threshold);
    let mut stakes: Vec<ValidatorStake> = Vec::new();
    let mut i: usize = 0;
    while i < validators.len()
        invariant
            0 <= i <= validators@.len(),
            stakes@.len() == i,
            forall|j: int|
                0 <= j < i ==> (#[trigger] stakes@[j])@ == (
                    validators@[j].0@,
                    ed25519_public_key_of(validators@[j].0@),
                    validators@[j].1,
                ),
        decreases validators@.len() - i,
    {
        let (account, amount) = validators[i];
        stakes.push(stake(account, amount));
        i = i + 1;
    }
    assert(stake_views(stakes@) =~= stakes_of(validators@));
    assert(config.avg_fisherman_per_shard@ =~= Seq::new(num_shards as nat, |_s: int| num_fisherman as usize));
    EpochManager::new(config, reward_calculator, stakes)
}

/// A manager over the given validators that mints nothing.
pub fn setup_default_epoch_manager(
    validators: Vec<(&str, Balance)>,
    epoch_length: BlockIndex,
    num_shards: ShardId,
    num_seats: usize,
    num_fisherman: usize,
    kickout_threshold: u8,
) -> (r: Result<EpochManager, EpochError>)
    ensures
        r matches Ok(m) ==> {
            &&& m.wf()
            &&& m.epochs@.len() == 1
            &&& m.blocks@.len() == 0
            &&& m.reward_calculator.max_inflation_rate == 0
            &&& sorted_by_account(stake_views(m.epochs@[0].validators@))
            &&& stake_views(m.epochs@[0].validators@).to_multiset() == stakes_of(
                validators@,
            ).to_multiset()
            &&& m.config.epoch_length == epoch_length
            &&& m.config.num_shards == num_shards
            &&& m.config.num_block_producers == num_seats
            &&& m.config.block_producers_per_shard@ == Seq::new(num_shards as nat, |_s: int| num_seats)
            &&& m.config.avg_fisherman_per_shard@ == Seq::new(num_shards as nat, |_s: int| num_fisherman)
            &&& m.config.validator_kickout_threshold == kickout_threshold
            &&& m.epochs@[0].block_producers@.len() == num_seats
            &&& m.epochs@[0].chunk_producers@.len() == num_shards
            &&& assignments_follow(m.epochs@[0], m.config, genesis_seed())
        },
        r is Ok <==> (epoch_length > 0 && num_seats > 0
            && uniform_buildable(stakes_of(validators@), num_seats as int, num_shards as int, num_fisherman as int)),
        epoch_length == 0 || num_seats == 0 ==> r == Err::<EpochManager, EpochError>(
            EpochError::ConfigError,
        ),
        r matches Err(e) ==> (e == EpochError::ConfigError || e == EpochError::InsufficientValidators || e == EpochError::ArithmeticOverflow),
        epoch_length > 0 && num_seats > 0 ==> (r matches Err(e) ==> (e
            == EpochError::InsufficientValidators <==> total_stake(amounts(stakes_of(validators@))) == 0)),
{
    setup_epoch_manager(
        validators,
        epoch_length,
        num_shards,
        num_seats,
        num_fisherman,
        kickout_threshold,
        default_reward_calculator(),
    )
}

/// `info` is the block `record_block` records: the given height, parent and
/// proposals, no mask or slashing, no gas used, the default gas price and
/// supply.
pub open spec fn is_default_block(
    info: BlockInfo,
    index: BlockIndex,
    prev: Seq<u8>,
    proposals: Seq<StakeView>,
) -> bool {
    &&& info.index == index
    &&& info.prev_hash@ == prev
    &&& stake_views(info.proposals@) == proposals
    &&& info.validator_mask@.len() == 0
    &&& info.slashed@.len() == 0
    &&& info.gas_used == 0
    &&& info.gas_price == DEFAULT_GAS_PRICE
    &&& info.total_supply == DEFAULT_TOTAL_SUPPLY
}

/// Records a block with the default gas price and supply and an all-zero
/// seed, and commits it at once.
pub fn record_block(
    epoch_manager: &mut EpochManager,
    prev_h: CryptoHash,
    cur_h: CryptoHash,
    index: BlockIndex,
    proposals: Vec<ValidatorStake>,
) -> (r: Result<(), EpochError>)
    requires
        old(epoch_manager).wf(),
    ensures
        final(epoch_manager).wf(),
        final(epoch_manager).config == old(epoch_manager).config,
        final(epoch_manager).reward_calculator == old(epoch_manager).reward_calculator,
        r is Err ==> final(epoch_manager).blocks@ == old(epoch_manager).blocks@
            && final(epoch_manager).epochs@ == old(epoch_manager).epochs@,
        old(epoch_manager).recorded(cur_h@) ==> (r is Ok <==> exists|k: int|
            0 <= k < old(epoch_manager).blocks@.len() && (#[trigger] old(
                epoch_manager,
            ).blocks@[k]).hash@ == cur_h@ && is_default_block(
                old(epoch_manager).blocks@[k].info,
                index,
                prev_h@,
                stake_views(proposals@),
            )),
        old(epoch_manager).recorded(cur_h@) ==> (r is Ok ==> final(epoch_manager).blocks@ == old(
            epoch_manager,
        ).blocks@ && final(epoch_manager).epochs@ == old(epoch_manager).epochs@),
        !old(epoch_manager).recorded(cur_h@) && r is Ok ==> {
            &&& final(epoch_manager).blocks@.len() == old(epoch_manager).blocks@.len() + 1
            &&& final(epoch_manager).blocks@.drop_last() == old(epoch_manager).blocks@
            &&& final(epoch_manager).blocks@.last().hash@ == cur_h@
            &&& is_default_block(
                final(epoch_manager).blocks@.last().info,
                index,
                prev_h@,
                stake_views(proposals@),
            )
        },
        !old(epoch_manager).recorded(cur_h@) && !old(epoch_manager).recorded(prev_h@) ==> (r is Ok
            <==> index == 0 && old(epoch_manager).blocks@.len() == 0) && (r is Ok ==> final(epoch_manager).epochs@ == old(
            epoch_manager,
        ).epochs@),
        !old(epoch_manager).recorded(cur_h@) ==> forall|k: int|
            0 <= k < old(epoch_manager).blocks@.len() && (#[trigger] old(
                epoch_manager,
            ).blocks@[k]).hash@ == prev_h@ ==> if starts_epoch(
                old(epoch_manager).blocks@[k],
                index,
                old(epoch_manager).config.epoch_length,
            ) {
                &&& (r is Ok <==> old(epoch_manager).transition_ok(
                    k,
                    index,
                    Seq::empty(),
                    DEFAULT_TOTAL_SUPPLY as int,
                ))
                &&& (r is Ok ==> old(epoch_manager).transition(
                    k,
                    index,
                    Seq::empty(),
                    DEFAULT_TOTAL_SUPPLY as int,
                    genesis_seed(),
                    final(epoch_manager).epochs@.last(),
                ))
                &&& r is Ok ==> {
                    let e = final(epoch_manager).epochs@.last();
                    &&& final(epoch_manager).epochs@.drop_last() == old(epoch_manager).epochs@
                    &&& final(epoch_manager).blocks@.last().epoch_id == old(
                        epoch_manager,
                    ).epochs@.len()
                    &&& sorted_by_account(stake_views(e.validators@))
                    &&& e.block_producers@.len() == old(epoch_manager).config.num_block_producers
                    &&& e.chunk_producers@.len() == old(epoch_manager).config.num_shards
                    &&& e.inflation == old(epoch_manager).reward_calculator.spec_total_reward(
                        DEFAULT_TOTAL_SUPPLY as int,
                    )
                }
            } else {
                &&& r is Ok
                &&& final(epoch_manager).epochs@ == old(epoch_manager).epochs@
                &&& final(epoch_manager).blocks@.last().epoch_id == old(
                    epoch_manager,
                ).blocks@[k].epoch_id
            },
{
    let info = BlockInfo::new(
        index,
        prev_h,
        proposals,
        Vec::new(),
        Vec::new(),
        0,
        DEFAULT_GAS_PRICE,
        DEFAULT_TOTAL_SUPPLY,
    );
    proof {
        assert forall|x: BlockInfo| #[trigger] same_block(x, info) == is_default_block(
            x,
            index,
            prev_h@,
            stake_views(proposals@),
        ) by {
            assert(info.validator_mask@ =~= Seq::<bool>::empty());
            assert(account_views(info.slashed@) =~= Seq::<Seq<char>>::empty());
            if x.validator_mask@.len() == 0 {
                assert(x.validator_mask@ =~= Seq::<bool>::empty());
            }
            if x.slashed@.len() == 0 {
                assert(account_views(x.slashed@) =~= Seq::<Seq<char>>::empty());
            }
        }
    }
    let seed = [0u8; 32];
    assert(seed@ =~= genesis_seed());
    assert(account_views(info.slashed@) =~= Seq::<Seq<char>>::empty());
    let cs = match epoch_manager.record_block_info(&cur_h, info, &seed) {
        Ok(cs) => cs,
        Err(e) => return Err(e),
    };
    let ghost before = epoch_manager.blocks@;
    let ghost staged = cs.block;
    match epoch_manager.commit(cs) {
        Ok(()) => {},
        Err(e) => return Err(e),
    }
    proof {
        if staged is Some {
            assert(epoch_manager.blocks@.drop_last() =~= before);
        }
    }
    Ok(())
}

} // verus!
