//! Inflation reward for an epoch and its split between the protocol
//! treasury and the validators that produced blocks.
use vstd::prelude::*;
use vstd::arithmetic::div_mod::{lemma_div_by_multiple, lemma_div_denominator, lemma_div_is_ordered};

use crate::types::{AccountId, Balance, EpochError};

verus! {

/// How much is minted per epoch and who receives it.
pub struct RewardCalculator {
    /// Largest yearly inflation, in percent of the total supply.
    pub max_inflation_rate: u8,
    pub num_blocks_per_year: u64,
    pub epoch_length: u64,
    /// Share of an epoch's reward paid to validators, in percent.
    pub validator_reward_percentage: u8,
    /// Share of an epoch's reward paid to the treasury, in percent.
    pub protocol_reward_percentage: u8,
    pub protocol_treasury_account: AccountId,
}

/// The outcome of one epoch's reward computation.
pub struct RewardSplit {
    pub total_reward: Balance,
    pub protocol_share: Balance,
    /// One entry per validator, in the order of the production statistics.
    pub validator_rewards: Vec<Balance>,
    /// What integer division left over; it goes to the treasury.
    pub remainder: Balance,
}

pub open spec fn min_int(a: int, b: int) -> int {
    if a <= b { a } else { b }
}

/// Reward of one validator that produced `produced` of its `expected` blocks,
/// out of a pool shared by `n` validators.
pub open spec fn validator_reward(pool: int, produced: int, expected: int, n: int) -> int {
    if expected == 0 || n == 0 {
        0
    } else {
        (pool * min_int(produced, expected)) / (expected * n)
    }
}

/// Sum of the first `k` validator rewards.
pub open spec fn rewards_sum(pool: int, stats: Seq<(u64, u64)>, k: int) -> int
    decreases k,
{
    if k <= 0 {
        0
    } else {
        rewards_sum(pool, stats, k - 1) + validator_reward(
            pool,
            stats[k - 1].0 as int,
            stats[k - 1].1 as int,
            stats.len() as int,
        )
    }
}

pub open spec fn seq_sum(s: Seq<u128>) -> int
    decreases s.len(),
{
    if s.len() == 0 {
        0
    } else {
        seq_sum(s.drop_last()) + s.last()
    }
}

/// Rewards listed one by one add up to `rewards_sum`.
pub(crate) proof fn rewards_sum_matches(s: Seq<u128>, pool: int, stats: Seq<(u64, u64)>, k: int)
    requires
        s.len() == stats.len(),
        0 <= k <= s.len(),
        forall|i: int|
            0 <= i < s.len() ==> #[trigger] s[i] == validator_reward(
                pool,
                stats[i].0 as int,
                stats[i].1 as int,
                stats.len() as int,
            ),
    ensures
        seq_sum(s.subrange(0, k)) == rewards_sum(pool, stats, k),
    decreases k,
{
    if k > 0 {
        rewards_sum_matches(s, pool, stats, k - 1);
        assert(s.subrange(0, k).drop_last() =~= s.subrange(0, k - 1));
    }
}

pub(crate) proof fn seq_sum_nonneg(s: Seq<u128>)
    ensures
        seq_sum(s) >= 0,
    decreases s.len(),
{
    if s.len() > 0 {
        seq_sum_nonneg(s.drop_last());
    }
}

/// Some validator's share of the pool cannot be computed in 128 bits.
pub open spec fn rewards_overflow(pool: int, stats: Seq<(u64, u64)>) -> bool {
    exists|i: int|
        0 <= i < stats.len() && (#[trigger] stats[i]).1 > 0 && pool * min_int(
            stats[i].0 as int,
            stats[i].1 as int,
        ) > u128::MAX
}

impl RewardCalculator {
    /// Percentages fit in one hundred and a year has blocks.
    pub open spec fn wf(&self) -> bool {
        &&& self.num_blocks_per_year > 0
        &&& self.validator_reward_percentage + self.protocol_reward_percentage <= 100
    }

    pub open spec fn supply_overflows(&self, total_supply: int) -> bool {
        total_supply * self.max_inflation_rate > u128::MAX || total_supply
            * self.max_inflation_rate * self.epoch_length > u128::MAX
    }

    /// Inflation minted in one epoch, truncated toward zero.
    pub open spec fn spec_total_reward(&self, total_supply: int) -> int {
        (total_supply * self.max_inflation_rate * self.epoch_length) / (self.num_blocks_per_year
            * 100)
    }

    pub open spec fn spec_protocol_share(&self, total: int) -> int {
        total * self.protocol_reward_percentage / 100
    }

    pub open spec fn spec_validator_pool(&self, total: int) -> int {
        total * self.validator_reward_percentage / 100
    }

    /// Computes the epoch's inflation and how it is split. `stats` holds, for
    /// each validator, the blocks it produced and the blocks it was expected to
    /// produce.
    pub fn calculate_reward(&self, stats: &Vec<(u64, u64)>, total_supply: Balance) -> (r: Result<
        RewardSplit,
        EpochError,
    >)
        requires
            self.wf(),
        ensures
            r is Err <==> (self.supply_overflows(total_supply as int) || (!self.supply_overflows(
                total_supply as int,
            ) && rewards_overflow(
                self.spec_validator_pool(self.spec_total_reward(total_supply as int)),
                stats@,
            ))),
            r is Err ==> r == Err::<RewardSplit, EpochError>(EpochError::ArithmeticOverflow),
            r matches Ok(s) ==> {
                let total = self.spec_total_reward(total_supply as int);
                let pool = self.spec_validator_pool(total);
                &&& s.total_reward == total
                &&& s.protocol_share == self.spec_protocol_share(total)
                &&& s.validator_rewards@.len() == stats@.len()
                &&& forall|i: int|
                    0 <= i < stats@.len() ==> #[trigger] s.validator_rewards@[i]
                        == validator_reward(
                        pool,
                        stats@[i].0 as int,
                        stats@[i].1 as int,
                        stats@.len() as int,
                    )
                &&& s.protocol_share + seq_sum(s.validator_rewards@) + s.remainder
                    == s.total_reward
            },
    {
        let rate = self.max_inflation_rate as u128;
        let by_rate = match total_supply.checked_mul(rate) {
            Some(v) => v,
            None => return Err(EpochError::ArithmeticOverflow),
        };
        let minted = match by_rate.checked_mul(self.epoch_length as u128) {
            Some(v) => v,
            None => return Err(EpochError::ArithmeticOverflow),
        };
        let total = minted / (self.num_blocks_per_year as u128 * 100);
        proof {
            total_fits_percent(minted as int, self.num_blocks_per_year as int);
            let t = total as int;
            assert(t * (self.protocol_reward_percentage as int) <= t * 100 && t * (
            self.validator_reward_percentage as int) <= t * 100) by (nonlinear_arith)
                requires
                    t >= 0,
                    self.protocol_reward_percentage <= 100,
                    self.validator_reward_percentage <= 100,
            ;
        }
        let protocol_share = (total * (self.protocol_reward_percentage as u128)) / 100;
        let pool = (total * (self.validator_reward_percentage as u128)) / 100;
        proof {
            reward_shares_fit(self, total as int);
        }
        let n = stats.len();
        let mut rewards: Vec<Balance> = Vec::new();
        let mut paid: u128 = 0;
        let mut i: usize = 0;
        while i < n
            invariant
                n == stats@.len(),
                0 <= i <= n,
                pool as int == self.spec_validator_pool(total as int),
                total as int == self.spec_total_reward(total_supply as int),
                !self.supply_overflows(total_supply as int),
                pool as int + protocol_share as int <= total as int,
                rewards@.len() == i,
                forall|j: int|
                    0 <= j < i ==> #[trigger] rewards@[j] == validator_reward(
                        pool as int,
                        stats@[j].0 as int,
                        stats@[j].1 as int,
                        n as int,
                    ),
                paid as int == seq_sum(rewards@),
                paid as int == rewards_sum(pool as int, stats@, i as int),
                paid as int <= i * (pool as int / n as int),
                forall|j: int|
                    0 <= j < i ==> !(#[trigger] stats@[j].1 > 0 && pool * min_int(
                        stats@[j].0 as int,
                        stats@[j].1 as int,
                    ) > u128::MAX),
            decreases n - i,
        {
            let (produced, expected) = stats[i];
            let share: u128 = if expected == 0 {
                0
            } else {
                let done = if produced < expected { produced } else { expected };
                let weighted = match pool.checked_mul(done as u128) {
                    Some(v) => v,
                    None => {
                        assert(stats@[i as int].1 > 0);
                        assert(rewards_overflow(pool as int, stats@));
                        return Err(EpochError::ArithmeticOverflow);
                    },
                };
                proof {
                    assert((expected as int) * (n as int) <= u64::MAX * usize::MAX)
                        by (nonlinear_arith)
                        requires
                            expected as int <= u64::MAX,
                            n as int <= usize::MAX,
                            0 <= expected,
                            0 <= n,
                    ;
                    share_le_even_split(pool as int, done as int, expected as int, n as int);
                    assert((expected as int) * (n as int) > 0) by (nonlinear_arith)
                        requires
                            expected > 0,
                            n > 0,
                    ;
                }
                weighted / (expected as u128 * n as u128)
            };
            proof {
                assert(share as int <= pool as int / n as int);
                assert((i + 1) * (pool as int / n as int) == i * (pool as int / n as int) + (
                pool as int / n as int)) by (nonlinear_arith);
                assert((i + 1) * (pool as int / n as int) <= pool) by (nonlinear_arith)
                    requires
                        i + 1 <= n,
                        n > 0,
                        pool >= 0,
                ;
            }
            let ghost before = rewards@;
            rewards.push(share);
            proof {
                assert(rewards@.drop_last() =~= before);
            }
            paid = paid + share;
            i = i + 1;
        }
        assert(!rewards_overflow(pool as int, stats@));
        proof {
            if n > 0 {
                assert(n * (pool as int / n as int) <= pool as int) by (nonlinear_arith)
                    requires
                        n > 0,
                        pool >= 0,
                ;
            }
        }
        let remainder = total - protocol_share - paid;
        Ok(RewardSplit { total_reward: total, protocol_share, validator_rewards: rewards, remainder })
    }
}

/// Dividing by a year's blocks times one hundred leaves room for a percentage.
proof fn total_fits_percent(minted: int, blocks: int)
    requires
        0 <= minted <= u128::MAX,
        blocks > 0,
    ensures
        (minted / (blocks * 100)) * 100 <= u128::MAX,
{
    lemma_div_denominator(minted, 100, blocks);
    assert(100 * blocks == blocks * 100) by (nonlinear_arith);
    assert((minted / 100) * 100 <= minted) by (nonlinear_arith)
        requires
            minted >= 0,
    ;
    lemma_div_is_ordered(minted / 100 / blocks, minted / 100, 1);
    assert(minted / 100 / blocks <= minted / 100) by (nonlinear_arith)
        requires
            minted >= 0,
            blocks > 0,
    ;
    assert((minted / 100 / blocks) * 100 <= (minted / 100) * 100) by (nonlinear_arith)
        requires
            minted / 100 / blocks <= minted / 100,
    ;
}

/// The treasury share and the validators' rewards never exceed the epoch's
/// reward, so the treasury's share, the validators' rewards and the remainder
/// add up to it exactly; with no inflation nothing is minted at all.
pub proof fn lemma_reward_conservation(
    calc: RewardCalculator,
    stats: Seq<(u64, u64)>,
    total_supply: nat,
)
    requires
        calc.wf(),
    ensures
        ({
            let total = calc.spec_total_reward(total_supply as int);
            let pool = calc.spec_validator_pool(total);
            &&& 0 <= rewards_sum(pool, stats, stats.len() as int)
            &&& calc.spec_protocol_share(total) + rewards_sum(pool, stats, stats.len() as int)
                <= total
        }),
        calc.max_inflation_rate == 0 ==> calc.spec_total_reward(total_supply as int) == 0,
{
    let total = calc.spec_total_reward(total_supply as int);
    let pool = calc.spec_validator_pool(total);
    let n = stats.len() as int;
    assert(total >= 0) by (nonlinear_arith)
        requires
            total == (total_supply * calc.max_inflation_rate * calc.epoch_length) / (
            calc.num_blocks_per_year * 100),
            calc.num_blocks_per_year > 0,
    ;
    if calc.max_inflation_rate == 0 {
        assert(total_supply * calc.max_inflation_rate * calc.epoch_length == 0) by (nonlinear_arith)
            requires
                calc.max_inflation_rate == 0,
        ;
    }
    reward_shares_fit(&calc, total);
    rewards_sum_bounded(pool, stats, n);
    if n > 0 {
        assert(n * (pool / n) <= pool) by (nonlinear_arith)
            requires
                n > 0,
                pool >= 0,
        ;
    }
}

/// The first `k` rewards add up to at most `k` even splits of the pool.
proof fn rewards_sum_bounded(pool: int, stats: Seq<(u64, u64)>, k: int)
    requires
        pool >= 0,
        0 <= k <= stats.len(),
    ensures
        0 <= rewards_sum(pool, stats, k),
        stats.len() > 0 ==> rewards_sum(pool, stats, k) <= k * (pool / stats.len() as int),
    decreases k,
{
    let n = stats.len() as int;
    if k > 0 {
        rewards_sum_bounded(pool, stats, k - 1);
        let p = stats[k - 1].0 as int;
        let e = stats[k - 1].1 as int;
        if e > 0 {
            share_le_even_split(pool, min_int(p, e), e, n);
            assert((pool * min_int(p, e)) / (e * n) >= 0) by (nonlinear_arith)
                requires
                    pool >= 0,
                    min_int(p, e) >= 0,
                    e > 0,
                    n > 0,
            ;
        }
        assert(k * (pool / n) == (k - 1) * (pool / n) + pool / n) by (nonlinear_arith);
    }
}

/// A share never exceeds an even split of the pool.
proof fn share_le_even_split(pool: int, done: int, expected: int, n: int)
    requires
        pool >= 0,
        0 <= done <= expected,
        expected > 0,
        n > 0,
    ensures
        (pool * done) / (expected * n) <= pool / n,
{
    assert(pool * done <= pool * expected) by (nonlinear_arith)
        requires
            pool >= 0,
            done <= expected,
    ;
    assert(expected * n > 0) by (nonlinear_arith)
        requires
            expected > 0,
            n > 0,
    ;
    lemma_div_is_ordered(pool * done, pool * expected, expected * n);
    lemma_div_denominator(pool * expected, expected, n);
    assert(pool * expected == expected * pool) by (nonlinear_arith);
    lemma_div_by_multiple(pool, expected);
}

/// The treasury share and the validator pool together fit in the total.
proof fn reward_shares_fit(calc: &RewardCalculator, total: int)
    requires
        calc.wf(),
        total >= 0,
    ensures
        calc.spec_protocol_share(total) + calc.spec_validator_pool(total) <= total,
        calc.spec_protocol_share(total) >= 0,
        calc.spec_validator_pool(total) >= 0,
{
    let p = calc.protocol_reward_percentage as int;
    let v = calc.validator_reward_percentage as int;
    assert(total * p / 100 + total * v / 100 <= total) by (nonlinear_arith)
        requires
            p + v <= 100,
            p >= 0,
            v >= 0,
            total >= 0,
    ;
    assert(total * p / 100 >= 0 && total * v / 100 >= 0) by (nonlinear_arith)
        requires
            p >= 0,
            v >= 0,
            total >= 0,
    ;
}

} // verus!
