use epoch_manager::kickout::{compute_kickout, next_validators};
use epoch_manager::manager::{derive_epoch, ChangeSet};
use epoch_manager::reward::RewardCalculator;
use epoch_manager::sampler::{assign_seats, layout_slots};
use epoch_manager::test_utils::{
    change_stake, default_reward_calculator, epoch_config, epoch_info, hash_range, record_block,
    reward, reward_calculator, setup_default_epoch_manager, setup_epoch_manager, stake,
    DEFAULT_TOTAL_SUPPLY,
};
use epoch_manager::types::{BlockInfo, EpochError, ValidatorStake};

fn calc(rate: u8, validator_pct: u8, protocol_pct: u8) -> RewardCalculator {
    reward_calculator(rate, 1_000_000, 10, validator_pct, protocol_pct, "treasury".to_string())
}

fn amounts(v: &Vec<ValidatorStake>) -> Vec<(String, u128)> {
    v.iter().map(|s| (s.account_id.clone(), s.amount)).collect()
}

fn count(slots: &Vec<usize>, who: usize) -> usize {
    slots.iter().filter(|&&s| s == who).count()
}

#[test]
fn reward_exact_split() {
    let c = calc(5, 80, 10);
    let split = c.calculate_reward(&vec![(1, 1), (0, 1)], 1_000_000_000_000).unwrap();
    assert_eq!(split.total_reward, 500_000);
    assert_eq!(split.protocol_share, 50_000);
    assert_eq!(split.validator_rewards, vec![200_000, 0]);
    assert_eq!(split.remainder, 250_000);
}

#[test]
fn reward_parts_add_up() {
    let c = calc(7, 60, 25);
    let stats = vec![(3, 4), (4, 4), (1, 7), (0, 0)];
    let split = c.calculate_reward(&stats, 123_456_789_012_345).unwrap();
    let paid: u128 = split.validator_rewards.iter().sum();
    assert_eq!(split.protocol_share + paid + split.remainder, split.total_reward);
    assert_eq!(split.validator_rewards[3], 0);
}

#[test]
fn reward_zero_inflation_mints_nothing() {
    let c = default_reward_calculator();
    let split = c.calculate_reward(&vec![(5, 5)], DEFAULT_TOTAL_SUPPLY).unwrap();
    assert_eq!(split.total_reward, 0);
    assert_eq!(split.validator_rewards, vec![0]);
    assert_eq!(split.remainder, 0);
    assert_eq!(c.protocol_treasury_account, "near");
}

#[test]
fn reward_overflow_is_reported() {
    let c = calc(5, 80, 10);
    let r = c.calculate_reward(&vec![(1, 1)], u128::MAX);
    assert!(matches!(r, Err(EpochError::ArithmeticOverflow)));
}

#[test]
fn seats_scenario_four_validators_two_seats() {
    let seats = assign_seats(&vec![80, 40, 40, 40], 2).unwrap();
    assert_eq!(seats, vec![1, 1, 0, 0]);
    let again = assign_seats(&vec![80, 40, 40, 40], 2).unwrap();
    assert_eq!(seats, again);
}

#[test]
fn seats_largest_remainder_and_conservation() {
    assert_eq!(assign_seats(&vec![3, 3, 3], 10).unwrap(), vec![4, 3, 3]);
    assert_eq!(assign_seats(&vec![10, 30, 60], 7).unwrap(), vec![1, 2, 4]);
    let seats = assign_seats(&vec![17, 5, 9, 1, 33], 13).unwrap();
    assert_eq!(seats.iter().sum::<usize>(), 13);
}

#[test]
fn seats_need_stake() {
    assert_eq!(assign_seats(&vec![], 3), Err(EpochError::InsufficientValidators));
    assert_eq!(assign_seats(&vec![0, 0], 3), Err(EpochError::InsufficientValidators));
    assert_eq!(assign_seats(&vec![u128::MAX, 1], 3), Err(EpochError::ArithmeticOverflow));
    assert_eq!(assign_seats(&vec![u128::MAX / 2, 1], 3), Err(EpochError::ArithmeticOverflow));
}

#[test]
fn layout_keeps_seat_counts_across_seeds() {
    let seats = assign_seats(&vec![80, 40, 40, 40], 2).unwrap();
    let a = layout_slots(&seats, &[0u8; 32]);
    let b = layout_slots(&seats, &[1u8; 32]);
    // Step 1 swaps slot 1 with (seed[1] * 256 + seed[10] + 1) % 2.
    assert_eq!(a, vec![0, 1]);
    assert_eq!(b, vec![1, 0]);
    assert_eq!(layout_slots(&seats, &[0u8; 32]), a);
    for who in 0..4 {
        assert_eq!(count(&a, who), seats[who]);
        assert_eq!(count(&b, who), seats[who]);
    }
}

#[test]
fn layout_interleaves_seats() {
    let seats = vec![3, 3];
    let mut seed = [0u8; 32];
    for (i, b) in seed.iter_mut().enumerate() {
        *b = (i * 37 + 11) as u8;
    }
    let slots = layout_slots(&seats, &seed);
    assert_eq!(slots.len(), 6);
    assert_eq!(count(&slots, 0), 3);
    assert_eq!(count(&slots, 1), 3);
    assert_ne!(slots, vec![0, 0, 0, 1, 1, 1]);
}

#[test]
fn kickout_by_threshold_and_slash() {
    let stats = vec![(8, 10), (9, 10), (0, 0), (10, 10)];
    let kicked = compute_kickout(&stats, &vec![false, false, false, true], 90);
    assert_eq!(kicked, vec![true, false, false, true]);
}

#[test]
fn next_validators_apply_proposals_and_kickout() {
    let old = vec![stake("a", 10), stake("b", 20), stake("c", 30)];
    let kicked = vec![false, true, false];
    let proposals = vec![stake("c", 35), stake("b", 50), stake("d", 5), stake("a", 0)];
    let next = next_validators(&old, &kicked, &proposals);
    assert_eq!(amounts(&next), vec![("c".to_string(), 35), ("d".to_string(), 5)]);
    let old_total: u128 = 60;
    let kicked_stake: u128 = 20;
    let deltas: i128 = (35 - 30) + 5 + (0 - 10);
    let new_total: u128 = next.iter().map(|s| s.amount).sum();
    assert_eq!(new_total as i128, old_total as i128 - kicked_stake as i128 + deltas);
}

#[test]
fn unproposed_active_validator_stays_unchanged() {
    let old = vec![stake("a", 10), stake("b", 20)];
    let next = next_validators(&old, &vec![false, false], &vec![stake("b", 25)]);
    assert_eq!(next[0].account_id, "a");
    assert_eq!(next[0].amount, 10);
    assert_eq!(next[0].public_key, old[0].public_key);
}

#[test]
fn stake_keys_come_from_account() {
    let a = stake("alice", 7);
    let b = stake("bob", 7);
    assert_eq!(a.public_key.len(), 32);
    assert_ne!(a.public_key, b.public_key);
    assert_eq!(stake("alice", 1).public_key, a.public_key);
}

#[test]
fn hash_range_gives_distinct_digests() {
    let h = hash_range(3);
    assert_eq!(h.len(), 3);
    assert_ne!(h[0], h[1]);
    assert_ne!(h[0], [0u8; 32]);
    assert_eq!(hash_range(3), h);
}

#[test]
fn builders_keep_their_values() {
    let config = epoch_config(5, 2, 3, 1, 60);
    assert_eq!(config.block_producers_per_shard, vec![3, 3]);
    assert_eq!(config.avg_fisherman_per_shard, vec![1, 1]);
    let info = epoch_info(vec![("x", 4)], vec![0], vec![vec![0]], vec![], change_stake(vec![("x", 4)]), 0, reward(vec![("x", 1)]), 2);
    assert_eq!(info.validators[0].account_id, "x");
    assert_eq!(info.stake_change, vec![("x".to_string(), 4)]);
    let dup = change_stake(vec![("x", 4), ("y", 1), ("x", 9)]);
    assert_eq!(dup, vec![("x".to_string(), 9), ("y".to_string(), 1)]);
    let r = reward(vec![("a", 1), ("a", 2)]);
    assert_eq!(r, vec![("a".to_string(), 2)]);
    assert_eq!(info.validator_reward, vec![("x".to_string(), 1)]);
    assert_eq!(info.validator_index(&"x".to_string()), Some(0));
    assert_eq!(info.validator_index(&"y".to_string()), None);
}

#[test]
fn bad_config_is_refused() {
    assert!(matches!(setup_default_epoch_manager(vec![("a", 10)], 0, 1, 2, 0, 90), Err(EpochError::ConfigError)));
    let bad = reward_calculator(5, 100, 1, 70, 40, "t".to_string());
    assert!(matches!(setup_epoch_manager(vec![("a", 10)], 2, 1, 2, 0, 90, bad), Err(EpochError::ConfigError)));
}

#[test]
fn epoch_changes_at_boundary() {
    let mut em = setup_default_epoch_manager(vec![("a", 80), ("b", 40), ("c", 40), ("d", 40)], 2, 1, 2, 0, 0).unwrap();
    let h = hash_range(5);
    record_block(&mut em, [0u8; 32], h[0], 0, vec![]).unwrap();
    record_block(&mut em, h[0], h[1], 1, vec![stake("e", 100)]).unwrap();
    assert_eq!(em.get_epoch_id(&h[1]), Ok(0));
    record_block(&mut em, h[1], h[2], 2, vec![]).unwrap();
    assert_eq!(em.get_epoch_id(&h[2]), Ok(1));
    let e1 = em.get_epoch_info(1).unwrap();
    assert_eq!(e1.validators.len(), 5);
    assert_eq!(e1.block_producers.len(), 2);
    assert_eq!(e1.chunk_producers.len(), 1);
    assert!(matches!(em.get_epoch_info(2), Err(EpochError::EpochInfoMissing)));
}

#[test]
fn record_twice_is_idempotent() {
    let em = setup_default_epoch_manager(vec![("a", 10)], 2, 1, 1, 0, 0).unwrap();
    let h = hash_range(2);
    let info = || BlockInfo::new(0, [0u8; 32], vec![], vec![], vec![], 0, 100, DEFAULT_TOTAL_SUPPLY);
    let a = em.record_block_info(&h[0], info(), &[0u8; 32]).unwrap();
    let b = em.record_block_info(&h[0], info(), &[0u8; 32]).unwrap();
    assert_eq!(a.block.as_ref().map(|s| s.hash), b.block.as_ref().map(|s| s.hash));
    let mut em = em;
    em.commit(a).unwrap();
    let again = em.record_block_info(&h[0], info(), &[0u8; 32]).unwrap();
    assert!(again.block.is_none() && again.epoch.is_none());
    let before = em.blocks.len();
    em.commit(again).unwrap();
    assert_eq!(em.blocks.len(), before);
}

#[test]
fn uncommitted_change_set_writes_nothing() {
    let em = setup_default_epoch_manager(vec![("a", 10)], 2, 1, 1, 0, 0).unwrap();
    let h = hash_range(1);
    let info = BlockInfo::new(0, [0u8; 32], vec![], vec![], vec![], 0, 100, DEFAULT_TOTAL_SUPPLY);
    let staged: ChangeSet = em.record_block_info(&h[0], info, &[0u8; 32]).unwrap();
    drop(staged);
    assert_eq!(em.blocks.len(), 0);
    assert!(matches!(em.get_block_info(&h[0]), Err(EpochError::BlockInfoMissing)));
}

#[test]
fn conflicting_duplicate_and_missing_parent() {
    let mut em = setup_default_epoch_manager(vec![("a", 10)], 2, 1, 1, 0, 0).unwrap();
    let h = hash_range(3);
    record_block(&mut em, [0u8; 32], h[0], 0, vec![]).unwrap();
    let other = BlockInfo::new(0, [0u8; 32], vec![], vec![], vec![], 5, 100, DEFAULT_TOTAL_SUPPLY);
    assert!(matches!(em.record_block_info(&h[0], other, &[0u8; 32]), Err(EpochError::DuplicateBlock)));
    let orphan = BlockInfo::new(4, h[2], vec![], vec![], vec![], 0, 100, DEFAULT_TOTAL_SUPPLY);
    assert!(matches!(em.record_block_info(&h[1], orphan, &[0u8; 32]), Err(EpochError::BlockInfoMissing)));
}

#[test]
fn low_producer_is_kicked_at_boundary() {
    // Two validators share one seat per slot; only blocks at even heights are
    // produced, so the validator of the odd slots misses all of its blocks.
    let mut em = setup_default_epoch_manager(vec![("a", 50), ("b", 50)], 4, 1, 2, 0, 50).unwrap();
    let h = hash_range(6);
    record_block(&mut em, [0u8; 32], h[0], 0, vec![]).unwrap();
    record_block(&mut em, h[0], h[2], 2, vec![]).unwrap();
    record_block(&mut em, h[2], h[4], 4, vec![]).unwrap();
    let e1 = em.get_epoch_info(1).unwrap();
    let e0 = em.get_epoch_info(0).unwrap();
    let missing = e0.block_producers[1];
    let kept = e0.block_producers[0];
    assert_eq!(e1.validators.len(), 1);
    assert_eq!(e1.validators[0].account_id, e0.validators[kept].account_id);
    assert!(e1.validator_index(&e0.validators[missing].account_id).is_none());
}

#[test]
fn validators_are_ordered_by_account() {
    let info = epoch_info(vec![("carol", 1), ("alice", 2), ("bob", 3)], vec![], vec![], vec![], vec![], 0, vec![], 0);
    let names: Vec<String> = info.validators.iter().map(|v| v.account_id.clone()).collect();
    assert_eq!(names, vec!["alice", "bob", "carol"]);
    assert_eq!(info.validators[0].amount, 2);
    let em = setup_default_epoch_manager(vec![("b", 10), ("a", 20), ("ab", 5)], 2, 1, 2, 0, 0).unwrap();
    let e0 = em.get_epoch_info(0).unwrap();
    let names: Vec<String> = e0.validators.iter().map(|v| v.account_id.clone()).collect();
    assert_eq!(names, vec!["a", "ab", "b"]);
}

#[test]
fn ancestor_chain_walks_parents() {
    let mut em = setup_default_epoch_manager(vec![("a", 10)], 5, 1, 1, 0, 0).unwrap();
    let h = hash_range(4);
    record_block(&mut em, [0u8; 32], h[0], 0, vec![]).unwrap();
    record_block(&mut em, h[0], h[1], 1, vec![]).unwrap();
    record_block(&mut em, h[1], h[2], 2, vec![]).unwrap();
    assert_eq!(em.ancestor_chain(&h[2], 3), Ok(vec![h[2], h[1], h[0]]));
    assert_eq!(em.ancestor_chain(&h[2], 0), Ok(vec![]));
    assert_eq!(em.ancestor_chain(&h[2], 4), Err(EpochError::ChainTooShort));
    assert_eq!(em.ancestor_chain(&h[3], 1), Err(EpochError::BlockInfoMissing));
}

#[test]
fn stale_change_set_is_refused_whole() {
    let mut em = setup_default_epoch_manager(vec![("a", 10)], 2, 1, 1, 0, 0).unwrap();
    let h = hash_range(1);
    let info = || BlockInfo::new(0, [0u8; 32], vec![], vec![], vec![], 0, 100, DEFAULT_TOTAL_SUPPLY);
    let first = em.record_block_info(&h[0], info(), &[0u8; 32]).unwrap();
    let second = em.record_block_info(&h[0], info(), &[0u8; 32]).unwrap();
    assert_eq!(em.commit(first), Ok(()));
    assert_eq!(em.commit(second), Err(EpochError::StorageError));
    assert_eq!(em.blocks.len(), 1);
}

#[test]
fn rewards_reach_epoch_info() {
    let c = reward_calculator(5, 1_000_000, 2, 80, 10, "treasury".to_string());
    let mut em = setup_epoch_manager(vec![("a", 10)], 2, 1, 1, 0, 0, c).unwrap();
    let h = hash_range(3);
    record_block(&mut em, [0u8; 32], h[0], 0, vec![]).unwrap();
    record_block(&mut em, h[0], h[1], 1, vec![]).unwrap();
    record_block(&mut em, h[1], h[2], 2, vec![]).unwrap();
    let e1 = em.get_epoch_info(1).unwrap();
    // 10^12 * 5 * 2 / (10^6 * 100) = 100_000; validators get 80%, treasury the rest.
    assert_eq!(e1.inflation, 100_000);
    assert_eq!(e1.validator_reward, vec![("a".to_string(), 80_000), ("treasury".to_string(), 20_000)]);
}

#[test]
fn derive_epoch_exact_values() {
    let config = epoch_config(10, 1, 2, 0, 50);
    let c = calc(5, 80, 10);
    let old = vec![stake("a", 10), stake("b", 20), stake("c", 30)];
    let stats = vec![(1, 1), (0, 2), (2, 2)];
    let slashed = vec![false, false, true];
    let e = derive_epoch(&config, &c, &old, &stats, &slashed, &vec![stake("d", 40)], DEFAULT_TOTAL_SUPPLY, 7, &[0u8; 32]).unwrap();
    assert_eq!(amounts(&e.validators), vec![("a".to_string(), 10), ("d".to_string(), 40)]);
    assert_eq!(e.inflation, 500_000);
    assert_eq!(e.total_gas_used, 7);
    assert_eq!(
        e.validator_reward,
        vec![
            ("a".to_string(), 133_333),
            ("b".to_string(), 0),
            ("c".to_string(), 133_333),
            ("treasury".to_string(), 233_334)
        ]
    );
    assert_eq!(e.block_producers.len(), 2);
    assert_eq!(
        e.stake_change,
        vec![("a".to_string(), 10), ("d".to_string(), 40), ("b".to_string(), 0), ("c".to_string(), 0)]
    );
}

#[test]
fn equal_accounts_are_ordered_by_amount() {
    let info = epoch_info(vec![("a", 9), ("a", 3)], vec![], vec![], vec![], vec![], 0, vec![], 0);
    assert_eq!(info.validators[0].amount, 3);
    assert_eq!(info.validators[1].amount, 9);
}

#[test]
fn re_recording_differing_proposals_is_a_duplicate() {
    let mut em = setup_default_epoch_manager(vec![("a", 10)], 5, 1, 1, 0, 0).unwrap();
    let h = hash_range(2);
    record_block(&mut em, [0u8; 32], h[0], 0, vec![]).unwrap();
    assert_eq!(record_block(&mut em, [0u8; 32], h[0], 0, vec![]), Ok(()));
    assert_eq!(em.blocks.len(), 1);
    assert_eq!(record_block(&mut em, [0u8; 32], h[0], 0, vec![stake("a", 5)]), Err(EpochError::DuplicateBlock));
}

#[test]
fn setup_without_stake_is_insufficient() {
    assert!(matches!(setup_default_epoch_manager(vec![("a", 0)], 2, 1, 1, 0, 0), Err(EpochError::InsufficientValidators)));
    let em = setup_default_epoch_manager(vec![("a", 10), ("b", 30)], 2, 3, 4, 1, 0).unwrap();
    let e0 = em.get_epoch_info(0).unwrap();
    assert_eq!(e0.block_producers.len(), 4);
    assert_eq!(e0.chunk_producers.len(), 3);
    assert!(e0.chunk_producers.iter().all(|c| c.len() == 4));
    assert_eq!(e0.fishermen, vec![(0, 1), (1, 2)]);
}

#[test]
fn boundaries_are_genesis_relative() {
    let mut em = setup_default_epoch_manager(vec![("a", 10)], 3, 1, 1, 0, 0).unwrap();
    let h = hash_range(6);
    record_block(&mut em, [0u8; 32], h[0], 0, vec![]).unwrap();
    record_block(&mut em, h[0], h[1], 1, vec![]).unwrap();
    record_block(&mut em, h[1], h[2], 4, vec![]).unwrap();
    assert_eq!(em.get_epoch_id(&h[2]), Ok(1));
    record_block(&mut em, h[2], h[3], 5, vec![]).unwrap();
    assert_eq!(em.get_epoch_id(&h[3]), Ok(1));
    record_block(&mut em, h[3], h[4], 6, vec![]).unwrap();
    assert_eq!(em.get_epoch_id(&h[4]), Ok(2));
    assert_eq!(em.get_epoch_id(&h[5]), Err(EpochError::BlockInfoMissing));
}

#[test]
fn second_genesis_is_refused() {
    let mut em = setup_default_epoch_manager(vec![("a", 10)], 3, 1, 1, 0, 0).unwrap();
    let h = hash_range(2);
    record_block(&mut em, [0u8; 32], h[0], 0, vec![]).unwrap();
    assert_eq!(record_block(&mut em, [7u8; 32], h[1], 0, vec![]), Err(EpochError::BlockInfoMissing));
}
