use vstd::prelude::*;

verus! {

pub type Balance = u128;

pub type BlockIndex = u64;

pub type ShardId = u64;

pub type Gas = u64;

pub type AccountId = String;

/// A block hash: 32 bytes.
pub type CryptoHash = [u8; 32];

/// A fisherman slot: the validator's index and its weight.
pub type ValidatorWeight = (usize, u64);

/// Every way in which an epoch-manager operation can fail.
#[derive(Debug, Clone, Copy, PartialEq, Eq, Structural)]
pub enum EpochError {
    ConfigError,
    BlockInfoMissing,
    EpochInfoMissing,
    ChainTooShort,
    DuplicateBlock,
    InsufficientValidators,
    ArithmeticOverflow,
    StorageError,
}

/// An account's declared stake: who, with which key, and how much.
pub struct ValidatorStake {
    pub account_id: AccountId,
    pub public_key: Vec<u8>,
    pub amount: Balance,
}

/// A stake as plain values: account, public key bytes, amount.
pub type StakeView = (Seq<char>, Seq<u8>, u128);

impl View for ValidatorStake {
    type V = StakeView;

    open spec fn view(&self) -> StakeView {
        (self.account_id@, self.public_key@, self.amount)
    }
}

/// The plain values of a list of stakes.
pub open spec fn stake_views(v: Seq<ValidatorStake>) -> Seq<StakeView> {
    Seq::new(v.len(), |i: int| v[i]@)
}

impl ValidatorStake {
    pub fn new(account_id: AccountId, public_key: Vec<u8>, amount: Balance) -> (r: Self)
        ensures
            r@ == (account_id@, public_key@, amount),
    {
        ValidatorStake { account_id, public_key, amount }
    }

    /// An equal, independent copy.
    pub fn copy(&self) -> (r: Self)
        ensures
            r@ == self@,
    {
        ValidatorStake {
            account_id: self.account_id.clone(),
            public_key: self.public_key.clone(),
            amount: self.amount,
        }
    }
}

/// Process-wide epoch parameters.
pub struct EpochConfig {
    pub epoch_length: BlockIndex,
    pub num_shards: ShardId,
    pub num_block_producers: usize,
    pub block_producers_per_shard: Vec<usize>,
    pub avg_fisherman_per_shard: Vec<usize>,
    /// Percentage of its expected blocks a validator must produce to stay.
    pub validator_kickout_threshold: u8,
}

impl EpochConfig {
    /// Epochs have blocks, and every shard has its quotas.
    pub open spec fn wf(&self) -> bool {
        &&& self.epoch_length > 0
        &&& self.block_producers_per_shard@.len() == self.num_shards
        &&& self.avg_fisherman_per_shard@.len() == self.num_shards
    }
}

/// What is recorded of one block.
pub struct BlockInfo {
    pub index: BlockIndex,
    pub prev_hash: CryptoHash,
    /// Stake proposals carried by the block, in order.
    pub proposals: Vec<ValidatorStake>,
    pub validator_mask: Vec<bool>,
    /// Accounts known to be faulty as of this block.
    pub slashed: Vec<AccountId>,
    pub gas_used: Gas,
    pub gas_price: Balance,
    pub total_supply: Balance,
}

impl BlockInfo {
    pub fn new(
        index: BlockIndex,
        prev_hash: CryptoHash,
        proposals: Vec<ValidatorStake>,
        validator_mask: Vec<bool>,
        slashed: Vec<AccountId>,
        gas_used: Gas,
        gas_price: Balance,
        total_supply: Balance,
    ) -> (r: Self)
        ensures
            r.index == index,
            r.prev_hash == prev_hash,
            r.proposals@ == proposals@,
            r.validator_mask@ == validator_mask@,
            r.slashed@ == slashed@,
            r.gas_used == gas_used,
            r.gas_price == gas_price,
            r.total_supply == total_supply,
    {
        BlockInfo {
            index,
            prev_hash,
            proposals,
            validator_mask,
            slashed,
            gas_used,
            gas_price,
            total_supply,
        }
    }
}

/// Everything decided for one epoch.
pub struct EpochInfo {
    /// The validators, each at the index the assignments below refer to.
    pub validators: Vec<ValidatorStake>,
    /// The validator index of each block-producer slot.
    pub block_producers: Vec<usize>,
    /// For each shard, the validator index of each chunk-producer slot.
    pub chunk_producers: Vec<Vec<usize>>,
    pub fishermen: Vec<ValidatorWeight>,
    /// Each validator's stake after this epoch's proposals and kickouts.
    pub stake_change: Vec<(AccountId, Balance)>,
    pub total_gas_used: Gas,
    pub validator_reward: Vec<(AccountId, Balance)>,
    pub inflation: Balance,
}

impl EpochInfo {
    /// Every index that an assignment refers to names a validator.
    pub open spec fn wf(&self) -> bool {
        &&& forall|k: int|
            0 <= k < self.block_producers@.len() ==> #[trigger] self.block_producers@[k]
                < self.validators@.len()
        &&& forall|s: int, k: int|
            0 <= s < self.chunk_producers@.len() && 0 <= k < self.chunk_producers@[s]@.len()
                ==> #[trigger] self.chunk_producers@[s]@[k] < self.validators@.len()
        &&& forall|k: int|
            0 <= k < self.fishermen@.len() ==> (#[trigger] self.fishermen@[k]).0
                < self.validators@.len()
    }

    /// Index of `account` among the validators, if it is one.
    pub fn validator_index(&self, account: &AccountId) -> (r: Option<usize>)
        ensures
            r matches Some(i) ==> i < self.validators@.len() && self.validators@[i as int].account_id@
                == account@,
            r is None ==> forall|i: int|
                0 <= i < self.validators@.len() ==> (#[trigger] self.validators@[i]).account_id@
                    != account@,
    {
        let mut i: usize = 0;
        while i < self.validators.len()
            invariant
                0 <= i <= self.validators@.len(),
                forall|j: int|
                    0 <= j < i ==> (#[trigger] self.validators@[j]).account_id@ != account@,
            decreases self.validators@.len() - i,
        {
            if self.validators[i].account_id == *account {
                return Some(i);
            }
            i = i + 1;
        }
        None
    }
}

/// Whether two block hashes are the same.
pub fn hash_eq(a: &CryptoHash, b: &CryptoHash) -> (r: bool)
    ensures
        r == (a@ == b@),
{
    let mut i: usize = 0;
    while i < 32
        invariant
            0 <= i <= 32,
            a@.len() == 32,
            b@.len() == 32,
            forall|j: int| 0 <= j < i ==> a@[j] == b@[j],
        decreases 32 - i,
    {
        if a[i] != b[i] {
            return false;
        }
        i = i + 1;
    }
    assert(a@ =~= b@);
    true
}

} // verus!
