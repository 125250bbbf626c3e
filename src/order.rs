//! The canonical order of validators: by account identifier, compared byte
//! by byte.
use vstd::prelude::*;
use vstd::string::StringSliceAdditionalSpecFns;
use vstd::utf8::encode_utf8;

use crate::kickout::stake_total;
use crate::sampler::{seats_overflow, stake_prefix, total_stake};
use crate::types::{stake_views, AccountId, StakeView, ValidatorStake};

verus! {

broadcast use vstd::seq_lib::group_to_multiset_ensures;

/// Lexicographic order on byte strings; a prefix comes first.
pub open spec fn bytes_le(a: Seq<u8>, b: Seq<u8>) -> bool
    decreases a.len(),
{
    if a.len() == 0 {
        true
    } else if b.len() == 0 {
        false
    } else if a[0] != b[0] {
        a[0] < b[0]
    } else {
        bytes_le(a.drop_first(), b.drop_first())
    }
}

/// The bytes an account identifier is compared by.
pub open spec fn account_key(v: StakeView) -> Seq<u8> {
    encode_utf8(v.0)
}

/// Stake `a` comes no later than stake `b`: by account, for the same
/// account by amount, and then by public key.
pub open spec fn stake_le(a: StakeView, b: StakeView) -> bool {
    if account_key(a) != account_key(b) {
        bytes_le(account_key(a), account_key(b))
    } else if a.2 != b.2 {
        a.2 < b.2
    } else {
        bytes_le(a.1, b.1)
    }
}

pub open spec fn sorted_by_account(t: Seq<StakeView>) -> bool {
    forall|i: int, j: int| 0 <= i < j < t.len() ==> stake_le(#[trigger] t[i], #[trigger] t[j])
}

proof fn bytes_le_refl(a: Seq<u8>)
    ensures
        bytes_le(a, a),
    decreases a.len(),
{
    if a.len() > 0 {
        bytes_le_refl(a.drop_first());
    }
}

proof fn bytes_le_antisym(a: Seq<u8>, b: Seq<u8>)
    requires
        bytes_le(a, b),
        bytes_le(b, a),
    ensures
        a == b,
    decreases a.len(),
{
    if a.len() > 0 && b.len() > 0 {
        bytes_le_antisym(a.drop_first(), b.drop_first());
        assert(a =~= seq![a[0]] + a.drop_first());
        assert(b =~= seq![b[0]] + b.drop_first());
    } else {
        assert(a =~= b);
    }
}

proof fn stake_le_total(a: StakeView, b: StakeView)
    ensures
        stake_le(a, b) || stake_le(b, a),
{
    bytes_le_total(account_key(a), account_key(b));
    bytes_le_total(a.1, b.1);
}

proof fn stake_le_refl(a: StakeView)
    ensures
        stake_le(a, a),
{
    bytes_le_refl(a.1);
}

proof fn stake_le_antisym(a: StakeView, b: StakeView)
    requires
        stake_le(a, b),
        stake_le(b, a),
    ensures
        a == b,
{
    broadcast use vstd::utf8::encode_utf8_decode_utf8;

    if account_key(a) != account_key(b) {
        bytes_le_antisym(account_key(a), account_key(b));
    }
    assert(vstd::utf8::decode_utf8(encode_utf8(a.0)) == a.0);
    assert(vstd::utf8::decode_utf8(encode_utf8(b.0)) == b.0);
    bytes_le_antisym(a.1, b.1);
}

proof fn stake_le_trans(a: StakeView, b: StakeView, c: StakeView)
    requires
        stake_le(a, b),
        stake_le(b, c),
    ensures
        stake_le(a, c),
{
    let (ka, kb, kc) = (account_key(a), account_key(b), account_key(c));
    if ka != kb && kb != kc {
        bytes_le_trans(ka, kb, kc);
        if ka == kc {
            bytes_le_antisym(ka, kb);
        }
    } else if ka == kb && kb == kc && a.2 == b.2 && b.2 == c.2 {
        bytes_le_trans(a.1, b.1, c.1);
    }
}

/// Whether stake `a` comes no later than stake `b`.
fn stake_le_exec(a: &ValidatorStake, b: &ValidatorStake) -> (r: bool)
    ensures
        r == stake_le(a@, b@),
{
    let ab = account_le(&a.account_id, &b.account_id);
    let ba = account_le(&b.account_id, &a.account_id);
    proof {
        if ab && ba {
            bytes_le_antisym(account_key(a@), account_key(b@));
        }
        bytes_le_refl(account_key(a@));
    }
    if ab && ba {
        if a.amount != b.amount {
            a.amount < b.amount
        } else {
            slice_le(a.public_key.as_slice(), b.public_key.as_slice())
        }
    } else {
        ab
    }
}

proof fn bytes_le_total(a: Seq<u8>, b: Seq<u8>)
    ensures
        bytes_le(a, b) || bytes_le(b, a),
    decreases a.len(),
{
    if a.len() > 0 && b.len() > 0 && a[0] == b[0] {
        bytes_le_total(a.drop_first(), b.drop_first());
    }
}

proof fn bytes_le_trans(a: Seq<u8>, b: Seq<u8>, c: Seq<u8>)
    requires
        bytes_le(a, b),
        bytes_le(b, c),
    ensures
        bytes_le(a, c),
    decreases a.len(),
{
    if a.len() > 0 && b.len() > 0 && c.len() > 0 && a[0] == b[0] && b[0] == c[0] {
        bytes_le_trans(a.drop_first(), b.drop_first(), c.drop_first());
    }
}

/// Whether account `a` comes no later than account `b`.
pub fn account_le(a: &AccountId, b: &AccountId) -> (r: bool)
    ensures
        r == bytes_le(encode_utf8(a@), encode_utf8(b@)),
{
    slice_le(a.as_str().as_bytes(), b.as_str().as_bytes())
}

/// Whether byte string `x` comes no later than `y`.
fn slice_le(x: &[u8], y: &[u8]) -> (r: bool)
    ensures
        r == bytes_le(x@, y@),
{
    let mut i: usize = 0;
    assert(x@.skip(0) =~= x@);
    assert(y@.skip(0) =~= y@);
    while i < x.len() && i < y.len()
        invariant
            0 <= i <= x@.len(),
            i <= y@.len(),
            bytes_le(x@, y@) == bytes_le(x@.skip(i as int), y@.skip(i as int)),
        decreases x@.len() - i,
    {
        if x[i] != y[i] {
            assert(x@.skip(i as int)[0] == x@[i as int]);
            assert(y@.skip(i as int)[0] == y@[i as int]);
            return x[i] < y[i];
        }
        assert(x@.skip(i as int).drop_first() =~= x@.skip(i as int + 1));
        assert(y@.skip(i as int).drop_first() =~= y@.skip(i as int + 1));
        i = i + 1;
    }
    i == x.len()
}

/// The same stakes, ordered by account identifier, and for one account by
/// amount.
pub fn sort_by_account(v: Vec<ValidatorStake>) -> (r: Vec<ValidatorStake>)
    ensures
        sorted_by_account(stake_views(r@)),
        stake_views(r@).to_multiset() == stake_views(v@).to_multiset(),
{
    let mut r: Vec<ValidatorStake> = Vec::new();
    let mut i: usize = 0;
    while i < v.len()
        invariant
            0 <= i <= v@.len(),
            sorted_by_account(stake_views(r@)),
            stake_views(r@).to_multiset() == stake_views(v@.subrange(0, i as int)).to_multiset(),
        decreases v@.len() - i,
    {
        let x = v[i].copy();
        let mut pos: usize = 0;
        while pos < r.len() && stake_le_exec(&r[pos], &x)
            invariant
                0 <= pos <= r@.len(),
                forall|k: int| 0 <= k < pos ==> stake_le(#[trigger] stake_views(r@)[k], x@),
            decreases r@.len() - pos,
        {
            pos = pos + 1;
        }
        let ghost before = stake_views(r@);
        r.insert(pos, x);
        proof {
            let after = stake_views(r@);
            assert(after =~= before.insert(pos as int, x@));
            if pos < before.len() {
                stake_le_total(before[pos as int], x@);
            }
            assert forall|a: int, b: int| 0 <= a < b < after.len() implies stake_le(
                #[trigger] after[a],
                #[trigger] after[b],
            ) by {
                if b < pos {
                } else if b == pos {
                } else if a < pos {
                } else if a == pos {
                    if b - 1 == pos {
                    } else {
                        assert(stake_le(before[pos as int], before[b - 1]));
                        stake_le_trans(x@, before[pos as int], before[b - 1]);
                    }
                } else {
                }
            }
            vstd::seq_lib::to_multiset_insert(before, pos as int, x@);
            let vs = stake_views(v@.subrange(0, i as int + 1));
            assert(vs =~= stake_views(v@.subrange(0, i as int)).push(x@));
        }
        i = i + 1;
    }
    assert(v@.subrange(0, v@.len() as int) =~= v@);
    r
}

/// The amounts of a list of stakes.
pub open spec fn amounts(t: Seq<StakeView>) -> Seq<u128> {
    Seq::new(t.len(), |i: int| t[i].2)
}

proof fn prefix_is_total(t: Seq<StakeView>, k: int)
    requires
        0 <= k <= t.len(),
    ensures
        stake_prefix(amounts(t), k) == stake_total(t.subrange(0, k)),
    decreases k,
{
    if k > 0 {
        prefix_is_total(t, k - 1);
        assert(t.subrange(0, k).drop_last() =~= t.subrange(0, k - 1));
    }
}

proof fn stake_total_remove(t: Seq<StakeView>, j: int)
    requires
        0 <= j < t.len(),
    ensures
        stake_total(t) == stake_total(t.remove(j)) + t[j].2,
    decreases t.len(),
{
    if j == t.len() - 1 {
        assert(t.remove(j) =~= t.drop_last());
    } else {
        stake_total_remove(t.drop_last(), j);
        assert(t.remove(j).drop_last() =~= t.drop_last().remove(j));
        assert(t.remove(j).last() == t.last());
    }
}

proof fn stake_total_permutation(t1: Seq<StakeView>, t2: Seq<StakeView>)
    requires
        t1.to_multiset() == t2.to_multiset(),
    ensures
        stake_total(t1) == stake_total(t2),
    decreases t1.len(),
{
    if t1.len() == 0 {
        assert(t2.to_multiset().len() == 0);
    } else {
        let x = t1.last();
        assert(t1.drop_last().push(x) =~= t1);
        assert(t1.to_multiset().count(x) > 0);
        assert(t2.contains(x));
        let j = choose|j: int| 0 <= j < t2.len() && t2[j] == x;
        assert(t1.drop_last().to_multiset() =~= t1.to_multiset().remove(x));
        assert(t2.remove(j).to_multiset() == t2.to_multiset().remove(t2[j]));
        stake_total_permutation(t1.drop_last(), t2.remove(j));
        stake_total_remove(t2, j);
    }
}

/// Reordering stakes changes neither their total nor whether some amount
/// times `q` leaves 128 bits.
pub(crate) proof fn lemma_permutation_keeps_totals(t1: Seq<StakeView>, t2: Seq<StakeView>, q: int)
    requires
        t1.to_multiset() == t2.to_multiset(),
    ensures
        total_stake(amounts(t1)) == total_stake(amounts(t2)),
        seats_overflow(amounts(t1), q) == seats_overflow(amounts(t2), q),
{
    prefix_is_total(t1, t1.len() as int);
    prefix_is_total(t2, t2.len() as int);
    assert(t1.subrange(0, t1.len() as int) =~= t1);
    assert(t2.subrange(0, t2.len() as int) =~= t2);
    stake_total_permutation(t1, t2);
    overflow_carries(t1, t2, q);
    overflow_carries(t2, t1, q);
}

proof fn overflow_carries(t1: Seq<StakeView>, t2: Seq<StakeView>, q: int)
    requires
        t1.to_multiset() == t2.to_multiset(),
    ensures
        seats_overflow(amounts(t1), q) ==> seats_overflow(amounts(t2), q),
{
    if seats_overflow(amounts(t1), q) {
        let i = choose|i: int| 0 <= i < amounts(t1).len() && #[trigger] amounts(t1)[i] * q > u128::MAX;
        assert(t1.contains(t1[i]));
        assert(t1.to_multiset().count(t1[i]) > 0);
        assert(t2.contains(t1[i]));
        let j = choose|j: int| 0 <= j < t2.len() && t2[j] == t1[i];
        assert(amounts(t2)[j] * q > u128::MAX);
    }
}

/// Sorting is canonical: two sorted lists of the same stakes are equal.
pub proof fn lemma_sorted_permutation_unique(s1: Seq<StakeView>, s2: Seq<StakeView>)
    requires
        sorted_by_account(s1),
        sorted_by_account(s2),
        s1.to_multiset() == s2.to_multiset(),
    ensures
        s1 == s2,
    decreases s1.len(),
{
    assert(s1.len() == s1.to_multiset().len());
    assert(s2.len() == s2.to_multiset().len());
    if s1.len() == 0 {
        assert(s1 =~= s2);
    } else {
        let x = s1[0];
        let y = s2[0];
        assert(s1.contains(x));
        assert(s1.to_multiset().count(x) > 0);
        assert(s2.contains(x));
        let j = choose|j: int| 0 <= j < s2.len() && s2[j] == x;
        if j == 0 {
            stake_le_refl(x);
        }
        assert(stake_le(y, x));
        assert(s2.contains(y));
        assert(s2.to_multiset().count(y) > 0);
        assert(s1.contains(y));
        let i = choose|i: int| 0 <= i < s1.len() && s1[i] == y;
        if i == 0 {
            stake_le_refl(y);
        }
        assert(stake_le(x, y));
        stake_le_antisym(x, y);
        vstd::seq_lib::to_multiset_remove(s1, 0);
        vstd::seq_lib::to_multiset_remove(s2, 0);
        assert(s1.remove(0) =~= s1.drop_first());
        assert(s2.remove(0) =~= s2.drop_first());
        assert forall|a: int, b: int| 0 <= a < b < s1.drop_first().len() implies stake_le(
            #[trigger] s1.drop_first()[a],
            #[trigger] s1.drop_first()[b],
        ) by {
            assert(s1.drop_first()[a] == s1[a + 1] && s1.drop_first()[b] == s1[b + 1]);
        }
        assert forall|a: int, b: int| 0 <= a < b < s2.drop_first().len() implies stake_le(
            #[trigger] s2.drop_first()[a],
            #[trigger] s2.drop_first()[b],
        ) by {
            assert(s2.drop_first()[a] == s2[a + 1] && s2.drop_first()[b] == s2[b + 1]);
        }
        lemma_sorted_permutation_unique(s1.drop_first(), s2.drop_first());
        assert forall|k: int| 0 <= k < s1.len() implies s1[k] == s2[k] by {
            if k > 0 {
                assert(s1[k] == s1.drop_first()[k - 1]);
                assert(s2[k] == s2.drop_first()[k - 1]);
            }
        }
        assert(s1 =~= s2);
    }
}

} // verus!
