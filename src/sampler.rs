//! Stake-proportional seat assignment by largest remainder, and the seeded
//! layout of seats over an epoch's slots.
use vstd::prelude::*;
use vstd::set_lib::{lemma_int_range, lemma_len_subset, set_int_range};

use crate::types::{Balance, EpochError};

verus! {

/// Sum of the first `k` stakes.
pub open spec fn stake_prefix(stakes: Seq<u128>, k: int) -> int
    decreases k,
{
    if k <= 0 {
        0
    } else {
        stake_prefix(stakes, k - 1) + stakes[k - 1]
    }
}

pub open spec fn total_stake(stakes: Seq<u128>) -> int {
    stake_prefix(stakes, stakes.len() as int)
}

pub open spec fn seat_sum(seats: Seq<usize>) -> int
    decreases seats.len(),
{
    if seats.len() == 0 {
        0
    } else {
        seat_sum(seats.drop_last()) + seats.last()
    }
}

/// Seats a validator is owed before remainders are handed out.
pub open spec fn base_seats(stakes: Seq<u128>, num_seats: int, i: int) -> int {
    (stakes[i] * num_seats) / total_stake(stakes)
}

pub open spec fn seat_remainder(stakes: Seq<u128>, num_seats: int, i: int) -> int {
    (stakes[i] * num_seats) % total_stake(stakes)
}

/// Validator `a` comes before validator `b` when remainder seats are handed
/// out: a larger remainder first, and on equal remainders the lower index.
pub open spec fn outranks(stakes: Seq<u128>, num_seats: int, a: int, b: int) -> bool {
    seat_remainder(stakes, num_seats, a) > seat_remainder(stakes, num_seats, b) || (
    seat_remainder(stakes, num_seats, a) == seat_remainder(stakes, num_seats, b) && a < b)
}

pub open spec fn seats_overflow(stakes: Seq<u128>, num_seats: int) -> bool {
    exists|i: int| 0 <= i < stakes.len() && #[trigger] stakes[i] * num_seats > u128::MAX
}

/// `seats` is the largest-remainder apportionment of `num_seats` over `stakes`:
/// each validator gets its rounded-down share or one more, all seats are
/// given, and each extra seat goes to a validator that outranks every
/// validator without one.
pub open spec fn is_apportionment(stakes: Seq<u128>, num_seats: int, seats: Seq<usize>) -> bool {
    &&& seats.len() == stakes.len()
    &&& forall|i: int|
        0 <= i < seats.len() ==> #[trigger] seats[i] == base_seats(stakes, num_seats, i) || seats[i]
            == base_seats(stakes, num_seats, i) + 1
    &&& seat_sum(seats) == num_seats
    &&& forall|a: int, b: int|
        0 <= a < seats.len() && 0 <= b < seats.len() && #[trigger] seats[a] == base_seats(
            stakes,
            num_seats,
            a,
        ) + 1 && #[trigger] seats[b] == base_seats(stakes, num_seats, b) ==> outranks(
            stakes,
            num_seats,
            a,
            b,
        )
}

proof fn stake_prefix_monotone(stakes: Seq<u128>, j: int, k: int)
    requires
        0 <= j <= k <= stakes.len(),
    ensures
        0 <= stake_prefix(stakes, j) <= stake_prefix(stakes, k),
    decreases k - j,
{
    if j < k {
        stake_prefix_monotone(stakes, j, k - 1);
    } else {
        stake_prefix_nonneg(stakes, j);
    }
}

pub(crate) proof fn stake_prefix_nonneg(stakes: Seq<u128>, k: int)
    requires
        0 <= k <= stakes.len(),
    ensures
        0 <= stake_prefix(stakes, k),
    decreases k,
{
    if k > 0 {
        stake_prefix_nonneg(stakes, k - 1);
    }
}

proof fn seat_sum_update(seats: Seq<usize>, j: int, v: usize)
    requires
        0 <= j < seats.len(),
    ensures
        seat_sum(seats.update(j, v)) == seat_sum(seats) - seats[j] + v,
    decreases seats.len(),
{
    let s2 = seats.update(j, v);
    if j == seats.len() - 1 {
        assert(s2.drop_last() =~= seats.drop_last());
    } else {
        seat_sum_update(seats.drop_last(), j, v);
        assert(s2.drop_last() =~= seats.drop_last().update(j, v));
    }
}

proof fn seat_le_sum(seats: Seq<usize>, j: int)
    requires
        0 <= j < seats.len(),
    ensures
        0 <= seats[j] <= seat_sum(seats),
    decreases seats.len(),
{
    seat_sum_nonneg(seats.drop_last());
    if j < seats.len() - 1 {
        seat_le_sum(seats.drop_last(), j);
    }
}

pub(crate) proof fn seat_sum_nonneg(seats: Seq<usize>)
    ensures
        0 <= seat_sum(seats),
    decreases seats.len(),
{
    if seats.len() > 0 {
        seat_sum_nonneg(seats.drop_last());
    }
}

proof fn seat_sum_dominates(a: Seq<usize>, b: Seq<usize>, i: int)
    requires
        a.len() == b.len(),
        forall|j: int| 0 <= j < a.len() ==> #[trigger] a[j] >= b[j],
        0 <= i < a.len(),
        a[i] > b[i],
    ensures
        seat_sum(a) > seat_sum(b),
    decreases a.len(),
{
    if i == a.len() - 1 {
        seat_sum_le(a.drop_last(), b.drop_last());
    } else {
        seat_sum_dominates(a.drop_last(), b.drop_last(), i);
    }
}

proof fn seat_sum_le(a: Seq<usize>, b: Seq<usize>)
    requires
        a.len() == b.len(),
        forall|j: int| 0 <= j < a.len() ==> #[trigger] a[j] >= b[j],
    ensures
        seat_sum(a) >= seat_sum(b),
    decreases a.len(),
{
    if a.len() > 0 {
        seat_sum_le(a.drop_last(), b.drop_last());
    }
}

/// The apportionment of a number of seats over given stakes is unique, so
/// any two computations of it agree seat for seat.
pub proof fn lemma_apportionment_unique(
    stakes: Seq<u128>,
    num_seats: int,
    a: Seq<usize>,
    b: Seq<usize>,
)
    requires
        is_apportionment(stakes, num_seats, a),
        is_apportionment(stakes, num_seats, b),
    ensures
        a == b,
{
    assert forall|i: int| 0 <= i < a.len() implies a[i] == b[i] by {
        if a[i] != b[i] {
            let (hi, lo) = if a[i] > b[i] {
                (a, b)
            } else {
                (b, a)
            };
            if forall|j: int| 0 <= j < a.len() ==> #[trigger] hi[j] >= lo[j] {
                seat_sum_dominates(hi, lo, i);
            }
            let j = choose|j: int| 0 <= j < a.len() && #[trigger] hi[j] < lo[j];
            assert(hi[i] == base_seats(stakes, num_seats, i) + 1);
            assert(lo[i] == base_seats(stakes, num_seats, i));
            assert(hi[j] == base_seats(stakes, num_seats, j));
            assert(lo[j] == base_seats(stakes, num_seats, j) + 1);
            assert(outranks(stakes, num_seats, i, j));
            assert(outranks(stakes, num_seats, j, i));
        }
    }
    assert(a =~= b);
}

/// Apportions `num_seats` seats over validators in proportion to `stakes`,
/// by largest remainder with ties going to the lower index.
pub fn assign_seats(stakes: &Vec<Balance>, num_seats: usize) -> (r: Result<Vec<usize>, EpochError>)
    ensures
        r is Err <==> (total_stake(stakes@) == 0 || total_stake(stakes@) > u128::MAX
            || seats_overflow(stakes@, num_seats as int)),
        r matches Err(e) ==> (e == EpochError::ArithmeticOverflow <==> (total_stake(stakes@)
            > u128::MAX || (total_stake(stakes@) > 0 && seats_overflow(stakes@, num_seats as int)))),
        r matches Err(e) ==> (e == EpochError::ArithmeticOverflow || e
            == EpochError::InsufficientValidators),
        r matches Ok(seats) ==> is_apportionment(stakes@, num_seats as int, seats@),
{
    let n = stakes.len();
    let mut total: u128 = 0;
    let mut i: usize = 0;
    while i < n
        invariant
            n == stakes@.len(),
            0 <= i <= n,
            total as int == stake_prefix(stakes@, i as int),
        decreases n - i,
    {
        total = match total.checked_add(stakes[i]) {
            Some(v) => v,
            None => {
                proof {
                    stake_prefix_monotone(stakes@, i as int + 1, n as int);
                }
                return Err(EpochError::ArithmeticOverflow);
            },
        };
        i = i + 1;
    }
    if total == 0 {
        return Err(EpochError::InsufficientValidators);
    }
    let s = num_seats as u128;
    let mut seats: Vec<usize> = Vec::new();
    let mut rems: Vec<u128> = Vec::new();
    let mut given: usize = 0;
    let ghost mut rem_sum: int = 0;
    i = 0;
    while i < n
        invariant
            n == stakes@.len(),
            0 <= i <= n,
            total as int == total_stake(stakes@),
            total > 0,
            s == num_seats,
            seats@.len() == i,
            rems@.len() == i,
            forall|j: int|
                0 <= j < i ==> #[trigger] seats@[j] == base_seats(stakes@, num_seats as int, j),
            forall|j: int|
                0 <= j < i ==> #[trigger] rems@[j] == seat_remainder(stakes@, num_seats as int, j),
            forall|j: int| 0 <= j < i ==> #[trigger] stakes@[j] * num_seats <= u128::MAX,
            given as int == seat_sum(seats@),
            given <= num_seats,
            total * given + rem_sum == num_seats * stake_prefix(stakes@, i as int),
            0 <= rem_sum <= i * (total - 1),
        decreases n - i,
    {
        let weighted = match stakes[i].checked_mul(s) {
            Some(v) => v,
            None => {
                assert(stakes@[i as int] * num_seats > u128::MAX);
                return Err(EpochError::ArithmeticOverflow);
            },
        };
        let base = weighted / total;
        let rem = weighted % total;
        proof {
            stake_prefix_monotone(stakes@, i as int + 1, n as int);
            let t = total as int;
            let w = weighted as int;
            let p = stake_prefix(stakes@, i as int);
            assert(w == t * (base as int) + rem as int) by (nonlinear_arith)
                requires
                    t > 0,
                    base == w / t,
                    rem == w % t,
            ;
            assert(t * (given + base) == t * given + t * base) by (nonlinear_arith);
            assert(num_seats * (p + stakes@[i as int]) == num_seats * p + num_seats
                * stakes@[i as int]) by (nonlinear_arith);
            assert(num_seats * (p + stakes@[i as int]) <= num_seats * t) by (nonlinear_arith)
                requires
                    p + stakes@[i as int] <= t,
                    num_seats >= 0,
            ;
            assert(given + base <= num_seats) by (nonlinear_arith)
                requires
                    t * (given + base) <= num_seats * t,
                    t > 0,
            ;
            assert((i + 1) * (t - 1) == i * (t - 1) + (t - 1)) by (nonlinear_arith);
        }
        let ghost before = seats@;
        seats.push(base as usize);
        rems.push(rem);
        proof {
            assert(seats@.drop_last() =~= before);
            rem_sum = rem_sum + rem;
        }
        given = given + base as usize;
        i = i + 1;
    }
    assert(!seats_overflow(stakes@, num_seats as int));
    let extra = num_seats - given;
    proof {
        let t = total as int;
        assert(rem_sum == t * extra) by (nonlinear_arith)
            requires
                t * given + rem_sum == num_seats * t,
                extra == num_seats - given,
        ;
        assert(n > 0) by {
            if n == 0 {
                assert(stake_prefix(stakes@, 0) == 0);
            }
        }
        assert(n * (t - 1) == n * t - n) by (nonlinear_arith);
        assert(t * extra < t * n) by (nonlinear_arith)
            requires
                rem_sum == t * extra,
                rem_sum <= n * t - n,
                n > 0,
        ;
        assert(extra < n) by (nonlinear_arith)
            requires
                t * extra < t * n,
                t > 0,
        ;
        lemma_int_range(0, n as int);
    }
    let ghost bases = seats@;
    let mut chosen: Vec<bool> = Vec::new();
    i = 0;
    while i < n
        invariant
            0 <= i <= n,
            chosen@.len() == i,
            forall|j: int| 0 <= j < i ==> !#[trigger] chosen@[j],
        decreases n - i,
    {
        chosen.push(false);
        i = i + 1;
    }
    let ghost mut picked: Set<int> = Set::empty();
    let mut k: usize = 0;
    while k < extra
        invariant
            n == stakes@.len(),
            extra < n,
            total as int == total_stake(stakes@),
            total > 0,
            rems@.len() == n,
            forall|j: int|
                0 <= j < n ==> #[trigger] rems@[j] == seat_remainder(stakes@, num_seats as int, j),
            bases.len() == n,
            forall|j: int|
                0 <= j < n ==> #[trigger] bases[j] == base_seats(stakes@, num_seats as int, j),
            seat_sum(bases) + extra == num_seats,
            0 <= k <= extra,
            chosen@.len() == n,
            seats@.len() == n,
            picked.finite(),
            picked.len() == k,
            picked.subset_of(set_int_range(0, n as int)),
            forall|j: int| 0 <= j < n ==> (#[trigger] chosen@[j] <==> picked.contains(j)),
            forall|j: int|
                0 <= j < n ==> #[trigger] seats@[j] == bases[j] + (if chosen@[j] {
                    1int
                } else {
                    0int
                }),
            seat_sum(seats@) == seat_sum(bases) + k,
            forall|a: int, b: int|
                0 <= a < n && 0 <= b < n && #[trigger] chosen@[a] && !#[trigger] chosen@[b]
                    ==> outranks(stakes@, num_seats as int, a, b),
        decreases extra - k,
    {
        let mut best: usize = 0;
        let mut found = false;
        let mut j: usize = 0;
        while j < n
            invariant
                n == stakes@.len(),
                rems@.len() == n,
                chosen@.len() == n,
                0 <= j <= n,
                forall|x: int|
                    0 <= x < n ==> #[trigger] rems@[x] == seat_remainder(
                        stakes@,
                        num_seats as int,
                        x,
                    ),
                found ==> best < j && !chosen@[best as int],
                !found ==> forall|x: int| 0 <= x < j ==> #[trigger] chosen@[x],
                found ==> forall|x: int|
                    0 <= x < j && !#[trigger] chosen@[x] && x != best ==> outranks(
                        stakes@,
                        num_seats as int,
                        best as int,
                        x,
                    ),
            decreases n - j,
        {
            if !chosen[j] {
                if !found || rems[j] > rems[best] {
                    best = j;
                    found = true;
                }
            }
            j = j + 1;
        }
        if !found {
            proof {
                assert forall|x: int| set_int_range(0, n as int).contains(x) implies picked.contains(
                    x,
                ) by {
                    assert(chosen@[x]);
                }
                assert(set_int_range(0, n as int).subset_of(picked));
                lemma_int_range(0, n as int);
                lemma_len_subset(set_int_range(0, n as int), picked);
                assert(false);
            }
            return Err(EpochError::InsufficientValidators);
        }
        proof {
            seat_le_sum(bases, best as int);
            seat_sum_update(seats@, best as int, (seats@[best as int] + 1) as usize);
        }
        assert(seats@[best as int] == bases[best as int]);
        seats.set(best, seats[best] + 1);
        chosen.set(best, true);
        proof {
            picked = picked.insert(best as int);
        }
        k = k + 1;
    }
    Ok(seats)
}

/// Each validator's index, repeated once per seat, in index order.
pub open spec fn expand_seats(seats: Seq<usize>) -> Seq<usize>
    decreases seats.len(),
{
    if seats.len() == 0 {
        Seq::empty()
    } else {
        expand_seats(seats.drop_last()) + Seq::new(
            seats.last() as nat,
            |_k: int| (seats.len() - 1) as usize,
        )
    }
}

/// The position that step `k` of the shuffle swaps slot `k` with, drawn
/// from two bytes of the seed: a number in `0..=k`.
pub open spec fn draw(seed: Seq<u8>, k: int) -> int {
    (seed[k % 32] * 256 + seed[((k % 32) * 7 + 3) % 32] + k) % (k + 1)
}

/// `t` with the entries at `a` and `b` exchanged.
pub open spec fn swap(t: Seq<usize>, a: int, b: int) -> Seq<usize> {
    t.update(a, t[b]).update(b, t[a])
}

/// The first `k` steps of the seeded shuffle: step `i`, for `i` from 1,
/// swaps slot `i` with slot `draw(seed, i)`.
pub open spec fn shuffle_steps(t: Seq<usize>, seed: Seq<u8>, k: int) -> Seq<usize>
    decreases k,
{
    if k <= 1 {
        t
    } else {
        swap(shuffle_steps(t, seed, k - 1), k - 1, draw(seed, k - 1))
    }
}

/// The seat list shuffled by the seed, so that each validator's seats are
/// spread over the epoch's slots.
pub open spec fn slot_layout(seats: Seq<usize>, seed: Seq<u8>) -> Seq<usize> {
    let e = expand_seats(seats);
    shuffle_steps(e, seed, e.len() as int)
}

proof fn expand_seats_facts(seats: Seq<usize>)
    ensures
        expand_seats(seats).len() == seat_sum(seats),
        forall|k: int|
            0 <= k < expand_seats(seats).len() ==> #[trigger] expand_seats(seats)[k]
                < seats.len(),
    decreases seats.len(),
{
    if seats.len() > 0 {
        expand_seats_facts(seats.drop_last());
    }
}

proof fn swap_keeps_multiset(t: Seq<usize>, a: int, b: int)
    requires
        0 <= a < t.len(),
        0 <= b < t.len(),
    ensures
        swap(t, a, b).to_multiset() == t.to_multiset(),
{
    let u = t.update(a, t[b]);
    vstd::seq_lib::to_multiset_update(t, a, t[b]);
    vstd::seq_lib::to_multiset_update(u, b, t[a]);
    if a == b {
        assert(swap(t, a, b) =~= t);
    } else {
        broadcast use vstd::multiset::group_multiset_axioms;

        assert(u[b] == t[b]);
        vstd::seq_lib::to_multiset_contains(t, t[a]);
        vstd::seq_lib::to_multiset_contains(t, t[b]);
        assert(t.contains(t[a]));
        assert(t.contains(t[b]));
        assert(swap(t, a, b).to_multiset() =~= t.to_multiset());
    }
}

/// Lays out the seats over the epoch's slots: each validator's index once
/// per seat, shuffled by swaps drawn from the seed.
pub fn layout_slots(seats: &Vec<usize>, seed: &[u8; 32]) -> (r: Vec<usize>)
    requires
        seat_sum(seats@) <= usize::MAX,
    ensures
        r@ == slot_layout(seats@, seed@),
        r@.to_multiset() == expand_seats(seats@).to_multiset(),
        r@.len() == seat_sum(seats@),
        forall|k: int| 0 <= k < r@.len() ==> #[trigger] r@[k] < seats@.len(),
{
    let n = seats.len();
    let mut all: Vec<usize> = Vec::new();
    let mut i: usize = 0;
    while i < n
        invariant
            n == seats@.len(),
            0 <= i <= n,
            seat_sum(seats@) <= usize::MAX,
            all@ == expand_seats(seats@.subrange(0, i as int)),
        decreases n - i,
    {
        let ghost prefix = all@;
        proof {
            assert(seats@.subrange(0, i as int + 1).drop_last() =~= seats@.subrange(0, i as int));
            expand_seats_facts(seats@.subrange(0, i as int + 1));
            seat_sum_prefix(seats@, i as int + 1);
        }
        let mut c: usize = 0;
        while c < seats[i]
            invariant
                n == seats@.len(),
                0 <= i < n,
                0 <= c <= seats@[i as int],
                all@ == prefix + Seq::new(c as nat, |_k: int| i),
                prefix.len() + seats@[i as int] <= usize::MAX,
            decreases seats@[i as int] - c,
        {
            all.push(i);
            c = c + 1;
            assert(all@ =~= prefix + Seq::new(c as nat, |_k: int| i));
        }
        assert(all@ =~= expand_seats(seats@.subrange(0, i as int + 1)));
        i = i + 1;
    }
    assert(seats@.subrange(0, n as int) =~= seats@);
    proof {
        expand_seats_facts(seats@);
    }
    let len = all.len();
    let ghost e = all@;
    let mut k: usize = 1;
    while k < len
        invariant
            e == expand_seats(seats@),
            len == all@.len(),
            len == e.len(),
            seed@.len() == 32,
            1 <= k,
            k <= len || len == 0,
            all@ == shuffle_steps(e, seed@, k as int),
            all@.to_multiset() == e.to_multiset(),
            forall|j: int| 0 <= j < len ==> #[trigger] all@[j] < seats@.len(),
        decreases len - k,
    {
        let hi = seed[k % 32] as u128;
        let lo = seed[((k % 32) * 7 + 3) % 32] as u128;
        let j = ((hi * 256 + lo + k as u128) % (k as u128 + 1)) as usize;
        let ghost t = all@;
        let at_k = all[k];
        let at_j = all[j];
        all.set(k, at_j);
        all.set(j, at_k);
        proof {
            assert(all@ =~= swap(t, k as int, j as int));
            assert(j as int == draw(seed@, k as int));
            swap_keeps_multiset(t, k as int, j as int);
        }
        k = k + 1;
    }
    if len == 0 {
        assert(all@ == shuffle_steps(e, seed@, 0));
    }
    all
}

/// The sum of a prefix of the seats is at most the sum of all of them.
pub(crate) proof fn seat_sum_prefix(seats: Seq<usize>, k: int)
    requires
        0 <= k <= seats.len(),
    ensures
        seat_sum(seats.subrange(0, k)) <= seat_sum(seats),
    decreases seats.len() - k,
{
    if k < seats.len() {
        seat_sum_prefix(seats, k + 1);
        assert(seats.subrange(0, k + 1).drop_last() =~= seats.subrange(0, k));
        seat_le_sum(seats.subrange(0, k + 1), k);
    } else {
        assert(seats.subrange(0, k) =~= seats);
    }
}

} // verus!
