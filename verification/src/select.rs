//! Selection of quiz batches: which records may be drawn at each step, and the
//! drawing itself, which is left to a random number generator.

use vstd::prelude::*;
use rand::seq::{IteratorRandom, SliceRandom};
use crate::database::{entries, CJDatabase, Chinese, Entry};

verus! {

/// `rand::rngs::ThreadRng`, the handle to the random number generator of the
/// current thread. Nothing of its state is visible here.
#[verifier::external_type_specification]
#[verifier::external_body]
pub struct ExThreadRng(rand::rngs::ThreadRng);

/// `rand::thread_rng` hands out the generator of the current thread. Nothing is
/// claimed of it.
pub assume_specification[ rand::thread_rng ]() -> (rng: rand::rngs::ThreadRng);

/// The positions below `n` that `keep` accepts, in increasing order.
pub open spec fn positions(n: nat, keep: spec_fn(int) -> bool) -> Seq<usize>
    decreases n,
{
    if n == 0 {
        Seq::empty()
    } else if keep(n - 1) {
        positions((n - 1) as nat, keep).push((n - 1) as usize)
    } else {
        positions((n - 1) as nat, keep)
    }
}

/// The positions of the records of `s` whose rating lies between `lo` and `hi`,
/// both included.
pub open spec fn band_positions(s: Seq<Entry>, lo: int, hi: int) -> Seq<usize> {
    positions(s.len(), |i: int| lo <= s[i].rating <= hi)
}

/// Whether the record at position `i` differs from every record that `chosen`
/// points at.
pub open spec fn is_fresh(s: Seq<Entry>, chosen: Seq<usize>, i: int) -> bool {
    forall|k: int| 0 <= k < chosen.len() ==> s[#[trigger] chosen[k] as int] != s[i]
}

/// The positions of the records of `s` that differ from every record chosen so far.
pub open spec fn fresh_positions(s: Seq<Entry>, chosen: Seq<usize>) -> Seq<usize> {
    positions(s.len(), |i: int| is_fresh(s, chosen, i))
}

/// Whether `picked` is a possible outcome of drawing `amount` positions from
/// `pool` without replacement: as many as asked for, or the whole pool where it
/// is smaller, none twice, each from the pool.
pub open spec fn is_draw(picked: Seq<usize>, pool: Seq<usize>, amount: int) -> bool {
    &&& picked.len() == if amount <= pool.len() { amount } else { pool.len() as int }
    &&& picked.no_duplicates()
    &&& forall|k: int| 0 <= k < picked.len() ==> pool.contains(#[trigger] picked[k])
}

/// The records of `s` at the positions `picks`, in the order of `picks`.
pub open spec fn picked_entries(s: Seq<Entry>, picks: Seq<usize>) -> Seq<Entry> {
    Seq::new(picks.len(), |k: int| s[picks[k] as int])
}

/// Whether every position of `picks` lies in a store of `n` records.
pub open spec fn in_range(picks: Seq<usize>, n: int) -> bool {
    forall|k: int| 0 <= k < picks.len() ==> (#[trigger] picks[k]) < n
}

/// Whether every record of `s` that `picks` points at is rated below `bound`.
pub open spec fn rated_below(s: Seq<Entry>, picks: Seq<usize>, bound: int) -> bool {
    forall|k: int| 0 <= k < picks.len() ==> s[#[trigger] picks[k] as int].rating < bound
}

/// Whether `batch` holds the records of `s` at the positions `picks`, in some order.
pub open spec fn is_batch_of(s: Seq<Entry>, picks: Seq<usize>, batch: Seq<Entry>) -> bool {
    exists|order: Seq<usize>|
        {
            &&& order.to_multiset() == picks.to_multiset()
            &&& in_range(order, s.len() as int)
            &&& batch == #[trigger] picked_entries(s, order)
        }
}

/// Whether `d`, `z`, `e`, `v` and `r` are possible outcomes of the five draws of
/// the selection by rating band: a third of `item_count` at most from the
/// difficult records, from the new ones and from the easy ones, then what is
/// still missing from the very easy ones, then from all records. Only the last
/// draw can bring a record that an earlier one brought.
pub open spec fn score_draws(
    s: Seq<Entry>,
    item_count: int,
    d: Seq<usize>,
    z: Seq<usize>,
    e: Seq<usize>,
    v: Seq<usize>,
    r: Seq<usize>,
) -> bool {
    &&& is_draw(d, band_positions(s, i16::MIN as int, -1), item_count / 3)
    &&& is_draw(z, band_positions(s, 0, 0), item_count / 3)
    &&& is_draw(e, band_positions(s, 1, 3), item_count / 3)
    &&& is_draw(v, band_positions(s, 4, i16::MAX as int), item_count - (d + z + e).len())
    &&& is_draw(
        r,
        band_positions(s, i16::MIN as int, i16::MAX as int),
        item_count - (d + z + e + v).len(),
    )
    &&& (d + z + e + v).no_duplicates()
}

/// Whether `d`, `z`, `e1`, `e2`, `e3` and `r` are possible outcomes of the six
/// draws of the selection that favours new records: a tenth of `item_count` at
/// most from the difficult records, eight tenths from the new ones, what is
/// still missing from the records rated one, then two, then three, and last
/// from the records that differ from all that were drawn. No position is
/// drawn twice.
pub open spec fn smart_draws(
    s: Seq<Entry>,
    item_count: int,
    d: Seq<usize>,
    z: Seq<usize>,
    e1: Seq<usize>,
    e2: Seq<usize>,
    e3: Seq<usize>,
    r: Seq<usize>,
) -> bool {
    &&& is_draw(d, band_positions(s, i16::MIN as int, -1), item_count / 10)
    &&& is_draw(z, band_positions(s, 0, 0), item_count * 8 / 10)
    &&& is_draw(e1, band_positions(s, 1, 1), item_count - (d + z).len())
    &&& is_draw(e2, band_positions(s, 2, 2), item_count - (d + z + e1).len())
    &&& is_draw(e3, band_positions(s, 3, 3), item_count - (d + z + e1 + e2).len())
    &&& is_draw(
        r,
        fresh_positions(s, d + z + e1 + e2 + e3),
        item_count - (d + z + e1 + e2 + e3).len(),
    )
    &&& (d + z + e1 + e2 + e3 + r).no_duplicates()
}

/// Whether no two records of `s` agree in character, code and rating.
pub open spec fn all_differ(s: Seq<Entry>) -> bool {
    forall|i: int, j: int| 0 <= i < j < s.len() ==> s[i] != s[j]
}

/// How many of the positions `chosen` lie below `m`.
pub open spec fn count_below(chosen: Seq<usize>, m: int) -> nat
    decreases chosen.len(),
{
    if chosen.len() == 0 {
        0
    } else {
        count_below(chosen.drop_last(), m) + if chosen.last() < m {
            1nat
        } else {
            0nat
        }
    }
}

/// What `positions` holds: positions below `n` that `keep` accepts, in strictly
/// increasing order, and every such position.
pub proof fn lemma_positions(n: nat, keep: spec_fn(int) -> bool)
    requires
        n <= usize::MAX,
    ensures
        positions(n, keep).len() <= n,
        forall|k: int|
            0 <= k < positions(n, keep).len() ==> (#[trigger] positions(n, keep)[k]) < n && keep(
                positions(n, keep)[k] as int,
            ),
        forall|j: int, k: int|
            0 <= j < k < positions(n, keep).len() ==> positions(n, keep)[j] < positions(
                n,
                keep,
            )[k],
        forall|p: usize| p < n && keep(p as int) ==> #[trigger] positions(n, keep).contains(p),
        positions(n, keep).no_duplicates(),
        (forall|i: int| 0 <= i < n ==> #[trigger] keep(i)) ==> positions(n, keep).len() == n,
    decreases n,
{
    if n > 0 {
        let before = positions((n - 1) as nat, keep);
        lemma_positions((n - 1) as nat, keep);
        let all = positions(n, keep);
        if keep(n - 1) {
            assert(all == before.push((n - 1) as usize));
            assert(all[all.len() - 1] == (n - 1) as usize);
        }
        assert forall|p: usize| p < n && keep(p as int) implies #[trigger] all.contains(p) by {
            if p < n - 1 {
                assert(before.contains(p));
                let k = choose|k: int| 0 <= k < before.len() && before[k] == p;
                assert(all[k] == p);
            } else {
                assert(all[all.len() - 1] == p);
            }
        }
    }
}

/// Raising the bound by one counts at least one position more where the old
/// bound is among the positions, and never fewer; no more are counted than there are.
pub proof fn lemma_count_below(chosen: Seq<usize>, m: int)
    ensures
        count_below(chosen, m) <= count_below(chosen, m + 1) <= chosen.len(),
        (exists|k: int| 0 <= k < chosen.len() && chosen[k] == m) ==> count_below(chosen, m)
            < count_below(chosen, m + 1),
    decreases chosen.len(),
{
    if chosen.len() > 0 {
        lemma_count_below(chosen.drop_last(), m);
        if exists|k: int| 0 <= k < chosen.len() && chosen[k] == m {
            let k = choose|k: int| 0 <= k < chosen.len() && chosen[k] == m;
            if k < chosen.len() - 1 {
                assert(chosen.drop_last()[k] == m);
            }
        }
    }
}

/// In a store without equal records, the records that differ from all chosen
/// ones are at least as many as the store holds beyond the chosen ones.
pub proof fn lemma_fresh_count(s: Seq<Entry>, chosen: Seq<usize>, m: nat)
    requires
        all_differ(s),
        in_range(chosen, s.len() as int),
        m <= s.len() <= usize::MAX,
    ensures
        positions(m, |i: int| is_fresh(s, chosen, i)).len() + count_below(chosen, m as int) >= m,
    decreases m,
{
    if m > 0 {
        let keep = |i: int| is_fresh(s, chosen, i);
        lemma_fresh_count(s, chosen, (m - 1) as nat);
        lemma_count_below(chosen, m - 1);
        if !keep(m - 1) {
            let k = choose|k: int| 0 <= k < chosen.len() && s[chosen[k] as int] == s[m - 1];
            assert(chosen[k] < s.len());
            assert(chosen[k] == m - 1);
        }
    }
}

/// A draw from accepted positions below `n` holds positions below `n`.
pub proof fn lemma_draw_in_range(picked: Seq<usize>, n: nat, keep: spec_fn(int) -> bool, amount: int)
    requires
        n <= usize::MAX,
        is_draw(picked, positions(n, keep), amount),
    ensures
        in_range(picked, n as int),
        picked.len() <= n,
{
    lemma_positions(n, keep);
    assert forall|k: int| 0 <= k < picked.len() implies (#[trigger] picked[k]) < n by {
        assert(positions(n, keep).contains(picked[k]));
    }
}

/// Positions below `n`, none of them twice, are `n` at most.
pub proof fn lemma_distinct_fit(picks: Seq<usize>, n: nat)
    requires
        picks.no_duplicates(),
        in_range(picks, n as int),
    ensures
        picks.len() <= n,
    decreases n,
{
    if picks.len() > 0 {
        if n == 0 {
            assert(picks[0] < 0);
        } else if exists|i: int| 0 <= i < picks.len() && picks[i] == n - 1 {
            let i = choose|i: int| 0 <= i < picks.len() && picks[i] == n - 1;
            let rest = picks.remove(i);
            assert forall|k: int| 0 <= k < rest.len() implies (#[trigger] rest[k]) < n - 1 by {
                if k < i {
                    assert(rest[k] == picks[k]);
                } else {
                    assert(rest[k] == picks[k + 1]);
                }
            }
            assert forall|j: int, k: int| 0 <= j < k < rest.len() implies rest[j] != rest[k] by {
                assert(rest[j] == picks[if j < i { j } else { j + 1 }]);
                assert(rest[k] == picks[if k < i { k } else { k + 1 }]);
            }
            lemma_distinct_fit(rest, (n - 1) as nat);
        } else {
            assert forall|k: int| 0 <= k < picks.len() implies (#[trigger] picks[k]) < n - 1 by {
                assert(picks[k] < n);
            }
            lemma_distinct_fit(picks, (n - 1) as nat);
        }
    }
}

/// Two sequences without duplicates that share no position make one without
/// duplicates.
pub proof fn lemma_distinct_joined(a: Seq<usize>, b: Seq<usize>)
    requires
        a.no_duplicates(),
        b.no_duplicates(),
        forall|i: int, j: int| 0 <= i < a.len() && 0 <= j < b.len() ==> a[i] != b[j],
    ensures
        (a + b).no_duplicates(),
{
    assert forall|i: int, j: int| 0 <= i < j < (a + b).len() implies (a + b)[i] != (a + b)[j] by {
        if j < a.len() {
            assert((a + b)[i] == a[i] && (a + b)[j] == a[j]);
        } else if i < a.len() {
            assert((a + b)[i] == a[i] && (a + b)[j] == b[j - a.len()]);
        } else {
            assert((a + b)[i] == b[i - a.len()] && (a + b)[j] == b[j - a.len()]);
        }
    }
}

/// `IteratorRandom::choose_multiple` of rand on the positions in `pool`. It
/// fills a reservoir with the first `amount` items and lets later items take
/// the place of earlier ones, so that the result holds `amount` items from
/// different places of the pool; which ones, and in what order, is left open.
#[verifier::external_body]
fn choose_positions(rng: &mut rand::rngs::ThreadRng, pool: &Vec<usize>, amount: usize) -> (picked:
    Vec<usize>)
    requires
        pool@.no_duplicates(),
        amount <= pool@.len(),
    ensures
        is_draw(picked@, pool@, amount as int),
{
    pool.iter().copied().choose_multiple(rng, amount)
}

/// `SliceRandom::choose` of rand: a reference to one element of the slice, or
/// nothing where the slice is empty.
#[verifier::external_body]
fn choose_record<'a>(rng: &mut rand::rngs::ThreadRng, pool: &'a Vec<Chinese>) -> (one: Option<
    &'a Chinese,
>)
    ensures
        one is Some <==> pool@.len() > 0,
        one is Some ==> pool@.contains(*one.unwrap()),
{
    pool.choose(rng)
}

/// `SliceRandom::shuffle` of rand: the slice is permuted in place by swaps.
#[verifier::external_body]
fn shuffle_positions(rng: &mut rand::rngs::ThreadRng, items: &mut Vec<usize>)
    ensures
        final(items)@.to_multiset() == old(items)@.to_multiset(),
{
    items.shuffle(rng)
}

/// Appends the positions in `picks` to `items` for as long as `items` holds
/// fewer than `limit` positions.
pub fn take_up_to(items: &mut Vec<usize>, picks: &Vec<usize>, limit: usize)
    ensures
        final(items)@ == old(items)@ + picks@.take(
            if old(items)@.len() >= limit {
                0
            } else if picks@.len() <= limit - old(items)@.len() {
                picks@.len() as int
            } else {
                limit - old(items)@.len()
            },
        ),
{
    let mut k: usize = 0;
    while k < picks.len() && items.len() < limit
        invariant
            k <= picks@.len(),
            items@ == old(items)@ + picks@.take(k as int),
            k > 0 ==> items@.len() <= limit,
        decreases picks@.len() - k,
    {
        items.push(picks[k]);
        k += 1;
        assert(picks@.take(k as int) == picks@.take(k - 1).push(picks@[k - 1]));
    }
}

/// A permutation of positions inside a store leaves them inside it.
pub proof fn lemma_reordered_in_range(a: Seq<usize>, b: Seq<usize>, n: int)
    requires
        a.to_multiset() == b.to_multiset(),
        in_range(a, n),
    ensures
        in_range(b, n),
        a.len() == b.len(),
{
    a.to_multiset_ensures();
    b.to_multiset_ensures();
    assert forall|k: int| 0 <= k < b.len() implies (#[trigger] b[k]) < n by {
        assert(b.contains(b[k]));
        assert(b.to_multiset().count(b[k]) > 0);
        assert(a.to_multiset().count(b[k]) > 0);
        assert(a.contains(b[k]));
        let j = choose|j: int| 0 <= j < a.len() && a[j] == b[k];
        assert(a[j] < n);
    }
}

/// Eight tenths of `count`, rounded down.
pub fn eight_tenths(count: usize) -> (part: usize)
    ensures
        part == count * 8 / 10,
{
    let wide: u128 = count as u128 * 8 / 10;
    wide as usize
}

impl CJDatabase {
    /// The positions of the records whose rating lies between `lo` and `hi`,
    /// both included, in increasing order.
    pub fn band_indices(&self, lo: i16, hi: i16) -> (pool: Vec<usize>)
        ensures
            pool@ == band_positions(self@, lo as int, hi as int),
    {
        let ghost keep = |i: int| lo as int <= self@[i].rating <= hi as int;
        let mut pool: Vec<usize> = Vec::new();
        let mut i: usize = 0;
        while i < self.v.len()
            invariant
                i <= self.v@.len(),
                keep == (|i: int| lo as int <= self@[i].rating <= hi as int),
                pool@ == positions(i as nat, keep),
            decreases self.v@.len() - i,
        {
            if lo <= self.v[i].rating && self.v[i].rating <= hi {
                pool.push(i);
            }
            i += 1;
        }
        pool
    }

    /// The positions of the records that differ from every record that
    /// `chosen` points at, in increasing order.
    pub fn fresh_indices(&self, chosen: &Vec<usize>) -> (pool: Vec<usize>)
        requires
            in_range(chosen@, self@.len() as int),
        ensures
            pool@ == fresh_positions(self@, chosen@),
    {
        let ghost keep = |i: int| is_fresh(self@, chosen@, i);
        let mut pool: Vec<usize> = Vec::new();
        let mut i: usize = 0;
        while i < self.v.len()
            invariant
                i <= self.v@.len(),
                in_range(chosen@, self@.len() as int),
                keep == (|i: int| is_fresh(self@, chosen@, i)),
                pool@ == positions(i as nat, keep),
            decreases self.v@.len() - i,
        {
            let mut fresh = true;
            let mut k: usize = 0;
            while k < chosen.len() && fresh
                invariant
                    i < self.v@.len(),
                    k <= chosen@.len(),
                    in_range(chosen@, self@.len() as int),
                    fresh ==> forall|j: int| 0 <= j < k ==> self@[#[trigger] chosen@[j] as int] != self@[i as int],
                    !fresh ==> !is_fresh(self@, chosen@, i as int),
                decreases chosen@.len() - k,
            {
                assert(chosen@[k as int] < self@.len());
                if self.v[chosen[k]].same_as(&self.v[i]) {
                    fresh = false;
                }
                k += 1;
            }
            if fresh {
                pool.push(i);
            }
            i += 1;
        }
        pool
    }

    /// Deep copies of the records at the positions `picks`, in that order.
    pub fn collect(&self, picks: &Vec<usize>) -> (batch: Vec<Chinese>)
        requires
            in_range(picks@, self@.len() as int),
        ensures
            entries(batch@) == picked_entries(self@, picks@),
    {
        let mut batch: Vec<Chinese> = Vec::new();
        let mut k: usize = 0;
        while k < picks.len()
            invariant
                k <= picks@.len(),
                in_range(picks@, self@.len() as int),
                batch@.len() == k,
                forall|j: int| 0 <= j < k ==> (#[trigger] batch@[j])@ == self@[picks@[j] as int],
            decreases picks@.len() - k,
        {
            assert(picks@[k as int] < self@.len());
            batch.push(self.v[picks[k]].duplicate());
            k += 1;
        }
        assert(entries(batch@) =~= picked_entries(self@, picks@));
        batch
    }

    /// Draws up to `quota` different records whose rating lies between `lo`
    /// and `hi`, and appends them to `items` while it holds fewer than `limit`.
    fn draw_band(
        &self,
        rng: &mut rand::rngs::ThreadRng,
        items: &mut Vec<usize>,
        lo: i16,
        hi: i16,
        quota: usize,
        limit: usize,
    ) -> (picked: Ghost<Seq<usize>>)
        requires
            lo <= hi,
            old(items)@.len() + quota <= limit,
            in_range(old(items)@, self@.len() as int),
        ensures
            is_draw(picked@, band_positions(self@, lo as int, hi as int), quota as int),
            final(items)@ == old(items)@ + picked@,
            in_range(final(items)@, self@.len() as int),
            rated_below(self@, old(items)@, lo as int) ==> rated_below(
                self@,
                final(items)@,
                hi + 1,
            ),
            rated_below(self@, old(items)@, lo as int) && old(items)@.no_duplicates()
                ==> final(items)@.no_duplicates(),
    {
        let pool = self.band_indices(lo, hi);
        let n = self.v.len();
        let ghost keep = |i: int| lo as int <= self@[i].rating <= hi as int;
        proof {
            assert(self@.len() == n);
            lemma_positions(self@.len(), keep);
        }
        let amount = if quota <= pool.len() { quota } else { pool.len() };
        let picked = choose_positions(rng, &pool, amount);
        take_up_to(items, &picked, limit);
        proof {
            lemma_draw_in_range(picked@, self@.len(), keep, quota as int);
            assert(picked@.take(picked@.len() as int) == picked@);
            assert forall|k: int| 0 <= k < picked@.len() implies keep(
                (#[trigger] picked@[k]) as int,
            ) by {
                assert(pool@.contains(picked@[k]));
            }
            if rated_below(self@, old(items)@, lo as int) {
                assert forall|k: int| 0 <= k < items@.len() implies self@[#[trigger] items@[k] as int].rating
                    < hi + 1 by {
                    if k < old(items)@.len() {
                        assert(items@[k] == old(items)@[k]);
                    } else {
                        assert(items@[k] == picked@[k - old(items)@.len()]);
                    }
                }
                if old(items)@.no_duplicates() {
                    lemma_distinct_joined(old(items)@, picked@);
                }
            }
        }
        Ghost(picked@)
    }

    /// Where `items` holds fewer than `limit` positions, draws what is missing
    /// from the records with the given rating and appends it.
    fn draw_rated(
        &self,
        rng: &mut rand::rngs::ThreadRng,
        items: &mut Vec<usize>,
        rating: i16,
        limit: usize,
    ) -> (picked: Ghost<Seq<usize>>)
        requires
            old(items)@.len() <= limit,
            in_range(old(items)@, self@.len() as int),
            rated_below(self@, old(items)@, rating as int),
            old(items)@.no_duplicates(),
        ensures
            is_draw(
                picked@,
                band_positions(self@, rating as int, rating as int),
                limit - old(items)@.len(),
            ),
            final(items)@ == old(items)@ + picked@,
            in_range(final(items)@, self@.len() as int),
            rated_below(self@, final(items)@, rating + 1),
            final(items)@.no_duplicates(),
    {
        if items.len() < limit {
            let quota = limit - items.len();
            self.draw_band(rng, items, rating, rating, quota, limit)
        } else {
            Ghost(Seq::empty())
        }
    }

    /// Draws up to `quota` different records that differ from every record
    /// that `items` points at, and appends them to `items` while it holds
    /// fewer than `limit`.
    fn draw_fresh(
        &self,
        rng: &mut rand::rngs::ThreadRng,
        items: &mut Vec<usize>,
        quota: usize,
        limit: usize,
    ) -> (picked: Ghost<Seq<usize>>)
        requires
            old(items)@.len() + quota <= limit,
            in_range(old(items)@, self@.len() as int),
        ensures
            is_draw(picked@, fresh_positions(self@, old(items)@), quota as int),
            final(items)@ == old(items)@ + picked@,
            in_range(final(items)@, self@.len() as int),
            old(items)@.no_duplicates() ==> final(items)@.no_duplicates(),
    {
        let pool = self.fresh_indices(items);
        let n = self.v.len();
        let ghost keep = |i: int| is_fresh(self@, items@, i);
        proof {
            assert(self@.len() == n);
            lemma_positions(self@.len(), keep);
        }
        let amount = if quota <= pool.len() { quota } else { pool.len() };
        let picked = choose_positions(rng, &pool, amount);
        proof {
            lemma_draw_in_range(picked@, self@.len(), keep, quota as int);
            assert(picked@.take(picked@.len() as int) == picked@);
            assert forall|i: int, j: int|
                0 <= i < items@.len() && 0 <= j < picked@.len() implies items@[i] != picked@[j] by {
                assert(pool@.contains(picked@[j]));
                assert(keep(picked@[j] as int));
                assert(self@[items@[i] as int] != self@[picked@[j] as int]);
            }
            if items@.no_duplicates() {
                lemma_distinct_joined(items@, picked@);
            }
        }
        take_up_to(items, &picked, limit);
        Ghost(picked@)
    }

    /// A batch of `item_count` records by rating band: up to a third of it
    /// difficult records (rated below zero), up to a third new ones (rated
    /// zero), up to a third easy ones (rated one to three), each drawn without
    /// replacement; what is still missing comes from the very easy records and
    /// then from all records. The batch is shuffled and holds deep copies.
    pub fn get_items_score(&self, item_count: usize) -> (batch: Vec<Chinese>)
        ensures
            batch@.len() <= item_count,
            item_count <= self@.len() ==> batch@.len() == item_count,
            item_count >= self@.len() ==> batch@.len() >= self@.len(),
            forall|k: int| 0 <= k < batch@.len() ==> self@.contains(#[trigger] entries(batch@)[k]),
            exists|
                d: Seq<usize>,
                z: Seq<usize>,
                e: Seq<usize>,
                v: Seq<usize>,
                r: Seq<usize>,
            |
                #[trigger] score_draws(self@, item_count as int, d, z, e, v, r) && is_batch_of(
                    self@,
                    d + z + e + v + r,
                    entries(batch@),
                ),
    {
        let n = self.v.len();
        assert(self@.len() == n);
        let mut rng = rand::thread_rng();
        let mut items: Vec<usize> = Vec::new();
        let quota = item_count / 3;

        let Ghost(d) = self.draw_band(&mut rng, &mut items, i16::MIN, -1, quota, item_count);
        let Ghost(z) = self.draw_band(&mut rng, &mut items, 0, 0, quota, item_count);
        let Ghost(e) = self.draw_band(&mut rng, &mut items, 1, 3, quota, item_count);
        assert(items@ == d + z + e);

        let rest = item_count - items.len();
        let Ghost(v) = if rest > 0 {
            self.draw_band(&mut rng, &mut items, 4, i16::MAX, rest, item_count)
        } else {
            Ghost(Seq::empty())
        };
        assert(items@ == d + z + e + v);

        let rest = item_count - items.len();
        let Ghost(r) = if rest > 0 {
            self.draw_band(&mut rng, &mut items, i16::MIN, i16::MAX, rest, item_count)
        } else {
            Ghost(Seq::empty())
        };
        let ghost picks = items@;
        proof {
            assert(picks == d + z + e + v + r);
            assert(score_draws(self@, item_count as int, d, z, e, v, r));
            lemma_positions(
                self@.len(),
                |i: int| i16::MIN as int <= self@[i].rating <= i16::MAX as int,
            );
        }

        shuffle_positions(&mut rng, &mut items);
        proof {
            lemma_reordered_in_range(picks, items@, n as int);
        }
        let batch = self.collect(&items);
        assert(is_batch_of(self@, picks, entries(batch@))) by {
            assert(entries(batch@) == picked_entries(self@, items@));
        }
        assert(batch@.len() == entries(batch@).len() == picks.len());
        assert forall|k: int| 0 <= k < batch@.len() implies self@.contains(
            #[trigger] entries(batch@)[k],
        ) by {
            assert(entries(batch@)[k] == self@[items@[k] as int]);
        }
        batch
    }

    /// A batch of `item_count` records that favours new material: up to a
    /// tenth of it difficult records, up to eight tenths new ones, then records
    /// rated one, two and three in turn until the batch is full, each drawn
    /// without replacement; what is still missing comes from the records that
    /// differ from all that were drawn. The batch is shuffled and holds deep
    /// copies.
    pub fn get_items_smart(&self, item_count: usize) -> (batch: Vec<Chinese>)
        ensures
            batch@.len() <= item_count,
            batch@.len() <= self@.len(),
            all_differ(self@) && item_count <= self@.len() ==> batch@.len() == item_count,
            all_differ(self@) && item_count >= self@.len() ==> batch@.len() == self@.len(),
            forall|k: int| 0 <= k < batch@.len() ==> self@.contains(#[trigger] entries(batch@)[k]),
            exists|
                d: Seq<usize>,
                z: Seq<usize>,
                e1: Seq<usize>,
                e2: Seq<usize>,
                e3: Seq<usize>,
                r: Seq<usize>,
            |
                #[trigger] smart_draws(self@, item_count as int, d, z, e1, e2, e3, r)
                    && is_batch_of(self@, d + z + e1 + e2 + e3 + r, entries(batch@)),
    {
        let n = self.v.len();
        assert(self@.len() == n);
        let mut rng = rand::thread_rng();
        let mut items: Vec<usize> = Vec::new();

        let tenth = item_count / 10;
        let Ghost(d) = self.draw_band(&mut rng, &mut items, i16::MIN, -1, tenth, item_count);
        let most = eight_tenths(item_count);
        let Ghost(z) = self.draw_band(&mut rng, &mut items, 0, 0, most, item_count);
        assert(items@ == d + z);

        let Ghost(e1) = self.draw_rated(&mut rng, &mut items, 1, item_count);
        assert(items@ == d + z + e1);
        let Ghost(e2) = self.draw_rated(&mut rng, &mut items, 2, item_count);
        assert(items@ == d + z + e1 + e2);
        let Ghost(e3) = self.draw_rated(&mut rng, &mut items, 3, item_count);
        assert(items@ == d + z + e1 + e2 + e3);

        let rest = item_count - items.len();
        let ghost chosen = items@;
        let Ghost(r) = self.draw_fresh(&mut rng, &mut items, rest, item_count);
        let ghost picks = items@;
        proof {
            assert(picks == d + z + e1 + e2 + e3 + r);
            assert(smart_draws(self@, item_count as int, d, z, e1, e2, e3, r));
            lemma_distinct_fit(picks, self@.len());
            if all_differ(self@) {
                lemma_fresh_count(self@, chosen, self@.len());
                lemma_count_below(chosen, self@.len() as int);
            }
        }

        shuffle_positions(&mut rng, &mut items);
        proof {
            lemma_reordered_in_range(picks, items@, n as int);
        }
        let batch = self.collect(&items);
        assert(is_batch_of(self@, picks, entries(batch@))) by {
            assert(entries(batch@) == picked_entries(self@, items@));
        }
        assert(batch@.len() == entries(batch@).len() == picks.len());
        assert forall|k: int| 0 <= k < batch@.len() implies self@.contains(
            #[trigger] entries(batch@)[k],
        ) by {
            assert(entries(batch@)[k] == self@[items@[k] as int]);
        }
        batch
    }

    /// A batch of `item_count` records, each drawn from all records
    /// independently of the others, so that one record may come several times.
    /// The batch holds deep copies; it is empty where `item_count` is not positive.
    pub fn get_items_random(&self, item_count: i32) -> (batch: Vec<Chinese>)
        requires
            item_count > 0 ==> self@.len() > 0,
        ensures
            batch@.len() == if item_count > 0 { item_count as int } else { 0 },
            forall|k: int| 0 <= k < batch@.len() ==> self@.contains(#[trigger] entries(batch@)[k]),
    {
        let mut rng = rand::thread_rng();
        let mut batch: Vec<Chinese> = Vec::new();
        let mut count: i32 = 0;
        while count < item_count
            invariant
                item_count > 0 ==> self@.len() > 0,
                0 <= count,
                item_count > 0 ==> count <= item_count,
                item_count <= 0 ==> count == 0,
                batch@.len() == count,
                forall|k: int| 0 <= k < batch@.len() ==> self@.contains((#[trigger] batch@[k])@),
            decreases item_count - count,
        {
            count = count + 1;
            let question = choose_record(&mut rng, &self.v);
            assert(self.v@.len() == self@.len());
            match question {
                Some(record) => {
                    let copy = record.duplicate();
                    proof {
                        let i = choose|i: int| 0 <= i < self.v@.len() && self.v@[i] == *record;
                        assert(self@[i] == copy@);
                    }
                    batch.push(copy);
                },
                None => {},
            }
        }
        batch
    }
}

} // verus!
