//! Removal of duplicates: of neighbouring records with the same code and
//! character only the one with the lowest rating stays.

use vstd::prelude::*;
use crate::database::{entries, CJDatabase, Chinese, Entry};
use crate::order::{is_sorted, key_before, lemma_key_order, same_key};

verus! {

/// What one forward pass leaves of `s`: of each run of neighbours with the same
/// `(code, character)`, the first record that has the lowest rating of the run.
pub open spec fn deduped(s: Seq<Entry>) -> Seq<Entry>
    decreases s.len(),
{
    if s.len() == 0 {
        s
    } else {
        let kept = deduped(s.drop_last());
        let x = s.last();
        if kept.len() > 0 && same_key(kept.last(), x) {
            if x.rating < kept.last().rating {
                kept.drop_last().push(x)
            } else {
                kept
            }
        } else {
            kept.push(x)
        }
    }
}

/// Whether each record of `s` comes strictly before every later one.
pub open spec fn is_strictly_sorted(s: Seq<Entry>) -> bool {
    forall|i: int, j: int| 0 <= i < j < s.len() ==> key_before(#[trigger] s[i], #[trigger] s[j])
}

/// Whether no two records of `s` have the same code and character.
pub open spec fn no_shared_key(s: Seq<Entry>) -> bool {
    forall|i: int, j: int| 0 <= i < j < s.len() ==> !same_key(#[trigger] s[i], #[trigger] s[j])
}

/// Whether some record of `s` has the code and character of `e`.
pub open spec fn has_key(s: Seq<Entry>, e: Entry) -> bool {
    exists|j: int| 0 <= j < s.len() && same_key(#[trigger] s[j], e)
}

/// Whatever the order of `s`: every record that stays is one of `s`, every key
/// of `s` stays, the record kept last has the key of the last record of `s`,
/// and nothing is added.
pub proof fn lemma_dedup_keeps(s: Seq<Entry>)
    ensures
        deduped(s).len() <= s.len(),
        s.len() > 0 ==> deduped(s).len() > 0 && same_key(deduped(s).last(), s.last()),
        forall|j: int| 0 <= j < deduped(s).len() ==> s.contains(#[trigger] deduped(s)[j]),
        forall|i: int| 0 <= i < s.len() ==> has_key(deduped(s), #[trigger] s[i]),
    decreases s.len(),
{
    if s.len() > 0 {
        let front = s.drop_last();
        let kept = deduped(front);
        let out = deduped(s);
        let x = s.last();
        lemma_dedup_keeps(front);
        assert forall|j: int| 0 <= j < out.len() implies s.contains(#[trigger] out[j]) by {
            if out[j] == x {
                assert(s[s.len() - 1] == x);
            } else {
                assert(out[j] == kept[j]);
                assert(front.contains(kept[j]));
                let i = choose|i: int| 0 <= i < front.len() && front[i] == kept[j];
                assert(s[i] == kept[j]);
            }
        }
        assert forall|i: int| 0 <= i < s.len() implies has_key(out, #[trigger] s[i]) by {
            if i == s.len() - 1 {
                assert(same_key(out[out.len() - 1], s[i]));
            } else {
                assert(has_key(kept, front[i]));
                let j = choose|j: int| 0 <= j < kept.len() && same_key(#[trigger] kept[j], front[i]);
                assert(same_key(out[j], s[i]));
            }
        }
    }
}

/// In a sorted sequence, a record with the key of the last one has only
/// records of that key behind it.
pub proof fn lemma_same_key_run(s: Seq<Entry>, i: int, j: int)
    requires
        is_sorted(s),
        0 <= i <= j < s.len(),
        same_key(s[i], s.last()),
    ensures
        same_key(s[j], s.last()),
{
    let last = s.last();
    if i < j && j < s.len() - 1 {
        assert(!key_before(s[j], s[i]));
        assert(!key_before(s[s.len() - 1], s[j]));
        lemma_key_order(s[i], s[j], last);
        lemma_key_order(s[j], last, s[i]);
    }
}

/// A sorted sequence without its last record is sorted.
pub proof fn lemma_front_sorted(s: Seq<Entry>)
    requires
        is_sorted(s),
        s.len() > 0,
    ensures
        is_sorted(s.drop_last()),
{
    let front = s.drop_last();
    assert forall|i: int, j: int| 0 <= i < j < front.len() implies !key_before(
        #[trigger] front[j],
        #[trigger] front[i],
    ) by {
        assert(front[i] == s[i] && front[j] == s[j]);
    }
}

/// In a sorted sequence, the last record comes before none of the records
/// that stay of those in front of it.
pub proof fn lemma_kept_not_behind(s: Seq<Entry>, j: int)
    requires
        is_sorted(s),
        s.len() > 0,
        0 <= j < deduped(s.drop_last()).len(),
    ensures
        !key_before(s.last(), deduped(s.drop_last())[j]),
{
    let front = s.drop_last();
    let kept = deduped(front);
    lemma_dedup_keeps(front);
    assert(front.contains(kept[j]));
    let i = choose|i: int| 0 <= i < front.len() && front[i] == kept[j];
    assert(s[i] == kept[j]);
    assert(!key_before(s[s.len() - 1], s[i]));
}

/// In a sorted sequence, no record in front of the last one has its key,
/// unless the record kept last of those in front has it.
pub proof fn lemma_new_key(s: Seq<Entry>, i: int)
    requires
        is_sorted(s),
        0 <= i < s.len() - 1,
        !same_key(deduped(s.drop_last()).last(), s.last()),
    ensures
        !same_key(s[i], s.last()),
{
    let front = s.drop_last();
    lemma_dedup_keeps(front);
    if same_key(s[i], s.last()) {
        lemma_same_key_run(s, i, s.len() - 2);
        assert(front.last() == s[s.len() - 2]);
    }
}

/// On a sorted sequence, what stays is in strictly increasing order.
pub proof fn lemma_dedup_strict(s: Seq<Entry>)
    requires
        is_sorted(s),
    ensures
        is_strictly_sorted(deduped(s)),
    decreases s.len(),
{
    let out = deduped(s);
    if s.len() > 0 {
        let front = s.drop_last();
        let kept = deduped(front);
        let x = s.last();
        lemma_front_sorted(s);
        lemma_dedup_strict(front);
        if kept.len() > 0 && same_key(kept.last(), x) {
            assert forall|i: int, j: int| 0 <= i < j < out.len() implies key_before(
                #[trigger] out[i],
                #[trigger] out[j],
            ) by {
                assert(out[i] == kept[i]);
                assert(key_before(kept[i], kept[j]));
            }
        } else {
            assert(out == kept.push(x));
            assert forall|i: int, j: int| 0 <= i < j < out.len() implies key_before(
                #[trigger] out[i],
                #[trigger] out[j],
            ) by {
                assert(out[i] == kept[i]);
                if j < kept.len() {
                    assert(key_before(kept[i], kept[j]));
                } else {
                    lemma_kept_not_behind(s, kept.len() - 1);
                    lemma_key_order(kept.last(), x, x);
                    if i < kept.len() - 1 {
                        assert(key_before(kept[i], kept[kept.len() - 1]));
                        lemma_key_order(kept[i], kept.last(), x);
                    }
                }
            }
        }
    }
}

/// On a sorted sequence, no record of `s` has a lower rating than the record
/// that stays for its key.
pub proof fn lemma_dedup_lowest(s: Seq<Entry>, i: int, j: int)
    requires
        is_sorted(s),
        0 <= i < s.len(),
        0 <= j < deduped(s).len(),
        same_key(s[i], deduped(s)[j]),
    ensures
        deduped(s)[j].rating <= s[i].rating,
    decreases s.len(),
{
    let out = deduped(s);
    let front = s.drop_last();
    let kept = deduped(front);
    let x = s.last();
    let n = s.len() as int;
    lemma_front_sorted(s);
    lemma_dedup_strict(front);
    lemma_dedup_keeps(front);
    if kept.len() > 0 && same_key(kept.last(), x) {
        if j < out.len() - 1 {
            assert(out[j] == kept[j]);
            if i == n - 1 {
                assert(key_before(kept[j], kept[kept.len() - 1]));
                lemma_key_order(kept[j], kept.last(), x);
            } else {
                assert(front[i] == s[i]);
                lemma_dedup_lowest(front, i, j);
            }
        } else if i < n - 1 {
            assert(front[i] == s[i]);
            lemma_dedup_lowest(front, i, kept.len() - 1);
        }
    } else {
        assert(out == kept.push(x));
        if j < kept.len() {
            assert(out[j] == kept[j]);
            if i == n - 1 {
                lemma_dedup_strict(s);
                assert(key_before(out[j], out[out.len() - 1]));
                lemma_key_order(kept[j], x, x);
            } else {
                assert(front[i] == s[i]);
                lemma_dedup_lowest(front, i, j);
            }
        } else if i < n - 1 {
            if kept.len() > 0 {
                lemma_new_key(s, i);
            }
        }
    }
}

/// On a sorted sequence, as many records stay as it holds if and only if no
/// two of its records share a key.
pub proof fn lemma_dedup_len(s: Seq<Entry>)
    requires
        is_sorted(s),
    ensures
        deduped(s).len() <= s.len(),
        deduped(s).len() == s.len() <==> no_shared_key(s),
    decreases s.len(),
{
    if s.len() > 0 {
        let front = s.drop_last();
        let kept = deduped(front);
        let x = s.last();
        let n = s.len() as int;
        lemma_front_sorted(s);
        lemma_dedup_len(front);
        lemma_dedup_keeps(front);
        if kept.len() > 0 && same_key(kept.last(), x) {
            assert(front.contains(kept[kept.len() - 1]));
            let i = choose|i: int| 0 <= i < front.len() && front[i] == kept[kept.len() - 1];
            assert(same_key(s[i], s[n - 1]));
        } else {
            if no_shared_key(front) {
                assert forall|i: int, j: int| 0 <= i < j < s.len() implies !same_key(
                    #[trigger] s[i],
                    #[trigger] s[j],
                ) by {
                    if j < n - 1 {
                        assert(front[i] == s[i] && front[j] == s[j]);
                    } else {
                        lemma_new_key(s, i);
                    }
                }
            }
            if no_shared_key(s) {
                assert forall|i: int, j: int| 0 <= i < j < front.len() implies !same_key(
                    #[trigger] front[i],
                    #[trigger] front[j],
                ) by {
                    assert(front[i] == s[i] && front[j] == s[j]);
                }
            }
        }
    }
}

/// On a sequence sorted by `(code, character)`, one record stays for each key,
/// in strictly increasing order, with a rating that no record of `s` with that
/// key undercuts; and as many records stay as `s` holds if and only if no two
/// records of `s` share a key.
pub proof fn lemma_dedup_sorted(s: Seq<Entry>)
    requires
        is_sorted(s),
    ensures
        is_strictly_sorted(deduped(s)),
        no_shared_key(deduped(s)),
        forall|i: int| 0 <= i < s.len() ==> has_key(deduped(s), #[trigger] s[i]),
        forall|j: int| 0 <= j < deduped(s).len() ==> s.contains(#[trigger] deduped(s)[j]),
        forall|i: int, j: int|
            0 <= i < s.len() && 0 <= j < deduped(s).len() && same_key(
                #[trigger] s[i],
                #[trigger] deduped(s)[j],
            ) ==> deduped(s)[j].rating <= s[i].rating,
        deduped(s).len() <= s.len(),
        deduped(s).len() == s.len() <==> no_shared_key(s),
{
    let out = deduped(s);
    lemma_dedup_keeps(s);
    lemma_dedup_strict(s);
    lemma_dedup_len(s);
    assert forall|i: int, j: int|
        0 <= i < s.len() && 0 <= j < out.len() && same_key(
            #[trigger] s[i],
            #[trigger] out[j],
        ) implies out[j].rating <= s[i].rating by {
        lemma_dedup_lowest(s, i, j);
    }
    assert forall|i: int, j: int| 0 <= i < j < out.len() implies !same_key(
        #[trigger] out[i],
        #[trigger] out[j],
    ) by {
        lemma_key_order(out[i], out[j], out[j]);
    }
}

impl CJDatabase {
    /// Removes duplicates in one forward pass: a record with the code and the
    /// character of the one kept last is dropped, and takes its place where
    /// its rating is strictly lower. Meant for a store sorted by
    /// `(code, character)`, where it leaves one record for each key.
    pub fn dedup(&mut self)
        ensures
            final(self)@ == deduped(old(self)@),
            final(self)@.len() <= old(self)@.len(),
            forall|j: int|
                0 <= j < final(self)@.len() ==> old(self)@.contains(#[trigger] final(self)@[j]),
            forall|i: int|
                0 <= i < old(self)@.len() ==> has_key(final(self)@, #[trigger] old(self)@[i]),
            is_sorted(old(self)@) ==> is_strictly_sorted(final(self)@) && no_shared_key(
                final(self)@,
            ),
            is_sorted(old(self)@) ==> forall|i: int, j: int|
                0 <= i < old(self)@.len() && 0 <= j < final(self)@.len() && same_key(
                    #[trigger] old(self)@[i],
                    #[trigger] final(self)@[j],
                ) ==> final(self)@[j].rating <= old(self)@[i].rating,
            is_sorted(old(self)@) ==> (final(self)@.len() == old(self)@.len() <==> no_shared_key(
                old(self)@,
            )),
    {
        let mut kept: Vec<Chinese> = Vec::new();
        let mut i: usize = 0;
        while i < self.v.len()
            invariant
                i <= self.v@.len(),
                entries(kept@) == deduped(self@.take(i as int)),
            decreases self.v@.len() - i,
        {
            let ghost before = entries(kept@);
            let n = kept.len();
            assert(self@.take(i + 1).drop_last() == self@.take(i as int));
            if n > 0 && kept[n - 1].same_key_as(&self.v[i]) {
                if self.v[i].rating < kept[n - 1].rating {
                    kept.pop();
                    kept.push(self.v[i].duplicate());
                    assert(entries(kept@) =~= before.drop_last().push(self@[i as int]));
                }
            } else {
                kept.push(self.v[i].duplicate());
                assert(entries(kept@) =~= before.push(self@[i as int]));
            }
            i += 1;
        }
        proof {
            assert(self@.take(i as int) == self@);
            lemma_dedup_keeps(self@);
            if is_sorted(self@) {
                lemma_dedup_sorted(self@);
            }
        }
        self.v = kept;
    }
}

} // verus!
