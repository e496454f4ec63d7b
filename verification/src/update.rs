//! Writing the ratings of a finished batch back into the store.

use vstd::prelude::*;
use crate::database::{entries, CJDatabase, Chinese, Entry};

verus! {

/// The position of the first record of `s` with the given code, or the length
/// of `s` where no record has it.
pub open spec fn first_with_code(s: Seq<Entry>, code: Seq<char>) -> int
    decreases s.len(),
{
    if s.len() == 0 {
        0
    } else {
        let found = first_with_code(s.drop_last(), code);
        if found < s.len() - 1 {
            found
        } else if s.last().code == code {
            s.len() - 1
        } else {
            s.len() as int
        }
    }
}

/// Whether every record of `batch` has the code of some record of `s`.
pub open spec fn covers(s: Seq<Entry>, batch: Seq<Entry>) -> bool {
    forall|k: int| 0 <= k < batch.len() ==> first_with_code(s, (#[trigger] batch[k]).code) < s.len()
}

/// `s` with the rating of the first record that has the given code replaced.
pub open spec fn rated(s: Seq<Entry>, code: Seq<char>, rating: int) -> Seq<Entry> {
    let at = first_with_code(s, code);
    if at < s.len() {
        s.update(at, Entry { rating: rating, ..s[at] })
    } else {
        s
    }
}

/// `s` after the ratings of `batch` were written into it, record by record.
pub open spec fn updated(s: Seq<Entry>, batch: Seq<Entry>) -> Seq<Entry>
    decreases batch.len(),
{
    if batch.len() == 0 {
        s
    } else {
        rated(updated(s, batch.drop_last()), batch.last().code, batch.last().rating)
    }
}

/// What `first_with_code` finds: a position that no record with the code
/// precedes, and that holds one unless it is the length of `s`.
pub proof fn lemma_first_with_code(s: Seq<Entry>, code: Seq<char>)
    ensures
        0 <= first_with_code(s, code) <= s.len(),
        forall|j: int| 0 <= j < first_with_code(s, code) ==> (#[trigger] s[j]).code != code,
        first_with_code(s, code) < s.len() ==> s[first_with_code(s, code)].code == code,
    decreases s.len(),
{
    if s.len() > 0 {
        lemma_first_with_code(s.drop_last(), code);
        assert forall|j: int| 0 <= j < first_with_code(s, code) implies (#[trigger] s[j]).code
            != code by {
            if j < s.len() - 1 {
                assert(s.drop_last()[j] == s[j]);
            }
        }
    }
}

/// A position that holds the code and that no record with the code precedes is
/// the one that `first_with_code` finds.
pub proof fn lemma_first_is(s: Seq<Entry>, code: Seq<char>, at: int)
    requires
        0 <= at < s.len(),
        s[at].code == code,
        forall|j: int| 0 <= j < at ==> (#[trigger] s[j]).code != code,
    ensures
        first_with_code(s, code) == at,
{
    lemma_first_with_code(s, code);
}

/// Replacing a rating changes no code, so that every code is found where it was.
pub proof fn lemma_rated_keeps_codes(s: Seq<Entry>, code: Seq<char>, rating: int, other: Seq<char>)
    ensures
        rated(s, code, rating).len() == s.len(),
        forall|j: int| 0 <= j < s.len() ==> (#[trigger] rated(s, code, rating)[j]).code == s[j].code,
        forall|j: int|
            0 <= j < s.len() ==> (#[trigger] rated(s, code, rating)[j]).character
                == s[j].character,
        first_with_code(rated(s, code, rating), other) == first_with_code(s, other),
{
    let t = rated(s, code, rating);
    lemma_first_with_code(s, code);
    lemma_first_with_code(s, other);
    lemma_first_with_code(t, other);
    let a = first_with_code(s, other);
    let b = first_with_code(t, other);
    if a < b {
        assert(t[a].code == s[a].code);
    }
    if b < a {
        assert(t[b].code == s[b].code);
    }
}

/// Two sequences that agree in their codes hold each code first at the same place.
pub proof fn lemma_first_by_codes(s: Seq<Entry>, t: Seq<Entry>, code: Seq<char>)
    requires
        s.len() == t.len(),
        forall|j: int| 0 <= j < s.len() ==> (#[trigger] s[j]).code == t[j].code,
    ensures
        first_with_code(s, code) == first_with_code(t, code),
{
    lemma_first_with_code(s, code);
    lemma_first_with_code(t, code);
    let a = first_with_code(s, code);
    let b = first_with_code(t, code);
    if a < b {
        assert(t[a].code == s[a].code);
    }
    if b < a {
        assert(s[b].code == t[b].code);
    }
}

/// An update keeps the number of records, and the code and the character of each.
pub proof fn lemma_update_keeps_keys(s: Seq<Entry>, batch: Seq<Entry>)
    ensures
        updated(s, batch).len() == s.len(),
        forall|j: int|
            0 <= j < s.len() ==> (#[trigger] updated(s, batch)[j]).code == s[j].code && updated(
                s,
                batch,
            )[j].character == s[j].character,
    decreases batch.len(),
{
    if batch.len() > 0 {
        let front = updated(s, batch.drop_last());
        lemma_update_keeps_keys(s, batch.drop_last());
        lemma_rated_keeps_codes(front, batch.last().code, batch.last().rating, batch.last().code);
    }
}

/// Whether no record of `batch` behind the one at `k` has its code.
pub open spec fn is_last_word(batch: Seq<Entry>, k: int) -> bool {
    forall|m: int| k < m < batch.len() ==> (#[trigger] batch[m]).code != batch[k].code
}

/// Whether the record of `s` at `at` is the first with the code of some record
/// of `batch`.
pub open spec fn is_target(s: Seq<Entry>, batch: Seq<Entry>, at: int) -> bool {
    exists|k: int| 0 <= k < batch.len() && first_with_code(s, (#[trigger] batch[k]).code) == at
}

/// After an update, the first record with the code of a batch record has that
/// record's rating, unless a later record of the batch has the same code.
pub proof fn lemma_update_sets(s: Seq<Entry>, batch: Seq<Entry>, k: int)
    requires
        covers(s, batch),
        0 <= k < batch.len(),
        is_last_word(batch, k),
    ensures
        first_with_code(s, batch[k].code) < s.len(),
        updated(s, batch)[first_with_code(s, batch[k].code)].rating == batch[k].rating,
    decreases batch.len(),
{
    let front = batch.drop_last();
    let before = updated(s, front);
    let last = batch.last();
    lemma_update_keeps_keys(s, front);
    lemma_first_by_codes(before, s, last.code);
    lemma_first_with_code(s, last.code);
    lemma_first_with_code(s, batch[k].code);
    assert(first_with_code(s, last.code) < s.len());
    if k < batch.len() - 1 {
        assert(covers(s, front)) by {
            assert forall|j: int| 0 <= j < front.len() implies first_with_code(
                s,
                (#[trigger] front[j]).code,
            ) < s.len() by {
                assert(front[j] == batch[j]);
            }
        }
        assert(is_last_word(front, k)) by {
            assert forall|m: int| k < m < front.len() implies (#[trigger] front[m]).code
                != front[k].code by {
                assert(front[m] == batch[m]);
            }
        }
        lemma_update_sets(s, front, k);
        assert(batch[batch.len() - 1].code != batch[k].code);
    }
}

/// An update leaves every record as it was that is not the first with the
/// code of some batch record.
pub proof fn lemma_update_leaves(s: Seq<Entry>, batch: Seq<Entry>, at: int)
    requires
        0 <= at < s.len(),
        !is_target(s, batch, at),
    ensures
        updated(s, batch)[at] == s[at],
    decreases batch.len(),
{
    if batch.len() > 0 {
        let front = batch.drop_last();
        let before = updated(s, front);
        let last = batch.last();
        lemma_update_keeps_keys(s, front);
        lemma_first_by_codes(before, s, last.code);
        assert(!is_target(s, front, at)) by {
            if is_target(s, front, at) {
                let k = choose|k: int|
                    0 <= k < front.len() && first_with_code(s, (#[trigger] front[k]).code) == at;
                assert(front[k] == batch[k]);
            }
        }
        lemma_update_leaves(s, front, at);
        lemma_first_with_code(s, last.code);
        assert(first_with_code(s, batch[batch.len() - 1].code) != at);
    }
}

/// What an update does: the records keep their number, codes and characters;
/// for each batch record, the first record of the store with its code takes
/// its rating (the rating of the last such batch record, where several have
/// the code); every other record stays as it was.
pub proof fn lemma_update(s: Seq<Entry>, batch: Seq<Entry>)
    requires
        covers(s, batch),
    ensures
        updated(s, batch).len() == s.len(),
        forall|j: int|
            0 <= j < s.len() ==> (#[trigger] updated(s, batch)[j]).code == s[j].code && updated(
                s,
                batch,
            )[j].character == s[j].character,
        forall|k: int|
            0 <= k < batch.len() && is_last_word(batch, k) ==> updated(s, batch)[first_with_code(
                s,
                (#[trigger] batch[k]).code,
            )].rating == batch[k].rating,
        forall|j: int|
            0 <= j < s.len() && !is_target(s, batch, j) ==> (#[trigger] updated(s, batch)[j])
                == s[j],
{
    lemma_update_keeps_keys(s, batch);
    assert forall|k: int| 0 <= k < batch.len() && is_last_word(batch, k) implies updated(
        s,
        batch,
    )[first_with_code(s, (#[trigger] batch[k]).code)].rating == batch[k].rating by {
        lemma_update_sets(s, batch, k);
    }
    assert forall|j: int| 0 <= j < s.len() && !is_target(s, batch, j) implies (#[trigger] updated(
        s,
        batch,
    )[j]) == s[j] by {
        lemma_update_leaves(s, batch, j);
    }
}

/// The rating of a record after an answer. A wrong answer sets it to minus
/// one. A right answer lifts a rating of minus one to one and raises any other
/// rating by one.
pub open spec fn rating_after(rating: int, correct: bool) -> int {
    if !correct {
        -1
    } else if rating == -1 {
        1
    } else {
        rating + 1
    }
}

impl Chinese {
    /// Rates the record after an answer to its question.
    pub fn answered(&mut self, correct: bool)
        requires
            correct ==> old(self).rating < i16::MAX,
        ensures
            final(self)@ == (Entry { rating: rating_after(old(self)@.rating, correct), ..old(self)@ }),
    {
        if !correct {
            self.rating = -1;
        } else if self.rating == -1 {
            self.rating = 1;
        } else {
            self.rating += 1;
        }
    }
}

impl CJDatabase {
    /// The position of the first record with the given code, if any has it.
    pub fn position_of(&self, code: &String) -> (found: Option<usize>)
        ensures
            match found {
                Some(at) => at == first_with_code(self@, code@) && at < self@.len(),
                None => first_with_code(self@, code@) == self@.len(),
            },
    {
        let mut i: usize = 0;
        while i < self.v.len()
            invariant
                i <= self.v@.len(),
                forall|j: int| 0 <= j < i ==> (#[trigger] self@[j]).code != code@,
            decreases self.v@.len() - i,
        {
            if self.v[i].code == *code {
                proof {
                    lemma_first_is(self@, code@, i as int);
                }
                return Some(i);
            }
            i += 1;
        }
        proof {
            lemma_first_with_code(self@, code@);
        }
        None
    }

    /// Whether every record of `items` has the code of some record of the store.
    pub fn holds_all(&self, items: &Vec<Chinese>) -> (all: bool)
        ensures
            all == covers(self@, entries(items@)),
    {
        let mut k: usize = 0;
        while k < items.len()
            invariant
                k <= items@.len(),
                forall|j: int|
                    0 <= j < k ==> first_with_code(self@, (#[trigger] entries(items@)[j]).code)
                        < self@.len(),
            decreases items@.len() - k,
        {
            if self.position_of(&items[k].code).is_none() {
                assert(entries(items@)[k as int].code == items@[k as int].code@);
                return false;
            }
            assert(entries(items@)[k as int].code == items@[k as int].code@);
            k += 1;
        }
        true
    }

    /// Writes the rating of each record of `items`, in their order, into the
    /// first record of the store that has its code.
    pub fn update(&mut self, items: Vec<Chinese>)
        requires
            covers(old(self)@, entries(items@)),
        ensures
            final(self)@ == updated(old(self)@, entries(items@)),
            final(self)@.len() == old(self)@.len(),
            forall|j: int|
                0 <= j < old(self)@.len() ==> (#[trigger] final(self)@[j]).code == old(self)@[j].code
                    && final(self)@[j].character == old(self)@[j].character,
            forall|k: int|
                0 <= k < items@.len() && is_last_word(entries(items@), k) ==> final(self)@[
                    first_with_code(old(self)@, (#[trigger] entries(items@)[k]).code)
                ].rating == entries(items@)[k].rating,
            forall|j: int|
                0 <= j < old(self)@.len() && !is_target(old(self)@, entries(items@), j)
                    ==> #[trigger] final(self)@[j] == old(self)@[j],
    {
        let ghost batch = entries(items@);
        let mut k: usize = 0;
        while k < items.len()
            invariant
                k <= items@.len(),
                batch == entries(items@),
                covers(self@, batch),
                self@ == updated(old(self)@, batch.take(k as int)),
            decreases items@.len() - k,
        {
            let ghost before = self@;
            assert(batch[k as int].code == items@[k as int].code@);
            assert(batch.take(k + 1).drop_last() == batch.take(k as int));
            match self.position_of(&items[k].code) {
                Some(at) => {
                    self.v[at].rating = items[k].rating;
                    proof {
                        assert(self@ =~= rated(before, batch[k as int].code, batch[k as int].rating));
                        assert forall|j: int| 0 <= j < batch.len() implies first_with_code(
                            self@,
                            (#[trigger] batch[j]).code,
                        ) < self@.len() by {
                            lemma_rated_keeps_codes(
                                before,
                                batch[k as int].code,
                                batch[k as int].rating,
                                batch[j].code,
                            );
                        }
                    }
                },
                None => {},
            }
            k += 1;
        }
        proof {
            assert(batch.take(k as int) == batch);
            lemma_update(old(self)@, batch);
        }
    }
}

} // verus!
