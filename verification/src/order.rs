//! The order of records: by code, then by character, each compared code point
//! by code point.

use vstd::prelude::*;
use vstd::std_specs::iter::IteratorSpec;
use crate::database::{entries, CJDatabase, Chinese, Entry};

verus! {

/// Whether `a` comes strictly before `b` when both are compared code point by
/// code point, a proper prefix coming before what extends it.
pub open spec fn text_before(a: Seq<char>, b: Seq<char>) -> bool
    decreases a.len(),
{
    if b.len() == 0 {
        false
    } else if a.len() == 0 {
        true
    } else if a[0] != b[0] {
        (a[0] as int) < (b[0] as int)
    } else {
        text_before(a.drop_first(), b.drop_first())
    }
}

/// Whether `a` comes strictly before `b` in the order of `(code, character)`.
pub open spec fn key_before(a: Entry, b: Entry) -> bool {
    text_before(a.code, b.code) || (a.code == b.code && text_before(a.character, b.character))
}

/// Whether two records have the same code and the same character.
pub open spec fn same_key(a: Entry, b: Entry) -> bool {
    a.code == b.code && a.character == b.character
}

/// Whether no record of `s` comes strictly before an earlier one.
pub open spec fn is_sorted(s: Seq<Entry>) -> bool {
    forall|i: int, j: int| 0 <= i < j < s.len() ==> !key_before(#[trigger] s[j], #[trigger] s[i])
}

/// No text comes before itself.
pub proof fn lemma_text_irreflexive(a: Seq<char>)
    ensures
        !text_before(a, a),
    decreases a.len(),
{
    if a.len() > 0 {
        lemma_text_irreflexive(a.drop_first());
    }
}

/// Of two different texts exactly one comes before the other.
pub proof fn lemma_text_total(a: Seq<char>, b: Seq<char>)
    ensures
        a != b ==> (text_before(a, b) <==> !text_before(b, a)),
        a == b ==> !text_before(a, b) && !text_before(b, a),
    decreases a.len(),
{
    if a == b {
        lemma_text_irreflexive(a);
    } else if a.len() > 0 && b.len() > 0 {
        if a[0] == b[0] {
            lemma_text_total(a.drop_first(), b.drop_first());
            if a.drop_first() == b.drop_first() {
                assert(a =~= seq![a[0]] + a.drop_first());
                assert(b =~= seq![b[0]] + b.drop_first());
            }
        }
    } else if a.len() == 0 {
        assert(b.len() > 0) by {
            if b.len() == 0 {
                assert(a =~= b);
            }
        }
    }
}

/// The order of texts is transitive.
pub proof fn lemma_text_transitive(a: Seq<char>, b: Seq<char>, c: Seq<char>)
    requires
        text_before(a, b),
        text_before(b, c),
    ensures
        text_before(a, c),
    decreases a.len(),
{
    if a.len() > 0 && a[0] == b[0] && b[0] == c[0] {
        lemma_text_transitive(a.drop_first(), b.drop_first(), c.drop_first());
    }
}

/// The order of `(code, character)` is a strict total order on keys: no record
/// comes before one of the same key, of two records with different keys exactly
/// one comes before the other, and the order is transitive.
pub proof fn lemma_key_order(a: Entry, b: Entry, c: Entry)
    ensures
        same_key(a, b) ==> !key_before(a, b) && !key_before(b, a),
        !same_key(a, b) ==> (key_before(a, b) <==> !key_before(b, a)),
        key_before(a, b) && key_before(b, c) ==> key_before(a, c),
        !key_before(b, a) && !key_before(c, b) ==> !key_before(c, a),
{
    lemma_text_total(a.code, b.code);
    lemma_text_total(a.character, b.character);
    lemma_text_total(b.code, c.code);
    lemma_text_total(b.character, c.character);
    lemma_text_total(a.code, c.code);
    lemma_text_total(a.character, c.character);
    if text_before(a.code, b.code) && text_before(b.code, c.code) {
        lemma_text_transitive(a.code, b.code, c.code);
    }
    if text_before(a.character, b.character) && text_before(b.character, c.character) {
        lemma_text_transitive(a.character, b.character, c.character);
    }
    if text_before(c.code, b.code) && text_before(b.code, a.code) {
        lemma_text_transitive(c.code, b.code, a.code);
    }
    if text_before(c.character, b.character) && text_before(b.character, a.character) {
        lemma_text_transitive(c.character, b.character, a.character);
    }
}

/// Whether `a` comes strictly before `b`, code point by code point.
pub fn precedes(a: &str, b: &str) -> (before: bool)
    ensures
        before == text_before(a@, b@),
{
    broadcast use vstd::string::group_string_axioms;

    let mut left = a.chars();
    let mut right = b.chars();
    let ghost mut k: int = 0;
    assert(a@.skip(0) == a@ && b@.skip(0) == b@);
    loop
        invariant
            0 <= k <= a@.len(),
            k <= b@.len(),
            left.remaining() == a@.skip(k),
            right.remaining() == b@.skip(k),
            text_before(a@, b@) == text_before(a@.skip(k), b@.skip(k)),
        decreases a@.len() - k,
    {
        let x = left.next();
        let y = right.next();
        match (x, y) {
            (_, None) => {
                return false;
            },
            (None, Some(_)) => {
                return true;
            },
            (Some(c), Some(d)) => {
                if c != d {
                    return c < d;
                }
                proof {
                    assert(a@.skip(k).drop_first() == a@.skip(k + 1));
                    assert(b@.skip(k).drop_first() == b@.skip(k + 1));
                    k = k + 1;
                }
            },
        }
    }
}

impl Chinese {
    /// Whether this record comes strictly before `other` in the order of
    /// `(code, character)`.
    pub fn comes_before(&self, other: &Chinese) -> (before: bool)
        ensures
            before == key_before(self@, other@),
    {
        proof {
            lemma_text_irreflexive(self.code@);
        }
        if self.code == other.code {
            precedes(self.char.as_str(), other.char.as_str())
        } else {
            precedes(self.code.as_str(), other.code.as_str())
        }
    }

    /// Whether this record has the code and the character of `other`.
    pub fn same_key_as(&self, other: &Chinese) -> (same: bool)
        ensures
            same == same_key(self@, other@),
    {
        self.code == other.code && self.char == other.char
    }
}

/// Where `x` goes into `s`: behind the last record that `x` does not come before.
pub open spec fn insert_position(s: Seq<Entry>, x: Entry) -> nat
    decreases s.len(),
{
    if s.len() > 0 && key_before(x, s.last()) {
        insert_position(s.drop_last(), x)
    } else {
        s.len()
    }
}

/// The records of `s` in the order of `(code, character)`, records of the same
/// key in the order in which `s` holds them.
pub open spec fn sorted_entries(s: Seq<Entry>) -> Seq<Entry>
    decreases s.len(),
{
    if s.len() == 0 {
        s
    } else {
        let front = sorted_entries(s.drop_last());
        front.insert(insert_position(front, s.last()) as int, s.last())
    }
}

/// Where `insert_position` puts a record: behind a record it does not come
/// before, and in front of records only that it comes before.
pub proof fn lemma_insert_position(s: Seq<Entry>, x: Entry)
    ensures
        insert_position(s, x) <= s.len(),
        insert_position(s, x) > 0 ==> !key_before(x, s[insert_position(s, x) - 1]),
        forall|j: int| insert_position(s, x) <= j < s.len() ==> key_before(x, #[trigger] s[j]),
    decreases s.len(),
{
    if s.len() > 0 && key_before(x, s.last()) {
        lemma_insert_position(s.drop_last(), x);
        assert forall|j: int| insert_position(s, x) <= j < s.len() implies key_before(
            x,
            #[trigger] s[j],
        ) by {
            if j < s.len() - 1 {
                assert(s.drop_last()[j] == s[j]);
            }
        }
    }
}

/// Sorting leaves a sorted sequence of the same length.
pub proof fn lemma_sort_sorts(s: Seq<Entry>)
    ensures
        is_sorted(sorted_entries(s)),
        sorted_entries(s).len() == s.len(),
    decreases s.len(),
{
    if s.len() > 0 {
        let front = sorted_entries(s.drop_last());
        let x = s.last();
        let p = insert_position(front, x) as int;
        let out = front.insert(p, x);
        lemma_sort_sorts(s.drop_last());
        lemma_insert_position(front, x);
        assert forall|i: int, j: int| 0 <= i < j < out.len() implies !key_before(
            #[trigger] out[j],
            #[trigger] out[i],
        ) by {
            if j < p {
                assert(out[i] == front[i] && out[j] == front[j]);
            } else if j == p {
                assert(out[i] == front[i] && out[j] == x);
                if i < p - 1 {
                    assert(!key_before(front[p - 1], front[i]));
                }
                lemma_key_order(front[i], front[p - 1], x);
            } else if i == p {
                assert(out[j] == front[j - 1]);
                lemma_key_order(x, front[j - 1], x);
            } else if i < p {
                assert(out[i] == front[i] && out[j] == front[j - 1]);
                if i < j - 1 {
                    assert(!key_before(front[j - 1], front[i]));
                } else {
                    lemma_key_order(front[i], front[i], front[i]);
                }
            } else {
                assert(out[i] == front[i - 1] && out[j] == front[j - 1]);
            }
        }
    }
}

/// Sorting keeps every record, as often as it occurs.
pub proof fn lemma_sort_permutes(s: Seq<Entry>)
    ensures
        sorted_entries(s).to_multiset() == s.to_multiset(),
    decreases s.len(),
{
    if s.len() > 0 {
        let front = sorted_entries(s.drop_last());
        lemma_sort_permutes(s.drop_last());
        lemma_insert_position(front, s.last());
        vstd::seq_lib::to_multiset_insert(front, insert_position(front, s.last()) as int, s.last());
        vstd::seq_lib::to_multiset_build(s.drop_last(), s.last());
        assert(s.drop_last().push(s.last()) == s);
    }
}

/// Sorting a sorted sequence changes nothing.
pub proof fn lemma_sort_keeps_sorted(s: Seq<Entry>)
    requires
        is_sorted(s),
    ensures
        sorted_entries(s) == s,
    decreases s.len(),
{
    if s.len() > 0 {
        let front = s.drop_last();
        assert(is_sorted(front)) by {
            assert forall|i: int, j: int| 0 <= i < j < front.len() implies !key_before(
                #[trigger] front[j],
                #[trigger] front[i],
            ) by {
                assert(front[i] == s[i] && front[j] == s[j]);
            }
        }
        lemma_sort_keeps_sorted(front);
        if front.len() > 0 {
            assert(front.last() == s[s.len() - 2]);
            assert(!key_before(s[s.len() - 1], s[s.len() - 2]));
        }
        assert(insert_position(front, s.last()) == front.len());
        assert(front.insert(front.len() as int, s.last()) =~= s);
    }
}

/// Sorting twice gives what sorting once gives.
pub proof fn lemma_sort_idempotent(s: Seq<Entry>)
    ensures
        sorted_entries(sorted_entries(s)) == sorted_entries(s),
{
    lemma_sort_sorts(s);
    lemma_sort_keeps_sorted(sorted_entries(s));
}

/// The records of `s` that have the key of `k`, in their order.
pub open spec fn with_key(s: Seq<Entry>, k: Entry) -> Seq<Entry> {
    s.filter(|e: Entry| same_key(e, k))
}

/// Sorting is stable: the records with the key of `k` come out in the order
/// in which they went in.
pub proof fn lemma_sort_stable(s: Seq<Entry>, k: Entry)
    ensures
        with_key(sorted_entries(s), k) == with_key(s, k),
    decreases s.len(),
{
    let pred = |e: Entry| same_key(e, k);
    if s.len() > 0 {
        let front = sorted_entries(s.drop_last());
        let x = s.last();
        let p = insert_position(front, x) as int;
        lemma_sort_stable(s.drop_last(), k);
        lemma_insert_position(front, x);
        let head = front.subrange(0, p);
        let tail = front.subrange(p, front.len() as int);
        assert(front =~= head + tail);
        assert(front.insert(p, x) =~= head.push(x) + tail);
        Seq::filter_distributes_over_add(head, tail, pred);
        Seq::filter_distributes_over_add(head.push(x), tail, pred);
        head.lemma_filter_push(x, pred);
        s.drop_last().lemma_filter_push(x, pred);
        assert(s.drop_last().push(x) == s);
        if pred(x) {
            assert(tail.all(|e: Entry| !pred(e))) by {
                assert forall|j: int| 0 <= j < tail.len() implies !pred(#[trigger] tail[j]) by {
                    assert(tail[j] == front[p + j]);
                    lemma_key_order(x, tail[j], k);
                    lemma_key_order(tail[j], k, x);
                }
            }
            tail.lemma_all_neg_filter_empty(pred);
            assert(tail.filter(pred) =~= Seq::<Entry>::empty());
            assert(head.filter(pred).push(x) + tail.filter(pred) =~= (head.filter(pred)
                + tail.filter(pred)).push(x));
        }
    }
}

/// A place behind records that `x` does not come before and in front of
/// records that it comes before is the place where `x` goes.
pub proof fn lemma_insert_position_is(s: Seq<Entry>, x: Entry, p: int)
    requires
        0 <= p <= s.len(),
        forall|j: int| 0 <= j < p ==> !key_before(x, #[trigger] s[j]),
        forall|j: int| p <= j < s.len() ==> key_before(x, #[trigger] s[j]),
    ensures
        insert_position(s, x) == p,
{
    lemma_insert_position(s, x);
    let found = insert_position(s, x) as int;
    if found > p {
        assert(key_before(x, s[found - 1]));
    }
    if found < p {
        assert(!key_before(x, s[found]));
    }
}

/// Where `x` goes into the sorted records `sorted`: behind the last record
/// that it does not come before.
pub fn slot_for(sorted: &Vec<Chinese>, x: &Chinese) -> (slot: usize)
    requires
        is_sorted(entries(sorted@)),
    ensures
        slot <= sorted@.len(),
        slot == insert_position(entries(sorted@), x@),
{
    let ghost s = entries(sorted@);
    let mut lo: usize = 0;
    let mut hi: usize = sorted.len();
    while lo < hi
        invariant
            lo <= hi <= sorted@.len(),
            s == entries(sorted@),
            is_sorted(s),
            forall|j: int| 0 <= j < lo ==> !key_before(x@, #[trigger] s[j]),
            forall|j: int| hi <= j < s.len() ==> key_before(x@, #[trigger] s[j]),
        decreases hi - lo,
    {
        let mid = lo + (hi - lo) / 2;
        if x.comes_before(&sorted[mid]) {
            assert forall|j: int| mid <= j < s.len() implies key_before(x@, #[trigger] s[j]) by {
                if mid < j {
                    assert(!key_before(s[j], s[mid as int]));
                    lemma_key_order(x@, s[mid as int], s[j]);
                    lemma_key_order(s[mid as int], s[j], x@);
                }
            }
            hi = mid;
        } else {
            assert forall|j: int| 0 <= j < mid + 1 implies !key_before(x@, #[trigger] s[j]) by {
                if j < mid {
                    assert(!key_before(s[mid as int], s[j]));
                    lemma_key_order(s[j], s[mid as int], x@);
                }
            }
            lo = mid + 1;
        }
    }
    proof {
        lemma_insert_position_is(s, x@, lo as int);
    }
    lo
}

impl CJDatabase {
    /// Sorts the records by `(code, character)`, keeping records of the same
    /// key in their order.
    pub fn sort(&mut self)
        ensures
            final(self)@ == sorted_entries(old(self)@),
            is_sorted(final(self)@),
            final(self)@.to_multiset() == old(self)@.to_multiset(),
            is_sorted(old(self)@) ==> final(self)@ == old(self)@,
            forall|k: Entry| #[trigger] with_key(final(self)@, k) == with_key(old(self)@, k),
    {
        let mut out: Vec<Chinese> = Vec::new();
        let mut i: usize = 0;
        while i < self.v.len()
            invariant
                i <= self.v@.len(),
                entries(out@) == sorted_entries(self@.take(i as int)),
            decreases self.v@.len() - i,
        {
            let x = self.v[i].duplicate();
            let ghost front = entries(out@);
            proof {
                lemma_sort_sorts(self@.take(i as int));
            }
            let p = slot_for(&out, &x);
            out.insert(p, x);
            proof {
                assert(self@.take(i + 1).drop_last() == self@.take(i as int));
                assert(entries(out@) =~= front.insert(p as int, x@));
            }
            i += 1;
        }
        proof {
            assert(self@.take(i as int) == self@);
            lemma_sort_sorts(self@);
            lemma_sort_permutes(self@);
            if is_sorted(self@) {
                lemma_sort_keeps_sorted(self@);
            }
            assert forall|k: Entry| #[trigger] with_key(sorted_entries(self@), k) == with_key(
                self@,
                k,
            ) by {
                lemma_sort_stable(self@, k);
            }
        }
        self.v = out;
    }
}

} // verus!
