//! The records and the store that owns them.

use vstd::prelude::*;

verus! {

/// One flashcard: a character, the code that produces it, and how well it is known.
///
/// A negative rating marks a difficult record, zero a new one, one to three an
/// easy one and anything above a very easy one.
#[derive(Clone, Debug, PartialEq)]
pub struct Chinese {
    pub char: String,
    pub code: String,
    pub rating: i16,
}

/// The mathematical value of a record.
pub ghost struct Entry {
    pub character: Seq<char>,
    pub code: Seq<char>,
    pub rating: int,
}

impl View for Chinese {
    type V = Entry;

    open spec fn view(&self) -> Entry {
        Entry { character: self.char@, code: self.code@, rating: self.rating as int }
    }
}

/// The values of a sequence of records, in the same order.
pub open spec fn entries(records: Seq<Chinese>) -> Seq<Entry> {
    Seq::new(records.len(), |i: int| records[i]@)
}

/// The ordered collection of records.
pub struct CJDatabase {
    pub v: Vec<Chinese>,
}

impl View for CJDatabase {
    type V = Seq<Entry>;

    open spec fn view(&self) -> Seq<Entry> {
        entries(self.v@)
    }
}

impl Chinese {
    /// A deep copy of the record.
    pub fn duplicate(&self) -> (copy: Chinese)
        ensures
            copy@ == self@,
    {
        Chinese { char: self.char.clone(), code: self.code.clone(), rating: self.rating }
    }

    /// Whether two records agree in character, code and rating.
    pub fn same_as(&self, other: &Chinese) -> (same: bool)
        ensures
            same == (self@ == other@),
    {
        self.char == other.char && self.code == other.code && self.rating == other.rating
    }
}

} // verus!
