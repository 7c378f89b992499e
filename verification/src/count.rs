//! The tally of significant operations of one run.

use vstd::prelude::*;
use crate::text::{decimal, decimal_text};

verus! {

/// What a [`Count`] counts.
#[derive(Clone, Copy, Debug, PartialEq, Eq, Structural)]
pub enum CountType {
    Shuffles,
    Comparisons,
    Iterations,
    Merges,
}

impl CountType {
    /// The name of the kind, as it is shown next to a count.
    pub open spec fn spec_name(self) -> Seq<char> {
        match self {
            CountType::Shuffles => "Shuffles"@,
            CountType::Comparisons => "Comparisons"@,
            CountType::Iterations => "Iterations"@,
            CountType::Merges => "Merges"@,
        }
    }

    /// The name in lower case, as it follows a number.
    pub open spec fn spec_label(self) -> Seq<char> {
        match self {
            CountType::Shuffles => "shuffles"@,
            CountType::Comparisons => "comparisons"@,
            CountType::Iterations => "iterations"@,
            CountType::Merges => "merges"@,
        }
    }

    /// The name of the kind.
    pub fn name(&self) -> (s: &'static str)
        ensures
            s@ == self.spec_name(),
    {
        match self {
            CountType::Shuffles => "Shuffles",
            CountType::Comparisons => "Comparisons",
            CountType::Iterations => "Iterations",
            CountType::Merges => "Merges",
        }
    }

    /// The name of the kind in lower case.
    pub fn label(&self) -> (s: &'static str)
        ensures
            s@ == self.spec_label(),
    {
        match self {
            CountType::Shuffles => "shuffles",
            CountType::Comparisons => "comparisons",
            CountType::Iterations => "iterations",
            CountType::Merges => "merges",
        }
    }
}

/// A number of operations of one kind.
#[derive(Clone, Copy, Debug, PartialEq, Eq, Structural)]
pub struct Count {
    count: usize,
    count_type: CountType,
}

impl Count {
    /// The number of operations counted so far.
    pub closed spec fn spec_value(self) -> usize {
        self.count
    }

    /// The kind of operation counted.
    pub closed spec fn spec_kind(self) -> CountType {
        self.count_type
    }

    /// A count of zero operations of the given kind.
    pub fn new(count_type: CountType) -> (c: Count)
        ensures
            c.spec_value() == 0,
            c.spec_kind() == count_type,
    {
        Count { count: 0, count_type }
    }

    /// Counts one more operation.
    pub fn increment(&mut self)
        requires
            old(self).spec_value() < usize::MAX,
        ensures
            final(self).spec_value() == old(self).spec_value() + 1,
            final(self).spec_kind() == old(self).spec_kind(),
    {
        self.count += 1
    }

    /// Whether one more operation can still be counted.
    pub fn has_room(&self) -> (b: bool)
        ensures
            b == (self.spec_value() < usize::MAX),
    {
        self.count < usize::MAX
    }

    /// The number of operations counted so far.
    pub fn value(&self) -> (v: usize)
        ensures
            v == self.spec_value(),
    {
        self.count
    }

    /// The kind of operation counted.
    pub fn kind(&self) -> (k: CountType)
        ensures
            k == self.spec_kind(),
    {
        self.count_type
    }

    /// The count as it is shown: the number, a space, and the kind in lower case.
    pub open spec fn spec_text(self) -> Seq<char> {
        decimal_text(self.spec_value() as nat) + " "@ + self.spec_kind().spec_label()
    }

    /// The count as it is shown, such as `12 comparisons`.
    pub fn to_text(&self) -> (text: String)
        ensures
            text@ == self.spec_text(),
    {
        let mut text = decimal(self.count as u64);
        text.push_str(" ");
        text.push_str(self.count_type.label());
        text
    }
}

} // verus!
