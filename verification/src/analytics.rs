//! Complexity descriptors of the sorting algorithms.

use vstd::prelude::*;

verus! {

/// The asymptotic notation a bound is stated in.
#[derive(Clone, Copy, Debug, PartialEq, Eq, Structural)]
pub enum Notation {
    SmallO,
    BigO,
    Theta,
    UpperOmega,
    LowerOmega,
}

impl Notation {
    /// The letter the notation is written with.
    pub open spec fn spec_symbol(self) -> Seq<char> {
        match self {
            Notation::SmallO => "o"@,
            Notation::BigO => "O"@,
            Notation::Theta => "\u{03B8}"@,
            Notation::UpperOmega => "\u{03A9}"@,
            Notation::LowerOmega => "\u{03C9}"@,
        }
    }

    /// The letter the notation is written with.
    pub fn symbol(&self) -> (s: &'static str)
        ensures
            s@ == self.spec_symbol(),
    {
        match self {
            Notation::SmallO => "o",
            Notation::BigO => "O",
            Notation::Theta => "\u{03B8}",
            Notation::UpperOmega => "\u{03A9}",
            Notation::LowerOmega => "\u{03C9}",
        }
    }
}

/// How a cost grows with the number of items `n`.
#[derive(Clone, Copy, Debug, PartialEq, Eq, Structural)]
pub enum Rate {
    Constant,
    Linear,
    Quadratic,
    LogN,
    NLogN,
    NNFact,
    Infinite,
}

impl Rate {
    /// The formula the rate is written as.
    pub open spec fn spec_symbol(self) -> Seq<char> {
        match self {
            Rate::Constant => "1"@,
            Rate::Linear => "n"@,
            Rate::Quadratic => "n\u{00B2}"@,
            Rate::LogN => "log n"@,
            Rate::NLogN => "n log n"@,
            Rate::NNFact => "n x n!"@,
            Rate::Infinite => "\u{221E}"@,
        }
    }

    /// The formula the rate is written as.
    pub fn symbol(&self) -> (s: &'static str)
        ensures
            s@ == self.spec_symbol(),
    {
        match self {
            Rate::Constant => "1",
            Rate::Linear => "n",
            Rate::Quadratic => "n\u{00B2}",
            Rate::LogN => "log n",
            Rate::NLogN => "n log n",
            Rate::NNFact => "n x n!",
            Rate::Infinite => "\u{221E}",
        }
    }
}

/// One bound: a growth rate under a notation.
#[derive(Clone, Copy, Debug, PartialEq, Eq, Structural)]
pub struct Complexity {
    pub notation: Notation,
    pub rate: Rate,
}

impl Complexity {
    /// A bound of the given rate under the given notation.
    pub fn new(notation: Notation, rate: Rate) -> (c: Complexity)
        ensures
            c == (Complexity { notation, rate }),
    {
        Complexity { notation, rate }
    }

    /// The bound as it is written: the notation's letter and the rate in brackets.
    pub open spec fn spec_text(self) -> Seq<char> {
        self.notation.spec_symbol() + "("@ + self.rate.spec_symbol() + ")"@
    }

    /// The bound as it is written, such as `O(n log n)`.
    pub fn to_text(&self) -> (text: String)
        ensures
            text@ == self.spec_text(),
    {
        let mut text = String::new();
        text.push_str(self.notation.symbol());
        text.push_str("(");
        text.push_str(self.rate.symbol());
        text.push_str(")");
        proof {
            assert(text@ =~= self.spec_text());
        }
        text
    }

    /// An upper bound in big-O notation.
    pub fn big_o(rate: Rate) -> (c: Complexity)
        ensures
            c == (Complexity { notation: Notation::BigO, rate }),
    {
        Complexity { notation: Notation::BigO, rate }
    }
}

/// The time and space bounds of one algorithm.
#[derive(Clone, Copy, Debug, PartialEq, Eq, Structural)]
pub struct Analytics {
    pub worst: Complexity,
    pub average: Complexity,
    pub best: Complexity,
    pub worst_space: Complexity,
}

impl Analytics {
    /// The bounds of one algorithm, each under its heading.
    pub fn new(
        worst_time: Complexity,
        average_time: Complexity,
        best_time: Complexity,
        worst_space: Complexity,
    ) -> (a: Analytics)
        ensures
            a == (Analytics {
                worst: worst_time,
                average: average_time,
                best: best_time,
                worst_space,
            }),
    {
        Analytics { worst: worst_time, average: average_time, best: best_time, worst_space }
    }

    /// The four bounds as they are shown, one line each.
    pub open spec fn spec_text(self) -> Seq<char> {
        "Worst time: "@ + self.worst.spec_text() + "\nAverage time: "@ + self.average.spec_text()
            + "\nBest time: "@ + self.best.spec_text() + "\nWorst space: "@
            + self.worst_space.spec_text() + "\n"@
    }

    /// The four bounds as they are shown, one line each.
    pub fn to_text(&self) -> (text: String)
        ensures
            text@ == self.spec_text(),
    {
        let mut text = String::new();
        text.push_str("Worst time: ");
        text.push_str(self.worst.to_text().as_str());
        text.push_str("\nAverage time: ");
        text.push_str(self.average.to_text().as_str());
        text.push_str("\nBest time: ");
        text.push_str(self.best.to_text().as_str());
        text.push_str("\nWorst space: ");
        text.push_str(self.worst_space.to_text().as_str());
        text.push_str("\n");
        proof {
            assert(text@ =~= self.spec_text());
        }
        text
    }
}

} // verus!
