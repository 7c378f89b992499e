//! The closed set of algorithms and what is fixed for each of them.

use vstd::prelude::*;
use ratatui::style::Color;
use crate::analytics::{Analytics, Complexity, Notation, Rate};
use crate::count::CountType;

verus! {

/// `ratatui::style::Color`, with its variants open to the verifier.
#[verifier::external_type_specification]
pub struct ExColor(ratatui::style::Color);

/// The algorithm a run sorts with.
#[derive(Clone, Copy, Debug, PartialEq, Eq, Structural)]
pub enum SortType {
    Bogo,
    Bubble,
    Insertion,
    Merge,
    Quick,
}

impl SortType {
    /// The display colour of each algorithm, as red, green and blue.
    pub open spec fn spec_rgb(self) -> (u8, u8, u8) {
        match self {
            SortType::Bogo => (219u8, 77u8, 59u8),
            SortType::Bubble => (59u8, 126u8, 219u8),
            SortType::Insertion => (219u8, 124u8, 59u8),
            SortType::Merge => (50u8, 150u8, 52u8),
            SortType::Quick => (240u8, 128u8, 128u8),
        }
    }

    /// The kind of operation each algorithm counts.
    pub open spec fn spec_count_type(self) -> CountType {
        match self {
            SortType::Bogo => CountType::Shuffles,
            SortType::Bubble => CountType::Comparisons,
            SortType::Insertion => CountType::Comparisons,
            SortType::Merge => CountType::Merges,
            SortType::Quick => CountType::Comparisons,
        }
    }

    /// Worst, average and best time bounds of each algorithm.
    pub open spec fn spec_time_complexity(self) -> (Complexity, Complexity, Complexity) {
        match self {
            SortType::Bogo => (
                Complexity { notation: Notation::BigO, rate: Rate::Infinite },
                Complexity { notation: Notation::LowerOmega, rate: Rate::NNFact },
                Complexity { notation: Notation::UpperOmega, rate: Rate::Linear },
            ),
            SortType::Bubble | SortType::Insertion => (
                Complexity { notation: Notation::BigO, rate: Rate::Quadratic },
                Complexity { notation: Notation::BigO, rate: Rate::Quadratic },
                Complexity { notation: Notation::BigO, rate: Rate::Linear },
            ),
            SortType::Merge => (
                Complexity { notation: Notation::BigO, rate: Rate::NLogN },
                Complexity { notation: Notation::Theta, rate: Rate::NLogN },
                Complexity { notation: Notation::UpperOmega, rate: Rate::NLogN },
            ),
            SortType::Quick => (
                Complexity { notation: Notation::BigO, rate: Rate::Quadratic },
                Complexity { notation: Notation::BigO, rate: Rate::NLogN },
                Complexity { notation: Notation::BigO, rate: Rate::NLogN },
            ),
        }
    }

    /// The worst-case space bound, which is linear for all five.
    pub open spec fn spec_space_complexity(self) -> Complexity {
        Complexity { notation: Notation::BigO, rate: Rate::Linear }
    }

    /// The algorithm's name, without the word "Sort".
    pub open spec fn spec_name(self) -> Seq<char> {
        match self {
            SortType::Bogo => "Bogo"@,
            SortType::Bubble => "Bubble"@,
            SortType::Insertion => "Insertion"@,
            SortType::Merge => "Merge"@,
            SortType::Quick => "Quick"@,
        }
    }

    /// The display colour as red, green and blue.
    pub fn rgb(&self) -> (c: (u8, u8, u8))
        ensures
            c == self.spec_rgb(),
    {
        match self {
            SortType::Bogo => (219, 77, 59),
            SortType::Bubble => (59, 126, 219),
            SortType::Insertion => (219, 124, 59),
            SortType::Merge => (50, 150, 52),
            SortType::Quick => (240, 128, 128),
        }
    }

    /// The display colour as the terminal library's colour value.
    pub fn color(&self) -> (c: Color)
        ensures
            c == Color::Rgb(self.spec_rgb().0, self.spec_rgb().1, self.spec_rgb().2),
    {
        let (r, g, b) = self.rgb();
        Color::Rgb(r, g, b)
    }

    /// The kind of operation the algorithm counts.
    pub fn count_type(&self) -> (k: CountType)
        ensures
            k == self.spec_count_type(),
    {
        match self {
            SortType::Bogo => CountType::Shuffles,
            SortType::Bubble => CountType::Comparisons,
            SortType::Insertion => CountType::Comparisons,
            SortType::Merge => CountType::Merges,
            SortType::Quick => CountType::Comparisons,
        }
    }

    /// The worst, average and best time bounds, in that order.
    pub fn time_complexity(&self) -> (t: (Complexity, Complexity, Complexity))
        ensures
            t == self.spec_time_complexity(),
    {
        match self {
            SortType::Bogo => (
                Complexity::big_o(Rate::Infinite),
                Complexity::new(Notation::LowerOmega, Rate::NNFact),
                Complexity::new(Notation::UpperOmega, Rate::Linear),
            ),
            SortType::Bubble | SortType::Insertion => (
                Complexity::big_o(Rate::Quadratic),
                Complexity::big_o(Rate::Quadratic),
                Complexity::big_o(Rate::Linear),
            ),
            SortType::Merge => (
                Complexity::big_o(Rate::NLogN),
                Complexity::new(Notation::Theta, Rate::NLogN),
                Complexity::new(Notation::UpperOmega, Rate::NLogN),
            ),
            SortType::Quick => (
                Complexity::big_o(Rate::Quadratic),
                Complexity::big_o(Rate::NLogN),
                Complexity::big_o(Rate::NLogN),
            ),
        }
    }

    /// The worst-case space bound.
    pub fn space_complexity(&self) -> (c: Complexity)
        ensures
            c == self.spec_space_complexity(),
    {
        Complexity::big_o(
            match self {
                SortType::Bogo => Rate::Linear,
                SortType::Bubble => Rate::Linear,
                SortType::Insertion => Rate::Linear,
                SortType::Merge => Rate::Linear,
                SortType::Quick => Rate::Linear,
            },
        )
    }

    /// The four bounds of the algorithm, each under the heading it belongs to.
    pub fn analytics(&self) -> (a: Analytics)
        ensures
            a.worst == self.spec_time_complexity().0,
            a.average == self.spec_time_complexity().1,
            a.best == self.spec_time_complexity().2,
            a.worst_space == self.spec_space_complexity(),
    {
        let (worst, average, best) = self.time_complexity();
        Analytics::new(worst, average, best, self.space_complexity())
    }

    /// The algorithm's full name.
    pub open spec fn spec_text(self) -> Seq<char> {
        self.spec_name() + " Sort"@
    }

    /// The algorithm's full name, such as `Bubble Sort`.
    pub fn to_text(&self) -> (text: String)
        ensures
            text@ == self.spec_text(),
    {
        let mut text = String::new();
        text.push_str(self.name());
        text.push_str(" Sort");
        proof {
            assert(text@ =~= self.spec_text());
        }
        text
    }

    /// The algorithm's name, without the word "Sort".
    pub fn name(&self) -> (s: &'static str)
        ensures
            s@ == self.spec_name(),
    {
        match self {
            SortType::Bogo => "Bogo",
            SortType::Bubble => "Bubble",
            SortType::Insertion => "Insertion",
            SortType::Merge => "Merge",
            SortType::Quick => "Quick",
        }
    }
}

} // verus!
