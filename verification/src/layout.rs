//! The bar layout engine: how wide the bars of a chart are and how far
//! apart, for a number of bars and a width to draw them in.

use vstd::prelude::*;
use crate::error::Error;
use crate::text::{decimal, decimal_text};

verus! {

/// The widest gap between two bars.
pub const BAR_GAP_MAX: u16 = 1;

/// The narrowest bar.
pub const BAR_WIDTH_MIN: u16 = 1;

/// The widest bar.
pub const BAR_WIDTH_MAX: u16 = 3;

/// The columns a chart's block spends on its left and right padding.
pub const HORIZ_PAD: u16 = 4;

/// The columns a chart spends on its border.
pub const CHART_PAD: u16 = 2;

/// The width of each bar and the gap between neighbours.
#[derive(Clone, Copy, Debug, PartialEq, Eq, Structural)]
pub struct BarSettings {
    pub width: u16,
    pub gap: u16,
}

/// The columns that `quantity` bars of `width` take with `gap` between neighbours.
pub open spec fn extent(quantity: int, width: int, gap: int) -> int {
    quantity * width + (quantity - 1) * gap
}

/// Whether that many bars of that width and gap can be drawn in `terminal_width` columns.
pub open spec fn fits(terminal_width: int, quantity: int, width: int, gap: int) -> bool {
    extent(quantity, width, gap) <= terminal_width
}

/// Whether a bar may be that wide.
pub open spec fn width_allowed(width: int) -> bool {
    BAR_WIDTH_MIN <= width <= BAR_WIDTH_MAX
}

/// Whether a gap may be that wide.
pub open spec fn gap_allowed(gap: int) -> bool {
    0 <= gap <= BAR_GAP_MAX
}

/// The number of decimal digits `n` is written with.
pub open spec fn decimal_width(n: nat) -> nat
    decreases n,
{
    if n < 10 {
        1
    } else {
        1 + decimal_width(n / 10)
    }
}

/// The widest allowed bar that fits with the given gap, if any does.
pub fn width_for_gap(terminal_width: u16, quantity: usize, gap: u16) -> (w: Option<u16>)
    requires
        quantity >= 1,
    ensures
        match w {
            Some(w) => {
                &&& width_allowed(w as int)
                &&& fits(terminal_width as int, quantity as int, w as int, gap as int)
                &&& forall|v: int|
                    width_allowed(v) && #[trigger] fits(
                        terminal_width as int,
                        quantity as int,
                        v,
                        gap as int,
                    ) ==> v <= w
            },
            None => forall|v: int|
                width_allowed(v) ==> !#[trigger] fits(
                    terminal_width as int,
                    quantity as int,
                    v,
                    gap as int,
                ),
        },
{
    let bars: u128 = quantity as u128;
    proof {
        lemma_product_bounded(gap as int, bars - 1);
        assert((quantity - 1) * gap == gap * (bars - 1)) by (nonlinear_arith)
            requires
                bars == quantity,
        ;
    }
    let total_gap: u128 = gap as u128 * (bars - 1);
    if total_gap > terminal_width as u128 {
        proof {
            assert forall|v: int| width_allowed(v) implies !#[trigger] fits(
                terminal_width as int,
                quantity as int,
                v,
                gap as int,
            ) by {
                assert(quantity * v >= 0) by (nonlinear_arith)
                    requires
                        quantity >= 1,
                        v >= 1,
                ;
            }
        }
        return None;
    }
    let all_bars: u128 = terminal_width as u128 - total_gap;
    let bar_width: u128 = all_bars / bars;
    proof {
        let a = all_bars as int;
        let q = bars as int;
        let f = bar_width as int;
        assert(q * f <= a && a < q * (f + 1)) by (nonlinear_arith)
            requires
                q >= 1,
                a >= 0,
                f == a / q,
        ;
        assert forall|v: int| width_allowed(v) implies (#[trigger] fits(
            terminal_width as int,
            quantity as int,
            v,
            gap as int,
        ) <==> v <= f) by {
            lemma_columns_grow(q, v, f);
        }
    }
    if bar_width < BAR_WIDTH_MIN as u128 {
        None
    } else if bar_width > BAR_WIDTH_MAX as u128 {
        Some(BAR_WIDTH_MAX)
    } else {
        Some(bar_width as u16)
    }
}

/// The product of a `u16` and a `u64` is far from the end of a `u128`.
proof fn lemma_product_bounded(a: int, b: int)
    requires
        0 <= a <= u16::MAX,
        0 <= b <= u64::MAX,
    ensures
        0 <= a * b <= 0xFFFF * 0xFFFF_FFFF_FFFF_FFFF,
{
    assert(0 <= a * b <= 0xFFFF * 0xFFFF_FFFF_FFFF_FFFF) by (nonlinear_arith)
        requires
            0 <= a <= 0xFFFF,
            0 <= b <= 0xFFFF_FFFF_FFFF_FFFF,
    ;
}

/// More bars of the same width take more columns, and wider bars do too.
proof fn lemma_columns_grow(q: int, v: int, f: int)
    requires
        q >= 1,
        v >= 0,
        f >= 0,
    ensures
        v <= f ==> q * v <= q * f,
        v >= f + 1 ==> q * v >= q * (f + 1),
{
    assert(v <= f ==> q * v <= q * f) by (nonlinear_arith)
        requires
            q >= 1,
    ;
    assert(v >= f + 1 ==> q * v >= q * (f + 1)) by (nonlinear_arith)
        requires
            q >= 1,
    ;
}

/// The number of decimal digits `value` is written with.
pub fn digits(value: u64) -> (d: u16)
    ensures
        d == decimal_width(value as nat),
        1 <= d <= 20,
{
    let mut d: u16 = 1;
    let mut rest: u64 = value;
    proof {
        let unit = pow10(0);
        assert(unit == 1);
        assert(rest * unit == rest) by (nonlinear_arith)
            requires
                unit == 1,
        ;
    }
    while rest >= 10
        invariant
            1 <= d <= 20,
            decimal_width(value as nat) == d - 1 + decimal_width(rest as nat),
            rest * pow10((d - 1) as nat) <= u64::MAX,
        decreases rest,
    {
        proof {
            lemma_pow10_step((d - 1) as nat);
            assert((rest / 10) * (10 * pow10((d - 1) as nat)) <= rest * pow10((d - 1) as nat))
                by (nonlinear_arith)
                requires
                    pow10((d - 1) as nat) >= 1,
                    rest >= 0,
            ;
            if d == 20 {
                lemma_pow10_19();
                assert(rest * pow10(19) >= 10 * pow10(19)) by (nonlinear_arith)
                    requires
                        rest >= 10,
                        pow10(19) >= 1,
                ;
            }
        }
        rest = rest / 10;
        d += 1;
    }
    d
}

/// Ten to the power `e`.
spec fn pow10(e: nat) -> nat
    decreases e,
{
    if e == 0 {
        1
    } else {
        10 * pow10((e - 1) as nat)
    }
}

proof fn lemma_pow10_step(e: nat)
    ensures
        pow10(e + 1) == 10 * pow10(e),
        pow10(e) >= 1,
    decreases e,
{
    if e > 0 {
        lemma_pow10_step((e - 1) as nat);
    }
}

proof fn lemma_pow10_19()
    ensures
        pow10(19) == 10_000_000_000_000_000_000nat,
{
    reveal_with_fuel(pow10, 20);
}

impl BarSettings {
    /// The widest bars at the widest gap.
    pub fn max() -> (s: BarSettings)
        ensures
            s.width == BAR_WIDTH_MAX,
            s.gap == BAR_GAP_MAX,
            s.wf(),
    {
        BarSettings { width: BAR_WIDTH_MAX, gap: BAR_GAP_MAX }
    }

    /// The width and the gap are both within their ranges.
    pub open spec fn wf(&self) -> bool {
        width_allowed(self.width as int) && gap_allowed(self.gap as int)
    }

    /// The layout of `quantity` bars in `terminal_width` columns: among the
    /// allowed widths and gaps that fit, the widest gap, and for that gap
    /// the widest bar. When nothing fits, not even the narrowest bars with
    /// no gap, the quantity is reported as too large.
    pub fn calc(terminal_width: u16, quantity: usize) -> (r: Result<BarSettings, Error>)
        requires
            quantity >= 1,
        ensures
            match r {
                Ok(s) => {
                    &&& s.wf()
                    &&& fits(terminal_width as int, quantity as int, s.width as int, s.gap as int)
                    &&& forall|w: int, g: int|
                        width_allowed(w) && gap_allowed(g) && #[trigger] fits(
                            terminal_width as int,
                            quantity as int,
                            w,
                            g,
                        ) ==> g < s.gap || (g == s.gap && w <= s.width)
                },
                Err(e) => {
                    &&& e == Error::BarOverflow(quantity)
                    &&& forall|w: int, g: int|
                        width_allowed(w) && gap_allowed(g) ==> !#[trigger] fits(
                            terminal_width as int,
                            quantity as int,
                            w,
                            g,
                        )
                },
            },
    {
        let mut bar_settings = BarSettings::max();
        loop
            invariant
                quantity >= 1,
                bar_settings.gap <= BAR_GAP_MAX,
                forall|w: int, g: int|
                    width_allowed(w) && gap_allowed(g) && g > bar_settings.gap ==> !#[trigger] fits(
                        terminal_width as int,
                        quantity as int,
                        w,
                        g,
                    ),
            decreases bar_settings.gap,
        {
            match width_for_gap(terminal_width, quantity, bar_settings.gap) {
                Some(width) => {
                    bar_settings.width = width;
                    return Ok(bar_settings);
                },
                None => {},
            }
            if bar_settings.gap == 0 {
                return Err(Error::BarOverflow(quantity));
            }
            bar_settings.gap = bar_settings.gap - 1;
        }
    }

    /// The layout for a frame of `frame_width` columns, of which the
    /// chart's padding and border take [`HORIZ_PAD`] and [`CHART_PAD`]. A
    /// frame narrower than those has no room for any bar.
    pub fn for_frame(frame_width: u16, quantity: usize) -> (r: Result<BarSettings, Error>)
        requires
            quantity >= 1,
        ensures
            frame_width < HORIZ_PAD + CHART_PAD ==> r == Err::<BarSettings, Error>(
                Error::BarOverflow(quantity),
            ),
            frame_width >= HORIZ_PAD + CHART_PAD ==> match r {
                Ok(s) => {
                    &&& s.wf()
                    &&& fits(
                        frame_width - HORIZ_PAD - CHART_PAD,
                        quantity as int,
                        s.width as int,
                        s.gap as int,
                    )
                    &&& forall|w: int, g: int|
                        width_allowed(w) && gap_allowed(g) && #[trigger] fits(
                            frame_width - HORIZ_PAD - CHART_PAD,
                            quantity as int,
                            w,
                            g,
                        ) ==> g < s.gap || (g == s.gap && w <= s.width)
                },
                Err(e) => {
                    &&& e == Error::BarOverflow(quantity)
                    &&& forall|w: int, g: int|
                        width_allowed(w) && gap_allowed(g) ==> !#[trigger] fits(
                            frame_width - HORIZ_PAD - CHART_PAD,
                            quantity as int,
                            w,
                            g,
                        )
                },
            },
    {
        if frame_width < HORIZ_PAD + CHART_PAD {
            return Err(Error::BarOverflow(quantity));
        }
        BarSettings::calc(frame_width - HORIZ_PAD - CHART_PAD, quantity)
    }

    /// The columns the chart of `quantity` bars takes, border included, or
    /// `None` when that is more than a `u16` holds.
    pub fn chart_width(&self, quantity: usize) -> (w: Option<u16>)
        requires
            quantity >= 1,
        ensures
            match w {
                Some(w) => w == extent(quantity as int, self.width as int, self.gap as int) + CHART_PAD,
                None => extent(quantity as int, self.width as int, self.gap as int) + CHART_PAD
                    > u16::MAX,
            },
    {
        let bars: u128 = quantity as u128;
        proof {
            lemma_product_bounded(self.width as int, bars as int);
            lemma_product_bounded(self.gap as int, bars - 1);
            assert(bars * self.width == self.width * bars) by (nonlinear_arith);
            assert((bars - 1) * self.gap == self.gap * (bars - 1)) by (nonlinear_arith);
        }
        let bar_columns: u128 = bars * self.width as u128;
        let gap_columns: u128 = (bars - 1) * self.gap as u128;
        let total: u128 = bar_columns + gap_columns + CHART_PAD as u128;
        if total > u16::MAX as u128 {
            None
        } else {
            Some(total as u16)
        }
    }

    /// Whether a bar is labelled with its value: only when the value's
    /// decimal digits are no more than the bar is wide.
    pub fn shows_label(&self, value: u64) -> (b: bool)
        ensures
            b == (decimal_width(value as nat) <= self.width),
    {
        digits(value) <= self.width
    }

    /// The label under a bar: the value in decimal where it is shown, else nothing.
    pub fn label(&self, value: u64) -> (text: String)
        ensures
            text@ == if decimal_width(value as nat) <= self.width {
                decimal_text(value as nat)
            } else {
                Seq::<char>::empty()
            },
    {
        if self.shows_label(value) {
            decimal(value)
        } else {
            String::new()
        }
    }
}

} // verus!
