use sorts_tui::error::Error;
use sorts_tui::layout::{
    digits, width_for_gap, BarSettings, BAR_GAP_MAX, BAR_WIDTH_MAX, BAR_WIDTH_MIN, CHART_PAD,
    HORIZ_PAD,
};

fn extent(quantity: usize, width: u16, gap: u16) -> usize {
    quantity * width as usize + (quantity - 1) * gap as usize
}

#[test]
fn calc_for_width_twenty_and_five_bars() {
    let settings = BarSettings::calc(20, 5).unwrap();
    assert_eq!(settings, BarSettings { width: 3, gap: 1 });
    assert!(5 * settings.width + 4 * settings.gap <= 20);
}

#[test]
fn calc_fails_for_ten_bars_in_three_columns() {
    assert!(matches!(BarSettings::calc(3, 10), Err(Error::BarOverflow(10))));
}

#[test]
fn calc_narrows_the_bars_before_it_gives_up_the_gap() {
    assert_eq!(BarSettings::calc(14, 5).unwrap(), BarSettings { width: 2, gap: 1 });
    assert_eq!(BarSettings::calc(9, 5).unwrap(), BarSettings { width: 1, gap: 1 });
}

#[test]
fn calc_drops_the_gap_when_no_bar_fits_with_it() {
    assert_eq!(BarSettings::calc(8, 5).unwrap(), BarSettings { width: 1, gap: 0 });
    assert_eq!(BarSettings::calc(5, 5).unwrap(), BarSettings { width: 1, gap: 0 });
    assert!(matches!(BarSettings::calc(4, 5), Err(Error::BarOverflow(5))));
}

#[test]
fn calc_never_exceeds_the_widest_bar() {
    assert_eq!(BarSettings::calc(u16::MAX, 1).unwrap(), BarSettings { width: 3, gap: 1 });
    assert_eq!(BarSettings::calc(1, 1).unwrap(), BarSettings { width: 1, gap: 1 });
    assert!(matches!(BarSettings::calc(0, 1), Err(Error::BarOverflow(1))));
}

#[test]
fn calc_picks_the_best_layout_that_fits() {
    for terminal_width in 0u16..80 {
        for quantity in 1usize..40 {
            let mut best: Option<BarSettings> = None;
            for gap in 0..=BAR_GAP_MAX {
                for width in BAR_WIDTH_MIN..=BAR_WIDTH_MAX {
                    if extent(quantity, width, gap) <= terminal_width as usize {
                        best = Some(BarSettings { width, gap });
                    }
                }
            }
            match (BarSettings::calc(terminal_width, quantity), best) {
                (Ok(found), Some(expected)) => assert_eq!(found, expected),
                (Err(Error::BarOverflow(q)), None) => assert_eq!(q, quantity),
                _ => panic!("layout of {} bars in {} columns", quantity, terminal_width),
            }
        }
    }
}

#[test]
fn calc_handles_quantities_beyond_any_terminal() {
    assert!(matches!(BarSettings::calc(u16::MAX, usize::MAX), Err(Error::BarOverflow(usize::MAX))));
    assert_eq!(BarSettings::calc(u16::MAX, 65535).unwrap(), BarSettings { width: 1, gap: 0 });
}

#[test]
fn width_for_one_gap() {
    assert_eq!(width_for_gap(20, 5, 1), Some(3));
    assert_eq!(width_for_gap(20, 5, 0), Some(3));
    assert_eq!(width_for_gap(8, 5, 1), None);
    assert_eq!(width_for_gap(8, 5, 0), Some(1));
    assert_eq!(width_for_gap(3, 10, 0), None);
    assert_eq!(width_for_gap(30, 5, 4), Some(2));
}

#[test]
fn widest_settings() {
    assert_eq!(BarSettings::max(), BarSettings { width: BAR_WIDTH_MAX, gap: BAR_GAP_MAX });
}

#[test]
fn layout_for_a_frame_leaves_room_for_padding_and_border() {
    assert_eq!(HORIZ_PAD + CHART_PAD, 6);
    assert_eq!(BarSettings::for_frame(20, 5).unwrap(), BarSettings { width: 2, gap: 1 });
    assert_eq!(BarSettings::for_frame(26, 5).unwrap(), BarSettings { width: 3, gap: 1 });
    assert!(matches!(BarSettings::for_frame(5, 1), Err(Error::BarOverflow(1))));
    assert!(matches!(BarSettings::for_frame(6, 1), Err(Error::BarOverflow(1))));
    assert_eq!(BarSettings::for_frame(7, 1).unwrap(), BarSettings { width: 1, gap: 1 });
}

#[test]
fn chart_width_counts_bars_gaps_and_border() {
    assert_eq!(BarSettings { width: 3, gap: 1 }.chart_width(5), Some(21));
    assert_eq!(BarSettings { width: 1, gap: 0 }.chart_width(150), Some(152));
    assert_eq!(BarSettings { width: 2, gap: 1 }.chart_width(1), Some(4));
    assert_eq!(BarSettings { width: 3, gap: 1 }.chart_width(usize::MAX), None);
    assert_eq!(BarSettings { width: 1, gap: 0 }.chart_width(65533), Some(65535));
    assert_eq!(BarSettings { width: 1, gap: 0 }.chart_width(65534), None);
}

#[test]
fn decimal_digit_counts() {
    assert_eq!(digits(0), 1);
    assert_eq!(digits(9), 1);
    assert_eq!(digits(10), 2);
    assert_eq!(digits(99), 2);
    assert_eq!(digits(100), 3);
    assert_eq!(digits(150), 3);
    assert_eq!(digits(u64::MAX), 20);
}

#[test]
fn labels_only_where_the_digits_fit_the_bar() {
    let wide = BarSettings { width: 3, gap: 1 };
    let narrow = BarSettings { width: 1, gap: 0 };
    assert!(wide.shows_label(150));
    assert!(!wide.shows_label(1000));
    assert!(narrow.shows_label(9));
    assert!(!narrow.shows_label(10));
    assert_eq!(wide.label(150), "150");
    assert_eq!(wide.label(7), "7");
    assert_eq!(wide.label(1000), "");
    assert_eq!(narrow.label(42), "");
    assert_eq!(narrow.label(0), "0");
}
