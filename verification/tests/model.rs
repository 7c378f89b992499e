use ratatui::style::Color;
use sorts_tui::analytics::{Analytics, Complexity, Notation, Rate};
use sorts_tui::args::{Args, DEFAULT_QUANTITY, DEFAULT_TICK, MAX_QUANTITY, MIN_QUANTITY};
use sorts_tui::count::{Count, CountType};
use sorts_tui::error::Error;
use sorts_tui::input::{is_cancel_key, pause_outcome, Key, KeyInput};
use sorts_tui::sort_type::SortType;

#[test]
fn count_starts_at_zero_and_counts_by_one() {
    let mut count = Count::new(CountType::Shuffles);
    assert_eq!(count.value(), 0);
    assert_eq!(count.kind(), CountType::Shuffles);
    assert!(count.has_room());
    count.increment();
    count.increment();
    assert_eq!(count.value(), 2);
    assert_eq!(count.kind(), CountType::Shuffles);
}

#[test]
fn count_text_is_number_and_kind() {
    let mut count = Count::new(CountType::Comparisons);
    assert_eq!(count.to_text(), "0 comparisons");
    for _ in 0..12 {
        count.increment();
    }
    assert_eq!(count.to_text(), "12 comparisons");
    assert_eq!(Count::new(CountType::Merges).to_text(), "0 merges");
}

#[test]
fn count_kind_names() {
    assert_eq!(CountType::Shuffles.name(), "Shuffles");
    assert_eq!(CountType::Comparisons.name(), "Comparisons");
    assert_eq!(CountType::Iterations.name(), "Iterations");
    assert_eq!(CountType::Merges.name(), "Merges");
    assert_eq!(CountType::Shuffles.label(), "shuffles");
    assert_eq!(CountType::Comparisons.label(), "comparisons");
    assert_eq!(CountType::Iterations.label(), "iterations");
    assert_eq!(CountType::Merges.label(), "merges");
}

#[test]
fn count_kind_of_each_algorithm() {
    assert_eq!(SortType::Bogo.count_type(), CountType::Shuffles);
    assert_eq!(SortType::Bubble.count_type(), CountType::Comparisons);
    assert_eq!(SortType::Insertion.count_type(), CountType::Comparisons);
    assert_eq!(SortType::Merge.count_type(), CountType::Merges);
    assert_eq!(SortType::Quick.count_type(), CountType::Comparisons);
}

#[test]
fn colour_of_each_algorithm() {
    assert_eq!(SortType::Bogo.rgb(), (219, 77, 59));
    assert_eq!(SortType::Bubble.rgb(), (59, 126, 219));
    assert_eq!(SortType::Insertion.rgb(), (219, 124, 59));
    assert_eq!(SortType::Merge.rgb(), (50, 150, 52));
    assert_eq!(SortType::Quick.rgb(), (240, 128, 128));
    assert_eq!(SortType::Bogo.color(), Color::Rgb(219, 77, 59));
    assert_eq!(SortType::Quick.color(), Color::Rgb(240, 128, 128));
}

#[test]
fn names_of_the_algorithms() {
    assert_eq!(SortType::Bogo.name(), "Bogo");
    assert_eq!(SortType::Bogo.to_text(), "Bogo Sort");
    assert_eq!(SortType::Bubble.to_text(), "Bubble Sort");
    assert_eq!(SortType::Insertion.to_text(), "Insertion Sort");
    assert_eq!(SortType::Merge.to_text(), "Merge Sort");
    assert_eq!(SortType::Quick.to_text(), "Quick Sort");
}

#[test]
fn time_complexity_of_each_algorithm() {
    assert_eq!(
        SortType::Bogo.time_complexity(),
        (
            Complexity::big_o(Rate::Infinite),
            Complexity::new(Notation::LowerOmega, Rate::NNFact),
            Complexity::new(Notation::UpperOmega, Rate::Linear),
        )
    );
    let quadratic = (
        Complexity::big_o(Rate::Quadratic),
        Complexity::big_o(Rate::Quadratic),
        Complexity::big_o(Rate::Linear),
    );
    assert_eq!(SortType::Bubble.time_complexity(), quadratic);
    assert_eq!(SortType::Insertion.time_complexity(), quadratic);
    assert_eq!(
        SortType::Merge.time_complexity(),
        (
            Complexity::big_o(Rate::NLogN),
            Complexity::new(Notation::Theta, Rate::NLogN),
            Complexity::new(Notation::UpperOmega, Rate::NLogN),
        )
    );
    assert_eq!(
        SortType::Quick.time_complexity(),
        (
            Complexity::big_o(Rate::Quadratic),
            Complexity::big_o(Rate::NLogN),
            Complexity::big_o(Rate::NLogN),
        )
    );
}

#[test]
fn space_complexity_is_linear() {
    for sort in
        [SortType::Bogo, SortType::Bubble, SortType::Insertion, SortType::Merge, SortType::Quick]
    {
        assert_eq!(sort.space_complexity(), Complexity::big_o(Rate::Linear));
    }
}

#[test]
fn analytics_keep_each_bound_under_its_heading() {
    let analytics = SortType::Bogo.analytics();
    assert_eq!(analytics.worst, Complexity::big_o(Rate::Infinite));
    assert_eq!(analytics.average, Complexity::new(Notation::LowerOmega, Rate::NNFact));
    assert_eq!(analytics.best, Complexity::new(Notation::UpperOmega, Rate::Linear));
    assert_eq!(analytics.worst_space, Complexity::big_o(Rate::Linear));
    let built = Analytics::new(
        Complexity::big_o(Rate::Quadratic),
        Complexity::big_o(Rate::NLogN),
        Complexity::big_o(Rate::Linear),
        Complexity::big_o(Rate::Constant),
    );
    assert_eq!(built.worst.rate, Rate::Quadratic);
    assert_eq!(built.average.rate, Rate::NLogN);
    assert_eq!(built.best.rate, Rate::Linear);
    assert_eq!(built.worst_space.rate, Rate::Constant);
}

#[test]
fn complexity_constructors() {
    let c = Complexity::new(Notation::Theta, Rate::LogN);
    assert_eq!(c.notation, Notation::Theta);
    assert_eq!(c.rate, Rate::LogN);
    let o = Complexity::big_o(Rate::NLogN);
    assert_eq!(o.notation, Notation::BigO);
    assert_eq!(o.rate, Rate::NLogN);
}

#[test]
fn symbols_of_notations_and_rates() {
    assert_eq!(Notation::SmallO.symbol(), "o");
    assert_eq!(Notation::BigO.symbol(), "O");
    assert_eq!(Notation::Theta.symbol(), "\u{03B8}");
    assert_eq!(Notation::UpperOmega.symbol(), "\u{03A9}");
    assert_eq!(Notation::LowerOmega.symbol(), "\u{03C9}");
    assert_eq!(Rate::Constant.symbol(), "1");
    assert_eq!(Rate::Linear.symbol(), "n");
    assert_eq!(Rate::Quadratic.symbol(), "n\u{00B2}");
    assert_eq!(Rate::LogN.symbol(), "log n");
    assert_eq!(Rate::NLogN.symbol(), "n log n");
    assert_eq!(Rate::NNFact.symbol(), "n x n!");
    assert_eq!(Rate::Infinite.symbol(), "\u{221E}");
}

#[test]
fn complexity_and_analytics_texts() {
    assert_eq!(Complexity::big_o(Rate::NLogN).to_text(), "O(n log n)");
    assert_eq!(Complexity::new(Notation::Theta, Rate::Linear).to_text(), "\u{03B8}(n)");
    assert_eq!(
        SortType::Merge.analytics().to_text(),
        "Worst time: O(n log n)\nAverage time: \u{03B8}(n log n)\nBest time: \u{03A9}(n log n)\nWorst space: O(n)\n"
    );
}

#[test]
fn quantity_must_lie_in_the_configured_range() {
    assert_eq!((MIN_QUANTITY, DEFAULT_QUANTITY, MAX_QUANTITY, DEFAULT_TICK), (2, 50, 150, 100));
    let args = |quantity| Args { sort_type: SortType::Bubble, quantity, tick_rate: 10 };
    assert!(matches!(args(0).validate(), Err(Error::QuantityOutOfRange(0))));
    assert!(matches!(args(1).validate(), Err(Error::QuantityOutOfRange(1))));
    assert!(matches!(args(151).validate(), Err(Error::QuantityOutOfRange(151))));
    for quantity in [2, 50, 150] {
        let valid = args(quantity).validate().unwrap();
        assert_eq!(valid.quantity, quantity);
        assert_eq!(valid.tick_rate, 10);
        assert_eq!(valid.sort_type, SortType::Bubble);
    }
}

#[test]
fn error_messages() {
    assert_eq!(Error::Interrupted.message(), "Interrupted");
    assert_eq!(
        Error::BarOverflow(151).message(),
        "Terminal cannot render 151 bars. Resize terminal or use smaller quantity"
    );
    assert_eq!(
        Error::QuantityOutOfRange(1).message(),
        "quantity 1 is not in range [2 - 150]"
    );
    assert_eq!(Error::CountExhausted.message(), "The operation counter is full");
    let io = std::io::Error::new(std::io::ErrorKind::Other, "pipe closed");
    assert_eq!(Error::from(io).message(), "pipe closed");
}

#[test]
fn io_errors_become_failures_of_the_run() {
    let io = std::io::Error::new(std::io::ErrorKind::BrokenPipe, "pipe closed");
    match Error::from(io) {
        Error::IOError(inner) => assert_eq!(inner.kind(), std::io::ErrorKind::BrokenPipe),
        other => panic!("unexpected {:?}", other),
    }
    let read: Result<u8, std::io::Error> =
        Err(std::io::Error::new(std::io::ErrorKind::Other, "no input"));
    let lifted: Result<u8, Error> = read.map_err(Error::from);
    assert!(matches!(lifted, Err(Error::IOError(_))));
}

#[test]
fn q_and_escape_cancel() {
    assert!(is_cancel_key(Key::Char('q')));
    assert!(is_cancel_key(Key::Esc));
    assert!(!is_cancel_key(Key::Char('Q')));
    assert!(!is_cancel_key(Key::Char('x')));
    assert!(!is_cancel_key(Key::Other));
}

#[test]
fn a_pause_is_interrupted_only_by_a_pressed_cancel_key() {
    let event = |key, pressed| Some(KeyInput { key, pressed });
    assert!(pause_outcome(None).is_ok());
    assert!(matches!(pause_outcome(event(Key::Char('q'), true)), Err(Error::Interrupted)));
    assert!(matches!(pause_outcome(event(Key::Esc, true)), Err(Error::Interrupted)));
    assert!(pause_outcome(event(Key::Char('q'), false)).is_ok());
    assert!(pause_outcome(event(Key::Esc, false)).is_ok());
    assert!(pause_outcome(event(Key::Char('a'), true)).is_ok());
    assert!(pause_outcome(event(Key::Other, true)).is_ok());
}
