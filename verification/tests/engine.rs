use std::cell::RefCell;
use std::time::Duration;

use sorts_tui::args::{Args, MAX_QUANTITY};
use sorts_tui::count::CountType;
use sorts_tui::error::Error;
use sorts_tui::renderer::Renderer;
use sorts_tui::sort::{conclude, gen_data, Sort, SortSnapshot};
use sorts_tui::sort_type::SortType;

/// What the engine showed in one tick.
#[derive(Clone, Debug, PartialEq)]
struct Frame {
    data: Vec<u64>,
    is_sorted: bool,
    sort_type: SortType,
    count: usize,
    kind: CountType,
}

/// How a test renderer answers.
#[derive(Clone, Copy)]
enum Refusal {
    Never,
    CancelOnSleep(usize),
    FailOnRender(usize),
}

/// A renderer that keeps every frame and pause it is handed.
struct Recorder {
    frames: Vec<Frame>,
    pauses: RefCell<Vec<Duration>>,
    refusal: Refusal,
}

impl Recorder {
    fn new(refusal: Refusal) -> Recorder {
        Recorder { frames: Vec::new(), pauses: RefCell::new(Vec::new()), refusal }
    }

    fn data(&self) -> Vec<Vec<u64>> {
        self.frames.iter().map(|f| f.data.clone()).collect()
    }

    fn counts(&self) -> Vec<usize> {
        self.frames.iter().map(|f| f.count).collect()
    }
}

impl Renderer for Recorder {
    fn render(&mut self, snapshot: SortSnapshot) -> Result<(), Error> {
        self.frames.push(Frame {
            data: snapshot.get_data().clone(),
            is_sorted: snapshot.is_sorted(),
            sort_type: snapshot.get_sort_type(),
            count: snapshot.get_count().value(),
            kind: snapshot.get_count().kind(),
        });
        match self.refusal {
            Refusal::FailOnRender(n) if self.frames.len() == n => Err(Error::from(
                std::io::Error::new(std::io::ErrorKind::Other, "display lost"),
            )),
            _ => Ok(()),
        }
    }

    fn sleep(&self, duration: Duration) -> Result<(), Error> {
        self.pauses.borrow_mut().push(duration);
        match self.refusal {
            Refusal::CancelOnSleep(n) if self.pauses.borrow().len() == n => Err(Error::Interrupted),
            _ => Ok(()),
        }
    }
}

fn run_on(sort: SortType, data: Vec<u64>) -> (Recorder, Result<usize, Error>) {
    let mut recorder = Recorder::new(Refusal::Never);
    let result = Sort::with_data(&mut recorder, sort, data, 7).run().map(|c| c.value());
    (recorder, result)
}

fn is_non_decreasing(data: &[u64]) -> bool {
    data.windows(2).all(|w| w[0] <= w[1])
}

fn sorted_copy(data: &[u64]) -> Vec<u64> {
    let mut copy = data.to_vec();
    copy.sort();
    copy
}

const ALL: [SortType; 5] =
    [SortType::Bogo, SortType::Bubble, SortType::Insertion, SortType::Merge, SortType::Quick];

#[test]
fn bubble_counts_two_swaps_on_three_one_two() {
    let (recorder, result) = run_on(SortType::Bubble, vec![3, 1, 2]);
    assert_eq!(result.unwrap(), 2);
    assert_eq!(
        recorder.data(),
        vec![vec![3, 1, 2], vec![1, 3, 2], vec![1, 2, 3], vec![1, 2, 3]]
    );
    assert_eq!(recorder.counts(), vec![0, 1, 2, 2]);
}

#[test]
fn bubble_stops_after_a_pass_without_swaps() {
    let (recorder, result) = run_on(SortType::Bubble, vec![1, 2, 3, 4, 5]);
    assert_eq!(result.unwrap(), 0);
    assert_eq!(recorder.frames.len(), 2);
}

#[test]
fn bubble_on_reversed_input_counts_every_pair() {
    let (recorder, result) = run_on(SortType::Bubble, vec![4, 3, 2, 1]);
    assert_eq!(result.unwrap(), 6);
    assert_eq!(recorder.frames.last().unwrap().data, vec![1, 2, 3, 4]);
    assert_eq!(recorder.frames.len(), 8);
}

#[test]
fn merge_sorts_five_three_four_one_two() {
    let (recorder, result) = run_on(SortType::Merge, vec![5, 3, 4, 1, 2]);
    assert_eq!(result.unwrap(), 12);
    assert_eq!(
        recorder.data(),
        vec![
            vec![5, 3, 4, 1, 2],
            vec![3, 3, 4, 1, 2],
            vec![3, 5, 4, 1, 2],
            vec![3, 5, 4, 1, 2],
            vec![3, 5, 4, 1, 2],
            vec![3, 5, 1, 1, 2],
            vec![3, 5, 1, 2, 2],
            vec![3, 5, 1, 2, 4],
            vec![1, 5, 1, 2, 4],
            vec![1, 2, 1, 2, 4],
            vec![1, 2, 3, 2, 4],
            vec![1, 2, 3, 4, 4],
            vec![1, 2, 3, 4, 5],
            vec![1, 2, 3, 4, 5],
        ]
    );
    assert_eq!(recorder.counts(), vec![0, 1, 2, 3, 4, 5, 6, 7, 8, 9, 10, 11, 12, 12]);
}

#[test]
fn merge_counts_drained_values_too() {
    let (recorder, result) = run_on(SortType::Merge, vec![1, 2]);
    assert_eq!(result.unwrap(), 2);
    assert_eq!(recorder.data(), vec![vec![1, 2], vec![1, 2], vec![1, 2], vec![1, 2]]);
}

#[test]
fn quick_partitions_three_one_four_one_five_around_five() {
    let (recorder, result) = run_on(SortType::Quick, vec![3, 1, 4, 1, 5]);
    assert_eq!(result.unwrap(), 10);
    let data = recorder.data();
    assert_eq!(data.len(), 22);
    for frame in &data[..6] {
        assert_eq!(frame, &vec![3, 1, 4, 1, 5]);
    }
    assert_eq!(recorder.counts()[..6], [0, 1, 2, 3, 4, 5]);
    for frame in &data[5..] {
        assert_eq!(frame[4], 5);
    }
    assert_eq!(data[6], vec![1, 3, 4, 1, 5]);
    assert_eq!(data[7], vec![1, 1, 4, 3, 5]);
    assert_eq!(data[21], vec![1, 1, 3, 4, 5]);
}

#[test]
fn quick_ticks_after_each_half_without_counting() {
    let (recorder, result) = run_on(SortType::Quick, vec![1, 2]);
    assert_eq!(result.unwrap(), 3);
    assert_eq!(recorder.counts(), vec![0, 1, 2, 3, 3, 3, 3, 3, 3]);
    assert_eq!(recorder.data(), vec![vec![1, 2]; 9]);
}

#[test]
fn insertion_ticks_once_per_shift() {
    let (recorder, result) = run_on(SortType::Insertion, vec![2, 3, 1]);
    assert_eq!(result.unwrap(), 2);
    assert_eq!(
        recorder.data(),
        vec![vec![2, 3, 1], vec![2, 3, 3], vec![2, 2, 3], vec![1, 2, 3]]
    );
    assert_eq!(recorder.counts(), vec![0, 1, 2, 2]);
}

#[test]
fn insertion_shows_a_repeated_value_while_the_key_is_held() {
    let (recorder, result) = run_on(SortType::Insertion, vec![2, 1]);
    assert_eq!(result.unwrap(), 1);
    assert_eq!(recorder.data(), vec![vec![2, 1], vec![2, 2], vec![1, 2]]);
}

#[test]
fn insertion_places_without_ticking_when_nothing_shifts() {
    let (recorder, result) = run_on(SortType::Insertion, vec![1, 2, 3]);
    assert_eq!(result.unwrap(), 0);
    assert_eq!(recorder.frames.len(), 2);
}

#[test]
fn bogo_leaves_sorted_input_alone() {
    let (recorder, result) = run_on(SortType::Bogo, vec![1, 2, 3, 4]);
    assert_eq!(result.unwrap(), 0);
    assert_eq!(recorder.data(), vec![vec![1, 2, 3, 4], vec![1, 2, 3, 4]]);
}

#[test]
fn bogo_shuffles_until_sorted() {
    let (recorder, result) = run_on(SortType::Bogo, vec![3, 1, 2, 4]);
    let shuffles = result.unwrap();
    assert!(shuffles >= 1);
    assert_eq!(recorder.frames.len(), shuffles + 2);
    assert_eq!(recorder.frames.last().unwrap().data, vec![1, 2, 3, 4]);
    for (k, frame) in recorder.frames.iter().enumerate().take(shuffles + 1) {
        assert_eq!(frame.count, k);
        assert_eq!(sorted_copy(&frame.data), vec![1, 2, 3, 4]);
    }
    for frame in &recorder.frames[..shuffles] {
        assert!(!frame.is_sorted);
    }
}

#[test]
fn every_algorithm_sorts_every_supported_quantity() {
    for sort in ALL {
        let quantities: Vec<usize> = if sort == SortType::Bogo {
            vec![2, 3, 4, 5]
        } else {
            vec![2, 3, 4, 5, 8, 16, 31, 50, 97, 149, 150]
        };
        for quantity in quantities {
            let mut recorder = Recorder::new(Refusal::Never);
            let result = Sort::new(&mut recorder, sort, quantity, 0).run();
            assert!(result.is_ok());
            let last = recorder.frames.last().unwrap();
            let expected: Vec<u64> = (1..=quantity as u64).collect();
            assert_eq!(last.data, expected);
            assert!(last.is_sorted);
            assert_eq!(last.count, result.unwrap().value());
        }
    }
}

#[test]
fn empty_and_single_sequences_tick_twice_and_count_nothing() {
    for sort in ALL {
        for data in [vec![], vec![9]] {
            let (recorder, result) = run_on(sort, data.clone());
            assert_eq!(result.unwrap(), 0);
            assert_eq!(recorder.data(), vec![data.clone(), data]);
            assert_eq!(recorder.counts(), vec![0, 0]);
            assert!(recorder.frames.iter().all(|frame| frame.is_sorted));
            assert_eq!(
                *recorder.pauses.borrow(),
                vec![Duration::from_millis(7), Duration::from_millis(5000)]
            );
        }
    }
}

#[test]
fn exchanging_algorithms_keep_the_values_in_every_snapshot() {
    let input = vec![6, 2, 9, 2, 7, 1, 8, 3];
    for sort in [SortType::Bubble, SortType::Quick] {
        let (recorder, result) = run_on(sort, input.clone());
        assert!(result.is_ok());
        for frame in &recorder.frames {
            assert_eq!(sorted_copy(&frame.data), sorted_copy(&input));
        }
    }
}

#[test]
fn every_run_ends_on_a_rearrangement_of_its_input() {
    let input = vec![6, 2, 9, 2, 7, 1, 8, 3];
    for sort in [SortType::Bubble, SortType::Insertion, SortType::Merge, SortType::Quick] {
        let (recorder, result) = run_on(sort, input.clone());
        assert!(result.is_ok());
        assert_eq!(recorder.frames.first().unwrap().data, input);
        assert_eq!(recorder.frames.last().unwrap().data, vec![1, 2, 2, 3, 6, 7, 8, 9]);
    }
}

#[test]
fn snapshot_flag_follows_the_order_of_the_data() {
    let mut recorder = Recorder::new(Refusal::Never);
    let sorted = Sort::with_data(&mut recorder, SortType::Bubble, vec![1, 2, 2, 5], 1);
    assert!(sorted.is_sorted());
    assert!(sorted.snapshot().is_sorted());
    let mut recorder = Recorder::new(Refusal::Never);
    let unsorted = Sort::with_data(&mut recorder, SortType::Bubble, vec![1, 3, 2, 5], 1);
    assert!(!unsorted.is_sorted());
    assert!(!unsorted.snapshot().is_sorted());
    assert_eq!(unsorted.snapshot().get_data(), &vec![1, 3, 2, 5]);
}

#[test]
fn every_frame_carries_a_truthful_flag_the_algorithm_and_its_kind() {
    for sort in [SortType::Bubble, SortType::Insertion, SortType::Merge, SortType::Quick] {
        let (recorder, _) = run_on(sort, vec![4, 1, 3, 5, 2]);
        for frame in &recorder.frames {
            assert_eq!(frame.is_sorted, is_non_decreasing(&frame.data));
            assert_eq!(frame.sort_type, sort);
            assert_eq!(frame.kind, sort.count_type());
        }
    }
}

#[test]
fn counts_rise_by_one_per_tick_of_the_algorithm() {
    for sort in [SortType::Bubble, SortType::Insertion, SortType::Merge] {
        let (recorder, result) = run_on(sort, vec![5, 2, 4, 1, 3]);
        let counts = recorder.counts();
        let body = counts.len() - 1;
        for (k, count) in counts.iter().enumerate().take(body) {
            assert_eq!(*count, k);
        }
        assert_eq!(counts[body], body - 1);
        assert_eq!(result.unwrap(), body - 1);
    }
}

#[test]
fn cancellation_on_the_third_tick_stops_the_run() {
    let mut recorder = Recorder::new(Refusal::CancelOnSleep(3));
    let result = Sort::with_data(&mut recorder, SortType::Bubble, vec![4, 3, 2, 1], 7).run();
    assert!(matches!(result, Err(Error::Interrupted)));
    assert_eq!(recorder.data(), vec![vec![4, 3, 2, 1], vec![3, 4, 2, 1], vec![3, 2, 4, 1]]);
    assert_eq!(recorder.pauses.borrow().len(), 3);
}

#[test]
fn cancellation_unwinds_through_recursion() {
    for sort in [SortType::Merge, SortType::Quick] {
        let mut recorder = Recorder::new(Refusal::CancelOnSleep(4));
        let result = Sort::with_data(&mut recorder, sort, vec![5, 3, 4, 1, 2], 7).run();
        assert!(matches!(result, Err(Error::Interrupted)));
        assert_eq!(recorder.frames.len(), 4);
    }
}

#[test]
fn cancellation_on_the_first_tick_leaves_the_data_untouched() {
    let mut recorder = Recorder::new(Refusal::CancelOnSleep(1));
    let mut engine = Sort::with_data(&mut recorder, SortType::Insertion, vec![2, 1], 7);
    let result = engine.execute();
    assert!(matches!(result, Err(Error::Interrupted)));
    assert_eq!(engine.snapshot().get_data(), &vec![2, 1]);
    assert_eq!(recorder.frames.len(), 1);
}

#[test]
fn cancellation_on_the_closing_tick_is_reported() {
    let mut recorder = Recorder::new(Refusal::CancelOnSleep(2));
    let result = Sort::with_data(&mut recorder, SortType::Merge, vec![1], 7).run();
    assert!(matches!(result, Err(Error::Interrupted)));
    assert_eq!(recorder.frames.len(), 2);
}

#[test]
fn render_failure_ends_the_run_before_the_pause() {
    let mut recorder = Recorder::new(Refusal::FailOnRender(2));
    let result = Sort::with_data(&mut recorder, SortType::Bubble, vec![2, 1, 3], 7).run();
    assert!(matches!(result, Err(Error::IOError(_))));
    assert_eq!(recorder.frames.len(), 2);
    assert_eq!(recorder.pauses.borrow().len(), 1);
}

#[test]
fn ticks_pause_at_the_tick_rate_and_the_closing_tick_for_five_seconds() {
    let mut recorder = Recorder::new(Refusal::Never);
    let result = Sort::with_data(&mut recorder, SortType::Bubble, vec![3, 1, 2], 120).run();
    assert!(result.is_ok());
    assert_eq!(
        *recorder.pauses.borrow(),
        vec![
            Duration::from_millis(120),
            Duration::from_millis(120),
            Duration::from_millis(120),
            Duration::from_millis(5000),
        ]
    );
}

#[test]
fn execute_starts_the_count_again() {
    let mut recorder = Recorder::new(Refusal::Never);
    let mut engine = Sort::with_data(&mut recorder, SortType::Bubble, vec![2, 1], 0);
    assert!(engine.execute().is_ok());
    assert_eq!(engine.snapshot().get_count().value(), 1);
    assert!(engine.execute().is_ok());
    assert_eq!(engine.snapshot().get_count().value(), 0);
    assert_eq!(engine.snapshot().get_data(), &vec![1, 2]);
}

#[test]
fn run_returns_the_count_in_the_kind_of_the_algorithm() {
    let mut recorder = Recorder::new(Refusal::Never);
    let count = Sort::with_data(&mut recorder, SortType::Merge, vec![2, 1], 0).run().unwrap();
    assert_eq!(count.value(), 2);
    assert_eq!(count.kind(), CountType::Merges);
}

#[test]
fn conclude_passes_the_count_or_the_failure_on() {
    let mut recorder = Recorder::new(Refusal::Never);
    let count = Sort::with_data(&mut recorder, SortType::Bubble, vec![2, 1], 0).run().unwrap();
    assert_eq!(conclude(Ok(()), count).unwrap(), count);
    assert!(matches!(conclude(Err(Error::Interrupted), count), Err(Error::Interrupted)));
    assert!(matches!(conclude(Err(Error::BarOverflow(4)), count), Err(Error::BarOverflow(4))));
}

#[test]
fn generated_data_is_a_shuffled_run_of_one_to_n() {
    let data = gen_data(100);
    let expected: Vec<u64> = (1..=100).collect();
    assert_eq!(sorted_copy(&data), expected);
    assert_ne!(data, expected);
    assert_eq!(gen_data(0), Vec::<u64>::new());
    assert_eq!(gen_data(1), vec![1]);
}

#[test]
fn new_engine_holds_the_requested_quantity() {
    let mut recorder = Recorder::new(Refusal::Never);
    let engine = Sort::new(&mut recorder, SortType::Quick, MAX_QUANTITY, 3);
    let snapshot = engine.snapshot();
    let expected: Vec<u64> = (1..=MAX_QUANTITY as u64).collect();
    assert_eq!(sorted_copy(snapshot.get_data()), expected);
    assert_eq!(snapshot.get_sort_type(), SortType::Quick);
    assert_eq!(snapshot.get_count().value(), 0);
    assert_eq!(snapshot.get_count().kind(), CountType::Comparisons);
}

#[test]
fn engine_from_validated_arguments() {
    let args = Args { sort_type: SortType::Insertion, quantity: 12, tick_rate: 33 }.validate().unwrap();
    let mut recorder = Recorder::new(Refusal::Never);
    let result = Sort::from_args(&mut recorder, args).run();
    assert!(result.is_ok());
    let expected: Vec<u64> = (1..=12).collect();
    assert_eq!(recorder.frames.last().unwrap().data, expected);
    assert_eq!(recorder.frames[0].sort_type, SortType::Insertion);
    assert_eq!(recorder.pauses.borrow()[0], Duration::from_millis(33));
}

#[test]
fn tick_renders_then_sleeps_and_stops_at_the_first_failure() {
    let mut source = Recorder::new(Refusal::Never);
    let engine = Sort::with_data(&mut source, SortType::Bubble, vec![1, 2], 0);
    let first = engine.snapshot();
    let second = engine.snapshot();
    let mut renderer = Recorder::new(Refusal::FailOnRender(2));
    assert!(renderer.tick(first, Duration::from_millis(5)).is_ok());
    assert!(matches!(renderer.tick(second, Duration::from_millis(5)), Err(Error::IOError(_))));
    assert_eq!(renderer.frames.len(), 2);
    assert_eq!(*renderer.pauses.borrow(), vec![Duration::from_millis(5)]);
}

fn inversions(data: &[u64]) -> usize {
    let mut pairs = 0;
    for j in 0..data.len() {
        for i in 0..j {
            if data[i] > data[j] {
                pairs += 1;
            }
        }
    }
    pairs
}

fn merge_writes(items: usize) -> usize {
    if items <= 1 {
        0
    } else {
        merge_writes(items / 2) + merge_writes(items - items / 2) + items
    }
}

#[test]
fn bubble_and_insertion_count_the_pairs_out_of_order() {
    let inputs: [Vec<u64>; 5] = [
        vec![6, 2, 9, 2, 7, 1, 8, 3],
        vec![4, 3, 2, 1],
        vec![1, 1, 1],
        vec![2, 1, 2, 1, 2, 1],
        vec![10, 20, 30, 5],
    ];
    assert_eq!(inversions(&inputs[0]), 14);
    assert_eq!(inversions(&inputs[1]), 6);
    for input in inputs {
        for sort in [SortType::Bubble, SortType::Insertion] {
            let (_, result) = run_on(sort, input.clone());
            assert_eq!(result.unwrap(), inversions(&input));
        }
    }
}

#[test]
fn merge_count_depends_on_the_length_alone() {
    assert_eq!(merge_writes(5), 12);
    assert_eq!(merge_writes(8), 24);
    for quantity in [0usize, 1, 2, 3, 7, 8, 33, 150] {
        let ascending: Vec<u64> = (1..=quantity as u64).collect();
        let descending: Vec<u64> = ascending.iter().rev().cloned().collect();
        for input in [ascending, descending] {
            let (recorder, result) = run_on(SortType::Merge, input);
            assert_eq!(result.unwrap(), merge_writes(quantity));
            assert_eq!(recorder.frames.len(), merge_writes(quantity) + 2);
        }
    }
}

#[test]
fn quick_ticks_twice_per_item_beyond_its_exchanges() {
    let inputs: [Vec<u64>; 4] =
        [vec![2, 1], vec![3, 1, 4, 1, 5], vec![1, 2, 3, 4, 5, 6], vec![6, 5, 4, 3, 2, 1]];
    for input in inputs {
        let items = input.len();
        let (recorder, result) = run_on(SortType::Quick, input);
        let count = result.unwrap();
        assert_eq!(recorder.frames.len(), count + 2 * items + 2);
        assert!(count >= items);
        assert!(2 * count <= items * (items + 1));
    }
    let (_, sorted) = run_on(SortType::Quick, vec![1, 2, 3, 4, 5, 6]);
    assert_eq!(sorted.unwrap(), 21);
}

#[test]
fn data_in_order_is_shown_unchanged_by_every_algorithm() {
    let inputs: [Vec<u64>; 3] = [vec![1, 2, 3, 4, 5, 6, 7], vec![2, 2, 5, 5, 9], vec![4]];
    for input in inputs {
        for sort in ALL {
            let (recorder, result) = run_on(sort, input.clone());
            assert!(result.is_ok());
            for frame in &recorder.frames {
                assert_eq!(frame.data, input);
                assert!(frame.is_sorted);
            }
        }
    }
}

#[test]
fn insertion_and_merge_show_a_value_twice_on_data_out_of_order() {
    for sort in [SortType::Insertion, SortType::Merge] {
        let (recorder, result) = run_on(sort, vec![2, 1]);
        assert!(result.is_ok());
        assert!(recorder.frames.iter().any(|frame| sorted_copy(&frame.data) != vec![1, 2]));
        assert_eq!(recorder.frames.last().unwrap().data, vec![1, 2]);
    }
}

#[test]
fn quick_counts_the_exchange_that_places_each_pivot() {
    let (recorder, result) = run_on(SortType::Quick, vec![2, 1]);
    assert_eq!(result.unwrap(), 2);
    assert_eq!(
        recorder.data(),
        vec![
            vec![2, 1],
            vec![1, 2],
            vec![1, 2],
            vec![1, 2],
            vec![1, 2],
            vec![1, 2],
            vec![1, 2],
            vec![1, 2],
        ]
    );
    assert_eq!(recorder.counts(), vec![0, 1, 1, 2, 2, 2, 2, 2]);
}

#[test]
fn tick_hands_the_snapshot_to_render_and_the_duration_to_sleep() {
    let mut source = Recorder::new(Refusal::Never);
    let engine = Sort::with_data(&mut source, SortType::Merge, vec![3, 1, 2], 0);
    let snapshot = engine.snapshot();
    let mut renderer = Recorder::new(Refusal::CancelOnSleep(1));
    let answer = renderer.tick(snapshot, Duration::from_millis(42));
    assert!(matches!(answer, Err(Error::Interrupted)));
    assert_eq!(renderer.data(), vec![vec![3, 1, 2]]);
    assert_eq!(renderer.frames[0].sort_type, SortType::Merge);
    assert_eq!(*renderer.pauses.borrow(), vec![Duration::from_millis(42)]);
}

#[test]
fn bubble_cancelled_on_the_third_tick_has_shown_its_first_two_exchanges() {
    let mut recorder = Recorder::new(Refusal::CancelOnSleep(3));
    let result = Sort::with_data(&mut recorder, SortType::Bubble, vec![3, 2, 1], 7).run();
    assert!(matches!(result, Err(Error::Interrupted)));
    assert_eq!(recorder.data(), vec![vec![3, 2, 1], vec![2, 3, 1], vec![2, 1, 3]]);
    assert_eq!(recorder.counts(), vec![0, 1, 2]);
}

#[test]
fn merge_refused_on_a_tick_has_written_no_further() {
    let mut recorder = Recorder::new(Refusal::CancelOnSleep(7));
    let mut engine = Sort::with_data(&mut recorder, SortType::Merge, vec![5, 3, 4, 1, 2], 7);
    let result = engine.execute();
    assert!(matches!(result, Err(Error::Interrupted)));
    assert_eq!(engine.snapshot().get_data(), &vec![3, 5, 1, 2, 2]);
    assert_eq!(engine.snapshot().get_count().value(), 6);
    assert_eq!(recorder.frames.len(), 7);
    assert_eq!(recorder.frames.last().unwrap().data, vec![3, 5, 1, 2, 2]);
}

#[test]
fn bogo_on_data_in_order_neither_shuffles_nor_ticks() {
    let (recorder, result) = run_on(SortType::Bogo, vec![1, 2, 3]);
    assert_eq!(result.unwrap(), 0);
    assert_eq!(recorder.data(), vec![vec![1, 2, 3], vec![1, 2, 3]]);
    assert_eq!(recorder.counts(), vec![0, 0]);
}

#[test]
fn bogo_shows_data_out_of_order_until_its_last_shuffle() {
    for _ in 0..20 {
        let (recorder, result) = run_on(SortType::Bogo, vec![2, 3, 1]);
        let shuffles = result.unwrap();
        assert!(shuffles >= 1);
        let frames = &recorder.frames;
        assert_eq!(frames.len(), shuffles + 2);
        for frame in &frames[..frames.len() - 2] {
            assert!(!frame.is_sorted);
        }
        assert!(frames[frames.len() - 2].is_sorted);
        assert!(frames[frames.len() - 1].is_sorted);
    }
}
