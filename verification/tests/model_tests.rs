use marky::errors::MarkyError;
use marky::float_bits::FloatKey;
use marky::model::ModelState;
use marky::orchestrate::{generate_stream, generate_streams, train};
use marky::rng::Rng;
use marky::row::{Row, Token, row_eq};
use marky::schedule::plan;

fn pv(price: f64, volume: u64) -> Row {
    Row::PriceVolume { price: FloatKey::from_bits(price.to_bits()), volume }
}

fn uint_row(n: u64) -> Row {
    Row::UintVector(vec![n])
}

fn dup(r: &Row) -> Row {
    r.duplicate()
}

fn streams_equal(a: &Vec<Row>, b: &Vec<Row>) -> bool {
    a.len() == b.len() && a.iter().zip(b.iter()).all(|(x, y)| row_eq(x, y))
}

#[test]
fn order_zero_is_coerced_to_one() {
    let m = ModelState::new(0);
    assert_eq!(m.order(), 1);
    let m = ModelState::new(3);
    assert_eq!(m.order(), 3);
}

#[test]
fn empty_feed_is_a_no_op() {
    let mut m = ModelState::new(1);
    m.feed(&vec![]);
    assert_eq!(m.context_count(), 0);
    assert!(!m.is_trained());
}

#[test]
fn feed_records_windows_with_sentinels() {
    let mut m = ModelState::new(1);
    m.feed(&vec![uint_row(1), uint_row(2)]);
    assert!(m.is_trained());
    // Contexts: [Start], [row 1], [row 2].
    assert_eq!(m.context_count(), 3);
    assert_eq!(m.count_of(&vec![Token::Start], &Token::Row(uint_row(1))), 1);
    assert_eq!(m.count_of(&vec![Token::Row(uint_row(1))], &Token::Row(uint_row(2))), 1);
    assert_eq!(m.count_of(&vec![Token::Row(uint_row(2))], &Token::End), 1);
    // Nothing else was recorded.
    assert_eq!(m.count_of(&vec![Token::Start], &Token::Row(uint_row(2))), 0);
    assert_eq!(m.count_of(&vec![Token::Row(uint_row(2))], &Token::Row(uint_row(1))), 0);
}

#[test]
fn order_two_contexts_are_two_wide() {
    let mut m = ModelState::new(2);
    m.feed(&vec![uint_row(1), uint_row(2), uint_row(3)]);
    // Window contexts: [S,S] -> 1, [S,1] -> 2, [1,2] -> 3, [2,3] -> End.
    assert_eq!(m.context_count(), 4);
    assert_eq!(m.count_of(&vec![Token::Start, Token::Start], &Token::Row(uint_row(1))), 1);
    assert_eq!(
        m.count_of(&vec![Token::Start, Token::Row(uint_row(1))], &Token::Row(uint_row(2))),
        1
    );
    assert_eq!(
        m.count_of(&vec![Token::Row(uint_row(1)), Token::Row(uint_row(2))], &Token::Row(
            uint_row(3),
        )),
        1
    );
    assert_eq!(m.count_of(&vec![Token::Row(uint_row(2)), Token::Row(uint_row(3))], &Token::End), 1);
}

#[test]
fn scenario_twelve_rows_two_passes() {
    // Twelve identical rows, order 1, schedule [3, 6]: the first pass feeds
    // four windows of three rows, the second two windows of six rows. Each
    // window contributes one start observation and one end observation, and
    // a window of n rows contributes n - 1 interior transitions.
    let history: Vec<Row> = (0..12).map(|_| pv(1.5, 10)).collect();
    let schedule = plan(history.len(), 3, 2, 1, 1).unwrap();
    assert_eq!(schedule, vec![3, 6]);
    let mut m = ModelState::new(1);
    train(&mut m, &history, &schedule);
    assert!(m.is_trained());
    let r = pv(1.5, 10);
    assert_eq!(m.count_of(&vec![Token::Start], &Token::Row(dup(&r))), 6);
    assert_eq!(m.count_of(&vec![Token::Row(dup(&r))], &Token::Row(dup(&r))), 18);
    assert_eq!(m.count_of(&vec![Token::Row(dup(&r))], &Token::End), 6);
    // Contexts: [Start] and [row].
    assert_eq!(m.context_count(), 2);
}

#[test]
fn training_is_deterministic() {
    let history: Vec<Row> = vec![
        uint_row(3),
        uint_row(1),
        uint_row(4),
        uint_row(1),
        uint_row(5),
        uint_row(9),
        uint_row(2),
        uint_row(6),
        uint_row(5),
        uint_row(3),
    ];
    let schedule = plan(history.len(), 2, 2, 1, 1).unwrap();
    let mut m1 = ModelState::new(2);
    let mut m2 = ModelState::new(2);
    train(&mut m1, &history, &schedule);
    train(&mut m2, &history, &schedule);
    assert!(m1.model_eq(&m2));
}

#[test]
fn different_histories_give_different_tables() {
    let mut m1 = ModelState::new(1);
    let mut m2 = ModelState::new(1);
    m1.feed(&vec![uint_row(1)]);
    m2.feed(&vec![uint_row(2)]);
    assert!(!m1.model_eq(&m2));
}

#[test]
fn untrained_model_refuses_generation() {
    let m = ModelState::new(1);
    let mut rng = Rng::new(7);
    let e = m.start(&mut rng).unwrap_err();
    assert_eq!(e, MarkyError::UntrainedModel);
    assert_eq!(e.describe(), "model has not been trained");
    let e = generate_stream(&m, 10, 100, &mut rng).unwrap_err();
    assert_eq!(e, MarkyError::UntrainedModel);
    let e = generate_streams(&m, 10, 100, 3, 7).unwrap_err();
    assert_eq!(e, MarkyError::UntrainedModel);
}

#[test]
fn start_samples_a_recorded_first_row() {
    let mut m = ModelState::new(1);
    m.feed(&vec![pv(2.0, 5), pv(3.0, 6)]);
    let mut rng = Rng::new(42);
    let first = m.start(&mut rng).unwrap();
    // Only one row was ever recorded after the start context.
    assert!(row_eq(&first, &pv(2.0, 5)));
}

#[test]
fn continue_from_returns_at_least_one_row() {
    // Single-row sequences: every continuation immediately samples the end
    // sentinel, so the fallback must still hand out one row.
    let mut m = ModelState::new(1);
    m.feed(&vec![uint_row(8)]);
    let mut rng = Rng::new(1);
    let seg = m.continue_from(&uint_row(8), &mut rng, 50);
    assert_eq!(seg.len(), 1);
    assert!(row_eq(&seg[0], &uint_row(8)));
}

#[test]
fn continue_from_respects_segment_bound() {
    // A single self-looping row never reaches the end sentinel before the
    // bound: feed a long run so the loop transition dominates.
    let mut m = ModelState::new(1);
    let run: Vec<Row> = (0..200).map(|_| uint_row(1)).collect();
    m.feed(&run);
    let mut rng = Rng::new(3);
    let seg = m.continue_from(&uint_row(1), &mut rng, 5);
    assert!(1 <= seg.len() && seg.len() <= 5);
}

#[test]
fn generate_stream_reaches_target_length() {
    let mut m = ModelState::new(1);
    let history: Vec<Row> = (0..50).map(|i| uint_row(i % 7)).collect();
    let schedule = plan(history.len(), 5, 2, 1, 1).unwrap();
    train(&mut m, &history, &schedule);
    let mut rng = Rng::new(11);
    let rows = generate_stream(&m, 25, 1000, &mut rng).unwrap();
    assert!(rows.len() >= 25);
}

#[test]
fn scenario_three_files_of_one_hundred_rows() {
    // Three independent streams, each of at least one hundred rows, none
    // sharing an identical row sequence (independent draw sources).
    let mut m = ModelState::new(1);
    let history: Vec<Row> = (0..60).map(|i| uint_row((i * i + i / 3) % 11)).collect();
    let schedule = plan(history.len(), 4, 2, 1, 1).unwrap();
    train(&mut m, &history, &schedule);
    let streams = generate_streams(&m, 100, 1000, 3, 2024).unwrap();
    assert_eq!(streams.len(), 3);
    for s in streams.iter() {
        assert!(s.len() >= 100);
    }
    assert!(!streams_equal(&streams[0], &streams[1]));
    assert!(!streams_equal(&streams[0], &streams[2]));
    assert!(!streams_equal(&streams[1], &streams[2]));
}

#[test]
fn generation_leaves_the_model_unchanged() {
    let mut m = ModelState::new(1);
    m.feed(&vec![uint_row(1), uint_row(2), uint_row(1), uint_row(3)]);
    let mut snapshot = ModelState::new(1);
    snapshot.feed(&vec![uint_row(1), uint_row(2), uint_row(1), uint_row(3)]);
    let mut rng = Rng::new(5);
    let _ = generate_stream(&m, 20, 100, &mut rng).unwrap();
    assert!(m.model_eq(&snapshot));
}

#[test]
fn rng_is_reproducible() {
    let mut a = Rng::new(99);
    let mut b = Rng::new(99);
    assert_eq!(a.next_u64(), b.next_u64());
    assert_eq!(a.next_u64(), b.next_u64());
    let mut c = Rng::new(100);
    let x = c.next_u64();
    let mut d = Rng::new(99);
    let _ = d.next_u64();
    assert_ne!(x, d.next_u64());
}

#[test]
fn zero_target_still_requires_training() {
    // The seed draw happens before any length check, so an untrained model
    // fails even for a zero-length request; a trained one returns a stream
    // that may be empty.
    let untrained = ModelState::new(1);
    let mut rng = Rng::new(2);
    assert!(generate_stream(&untrained, 0, 10, &mut rng).is_err());
    let mut m = ModelState::new(1);
    m.feed(&vec![uint_row(1), uint_row(2)]);
    let rows = generate_stream(&m, 0, 10, &mut rng).unwrap();
    assert!(rows.len() <= 10);
}

#[test]
fn order_two_generation_reaches_target() {
    let mut m = ModelState::new(2);
    let history: Vec<Row> = (0..40).map(|i| uint_row((i * 3) % 5)).collect();
    let schedule = plan(history.len(), 4, 2, 1, 1).unwrap();
    train(&mut m, &history, &schedule);
    let mut rng = Rng::new(17);
    let rows = generate_stream(&m, 30, 500, &mut rng).unwrap();
    assert!(rows.len() >= 30);
}

#[test]
fn generation_is_reproducible_with_a_fixed_seed() {
    let mut m = ModelState::new(1);
    let history: Vec<Row> = (0..30).map(|i| uint_row((i * 7) % 4)).collect();
    let schedule = plan(history.len(), 3, 2, 1, 1).unwrap();
    train(&mut m, &history, &schedule);
    let mut r1 = Rng::new(1234);
    let mut r2 = Rng::new(1234);
    let a = generate_stream(&m, 40, 500, &mut r1).unwrap();
    let b = generate_stream(&m, 40, 500, &mut r2).unwrap();
    assert!(streams_equal(&a, &b));
    let mut r3 = Rng::new(77);
    let mut r4 = Rng::new(77);
    let s1 = m.continue_from(&uint_row(1), &mut r3, 20);
    let s2 = m.continue_from(&uint_row(1), &mut r4, 20);
    assert!(streams_equal(&s1, &s2));
}

#[test]
fn window_feed_order_does_not_change_counts() {
    // Feeding the same two windows in either order records identical counts
    // (the table's insertion order may differ; the counts may not).
    let a = vec![uint_row(1), uint_row(2)];
    let b = vec![uint_row(2), uint_row(3)];
    let mut m1 = ModelState::new(1);
    m1.feed(&a);
    m1.feed(&b);
    let mut m2 = ModelState::new(1);
    m2.feed(&b);
    m2.feed(&a);
    let pairs: Vec<(Vec<Token>, Token)> = vec![
        (vec![Token::Start], Token::Row(uint_row(1))),
        (vec![Token::Start], Token::Row(uint_row(2))),
        (vec![Token::Row(uint_row(1))], Token::Row(uint_row(2))),
        (vec![Token::Row(uint_row(2))], Token::Row(uint_row(3))),
        (vec![Token::Row(uint_row(2))], Token::End),
        (vec![Token::Row(uint_row(3))], Token::End),
        (vec![Token::Row(uint_row(1))], Token::End),
    ];
    for (ctx, succ) in pairs.iter() {
        assert_eq!(m1.count_of(ctx, succ), m2.count_of(ctx, succ));
    }
}

