use marky::errors::MarkyError;
use marky::schedule::plan;

#[test]
fn plan_scenario_twelve_rows() {
    // Twelve rows, initial chunk 3, factor 2, divisor 1: the schedule stops
    // strictly before 12.
    let p = plan(12, 3, 2, 1, 1).unwrap();
    assert_eq!(p, vec![3, 6]);
}

#[test]
fn plan_golden_ratio_default() {
    // The default growth factor as a rational: each value is the floor of
    // the previous times the golden ratio.
    let p = plan(1000, 100, 1_618_033_988_749_894_848, 1_000_000_000_000_000_000, 1).unwrap();
    assert_eq!(p, vec![100, 161, 260, 420, 679]);
}

#[test]
fn plan_is_strictly_ascending_and_bounded() {
    let history_len: usize = 5000;
    let divisor: usize = 2;
    let p = plan(history_len, 7, 3, 2, divisor).unwrap();
    assert!(!p.is_empty());
    assert_eq!(p[0], 7);
    for i in 0..p.len() {
        assert!(p[i] < history_len / divisor);
        if i + 1 < p.len() {
            assert!(p[i] < p[i + 1]);
        }
    }
}

#[test]
fn plan_slow_growth_still_progresses() {
    // A factor of 3/2 stalls at chunk 1 under flooring; the scheduler still
    // advances by at least one.
    let p = plan(10, 1, 3, 2, 1).unwrap();
    assert_eq!(p, vec![1, 2, 3, 4, 6, 9]);
}

#[test]
fn plan_divisor_caps_ceiling() {
    let p = plan(100, 3, 2, 1, 4).unwrap();
    assert_eq!(p, vec![3, 6, 12, 24]);
}

#[test]
fn plan_empty_when_init_reaches_ceiling() {
    let p = plan(10, 50, 2, 1, 1).unwrap();
    assert!(p.is_empty());
}

#[test]
fn plan_rejects_growth_at_or_below_one() {
    assert_eq!(plan(100, 10, 1, 1, 1).unwrap_err(), MarkyError::InvalidSchedule);
    assert_eq!(plan(100, 10, 1, 2, 1).unwrap_err(), MarkyError::InvalidSchedule);
}

#[test]
fn plan_rejects_zero_init_chunk() {
    assert_eq!(plan(100, 0, 2, 1, 1).unwrap_err(), MarkyError::InvalidSchedule);
}

#[test]
fn plan_rejects_zero_divisor() {
    assert_eq!(plan(100, 10, 2, 1, 0).unwrap_err(), MarkyError::InvalidSchedule);
}

#[test]
fn invalid_schedule_message() {
    let e = plan(100, 0, 2, 1, 1).unwrap_err();
    assert_eq!(e.describe(), "degenerate chunk schedule configuration");
}
