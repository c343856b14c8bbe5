use gimmisn_cron::planner::{plan_run, Artifacts, RelationStatus, StreetsPolicy};
use gimmisn_cron::run::{
    activate_all_at, day_stamp, elapsed_text, run_outcome, should_activate_all, CalendarDate,
    RunFailure, RunMode,
};

fn text(v: &[char]) -> String {
    v.iter().collect()
}

/// 2021-06-01 00:00:00 UTC.
const FIRST_OF_JUNE: i64 = 1622505600;

#[test]
fn test_monthly_reactivation() {
    assert!(activate_all_at(false, FIRST_OF_JUNE));
    assert!(activate_all_at(false, FIRST_OF_JUNE + 86399));
    assert!(!activate_all_at(false, FIRST_OF_JUNE + 86400));
    assert!(activate_all_at(true, FIRST_OF_JUNE + 86400));
    let dormant = vec![RelationStatus {
        active: false,
        policy: StreetsPolicy::Yes,
        existing: Artifacts::none(),
    }];
    let plan = plan_run(&dormant, false, activate_all_at(false, FIRST_OF_JUNE));
    assert_eq!(plan.len(), 7);
    assert!(!dormant[0].active);
    let plan = plan_run(&dormant, false, activate_all_at(false, FIRST_OF_JUNE + 86400));
    assert!(plan.is_empty());
}

#[test]
fn test_should_activate_all() {
    let first = CalendarDate { year: 2021, month: 6, day: 1 };
    let second = CalendarDate { year: 2021, month: 6, day: 2 };
    assert!(should_activate_all(false, first));
    assert!(!should_activate_all(false, second));
    assert!(should_activate_all(true, second));
}

#[test]
fn test_day_stamp() {
    let d = CalendarDate { year: 2021, month: 6, day: 1 };
    assert_eq!(text(&day_stamp(d).unwrap()), "2021-06-01");
    let d = CalendarDate { year: 987, month: 12, day: 31 };
    assert_eq!(text(&day_stamp(d).unwrap()), "0987-12-31");
    assert!(day_stamp(CalendarDate { year: 10000, month: 1, day: 1 }).is_none());
}

#[test]
fn test_elapsed_text() {
    assert_eq!(text(&elapsed_text(100, 100 + 3723)), "1:02:03");
    assert_eq!(text(&elapsed_text(0, 59)), "0:00:59");
    assert_eq!(text(&elapsed_text(0, 36 * 3600)), "36:00:00");
    assert_eq!(text(&elapsed_text(50, 10)), "0:00:00");
}

#[test]
fn test_run_outcome() {
    assert_eq!(run_outcome(false, false, false), None);
    assert_eq!(run_outcome(true, true, true), Some(RunFailure::Stats));
    assert_eq!(run_outcome(false, true, true), Some(RunFailure::Relations));
    assert_eq!(run_outcome(false, false, true), Some(RunFailure::Injected));
}

#[test]
fn test_run_modes() {
    assert!(RunMode::All.runs_stats() && RunMode::All.runs_relations());
    assert!(RunMode::Stats.runs_stats() && !RunMode::Stats.runs_relations());
    assert!(!RunMode::Relations.runs_stats() && RunMode::Relations.runs_relations());
}
