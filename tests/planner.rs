use gimmisn_cron::planner::{
    limit_to, plan_run, should_run, Artifacts, RelationStatus, Step, StreetsPolicy, Task,
};

fn relation(active: bool, policy: StreetsPolicy) -> RelationStatus {
    RelationStatus { active, policy, existing: Artifacts::none() }
}

/// Marks the artifacts of every step as written.
fn apply(rels: &mut Vec<RelationStatus>, steps: &[Step]) {
    for step in steps {
        rels[step.relation].existing.insert(step.task);
    }
}

fn has(steps: &[Step], relation: usize, task: Task) -> bool {
    steps.iter().any(|s| s.relation == relation && s.task == task)
}

/// gazdagret (both comparisons), ujbuda (streets only), one dormant relation.
fn registry_with_streets_only() -> Vec<RelationStatus> {
    vec![
        relation(true, StreetsPolicy::Yes),
        relation(true, StreetsPolicy::Only),
        relation(false, StreetsPolicy::Yes),
    ]
}

/// gazdagret (both comparisons), gellerthegy (house numbers only), one dormant relation.
fn registry_with_streets_no() -> Vec<RelationStatus> {
    vec![
        relation(true, StreetsPolicy::Yes),
        relation(true, StreetsPolicy::No),
        relation(false, StreetsPolicy::Yes),
    ]
}

fn second_run_is_empty(mut rels: Vec<RelationStatus>) {
    let first = plan_run(&rels, true, false);
    apply(&mut rels, &first);
    let second = plan_run(&rels, false, false);
    assert!(second.is_empty());
}

#[test]
fn test_update_ref_housenumbers() {
    let rels = registry_with_streets_only();
    let plan = plan_run(&rels, true, false);
    assert!(has(&plan, 0, Task::RefHousenumbers));
    assert!(!has(&plan, 1, Task::RefHousenumbers));
    assert!(!has(&plan, 2, Task::RefHousenumbers));
    second_run_is_empty(rels);
}

#[test]
fn test_update_ref_streets() {
    let rels = registry_with_streets_no();
    let plan = plan_run(&rels, true, false);
    assert!(has(&plan, 0, Task::RefStreets));
    assert!(!has(&plan, 1, Task::RefStreets));
    second_run_is_empty(rels);
}

#[test]
fn test_update_missing_housenumbers() {
    let rels = registry_with_streets_only();
    let plan = plan_run(&rels, true, false);
    assert!(has(&plan, 0, Task::MissingHousenumbers));
    assert!(!has(&plan, 1, Task::MissingHousenumbers));
    second_run_is_empty(rels);
}

#[test]
fn test_update_missing_streets() {
    let rels = registry_with_streets_no();
    let plan = plan_run(&rels, true, false);
    assert!(has(&plan, 0, Task::MissingStreets));
    assert!(!has(&plan, 1, Task::MissingStreets));
    second_run_is_empty(rels);
}

#[test]
fn test_update_additional_streets() {
    let rels = registry_with_streets_no();
    let plan = plan_run(&rels, true, false);
    assert!(has(&plan, 0, Task::AdditionalStreets));
    assert!(!has(&plan, 1, Task::AdditionalStreets));
    second_run_is_empty(rels);
}

#[test]
fn test_update_osm_housenumbers() {
    let rels = vec![relation(true, StreetsPolicy::Yes), relation(false, StreetsPolicy::Yes)];
    let plan = plan_run(&rels, true, false);
    assert!(has(&plan, 0, Task::OsmHousenumbers));
    assert!(!has(&plan, 1, Task::OsmHousenumbers));
    second_run_is_empty(rels);
}

#[test]
fn test_plan_order_and_policy() {
    let rels = vec![relation(true, StreetsPolicy::Only), relation(true, StreetsPolicy::No)];
    let plan = plan_run(&rels, false, false);
    let expected = vec![
        Step { relation: 0, task: Task::OsmStreets },
        Step { relation: 0, task: Task::OsmHousenumbers },
        Step { relation: 0, task: Task::RefStreets },
        Step { relation: 0, task: Task::MissingStreets },
        Step { relation: 0, task: Task::AdditionalStreets },
        Step { relation: 1, task: Task::OsmStreets },
        Step { relation: 1, task: Task::OsmHousenumbers },
        Step { relation: 1, task: Task::RefHousenumbers },
        Step { relation: 1, task: Task::MissingHousenumbers },
    ];
    assert_eq!(plan, expected);
}

#[test]
fn test_incremental_skips_existing_forced_refresh_does_not() {
    let mut rels = vec![relation(true, StreetsPolicy::Yes)];
    rels[0].existing.insert(Task::OsmStreets);
    let incremental = plan_run(&rels, false, false);
    assert!(!has(&incremental, 0, Task::OsmStreets));
    assert!(has(&incremental, 0, Task::OsmHousenumbers));
    let forced = plan_run(&rels, true, false);
    assert!(has(&forced, 0, Task::OsmStreets));
    assert_eq!(forced.len(), 7);
}

#[test]
fn test_activate_all_includes_dormant() {
    let rels = vec![relation(false, StreetsPolicy::Yes)];
    assert!(plan_run(&rels, true, false).is_empty());
    let plan = plan_run(&rels, true, true);
    assert_eq!(plan.len(), 7);
    assert!(!rels[0].active);
}

#[test]
fn test_should_run() {
    assert!(should_run(StreetsPolicy::Yes, Task::RefStreets, false, false));
    assert!(!should_run(StreetsPolicy::Yes, Task::RefStreets, false, true));
    assert!(should_run(StreetsPolicy::Yes, Task::RefStreets, true, true));
    assert!(!should_run(StreetsPolicy::No, Task::RefStreets, true, false));
    assert!(!should_run(StreetsPolicy::Only, Task::MissingHousenumbers, true, false));
    assert!(should_run(StreetsPolicy::Only, Task::OsmHousenumbers, true, false));
}

fn chars(s: &str) -> Vec<char> {
    s.chars().collect()
}

#[test]
fn test_policy_names() {
    assert_eq!(StreetsPolicy::from_name(&chars("")), Some(StreetsPolicy::Yes));
    assert_eq!(StreetsPolicy::from_name(&chars("yes")), Some(StreetsPolicy::Yes));
    assert_eq!(StreetsPolicy::from_name(&chars("no")), Some(StreetsPolicy::No));
    assert_eq!(StreetsPolicy::from_name(&chars("only")), Some(StreetsPolicy::Only));
    assert_eq!(StreetsPolicy::from_name(&chars("maybe")), None);
}

#[test]
fn test_limit_to() {
    let counties = vec![chars("01"), chars("13"), chars("01")];
    assert_eq!(limit_to(&counties, &Some(chars("01"))), vec![0, 2]);
    assert_eq!(limit_to(&counties, &None), vec![0, 1, 2]);
    assert!(limit_to(&counties, &Some(chars("99"))).is_empty());
}
