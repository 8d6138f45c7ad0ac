use buildy::Target;
use buildy::graph::TargetsCheckError;
use buildy::graph::check_targets;
use buildy::graph::filter_targets;
use buildy::graph::has_unique_names;

fn target(name: &str, depends_on: &[&str], build: &[&str]) -> Target {
    Target {
        name: name.to_string(),
        depends_on: depends_on.iter().map(|s| s.to_string()).collect(),
        watch_list: Vec::new(),
        build_list: build.iter().map(|s| s.to_string()).collect(),
        run_list: Vec::new(),
        input_paths: Vec::new(),
        output_paths: Vec::new(),
        incremental: true,
    }
}

fn names(targets: &[Target]) -> Vec<String> {
    targets.iter().map(|t| t.name.clone()).collect()
}

#[test]
fn circular_dependency() {
    let targets = vec![
        target("target_1", &["target_2"], &[]),
        target("target_2", &["target_1"], &[]),
    ];
    assert!(has_unique_names(&targets));
    match check_targets(&targets) {
        Err(TargetsCheckError::DependencyLoop(cycle)) => {
            assert!(!cycle.is_empty());
            assert!(cycle.contains(&"target_1".to_string()) || cycle.contains(&"target_2".to_string()));
        }
        _ => panic!("a two-target cycle must be rejected"),
    }
}

#[test]
fn self_dependency_rejected() {
    let targets = vec![target("a", &["a"], &[])];
    match check_targets(&targets) {
        Err(TargetsCheckError::DependencyLoop(cycle)) => {
            assert_eq!(cycle, vec!["a".to_string()]);
        }
        _ => panic!("a self-dependency must be rejected"),
    }
}

#[test]
fn longer_cycle_rejected() {
    let targets = vec![
        target("a", &["b"], &[]),
        target("b", &["c"], &[]),
        target("c", &["a"], &[]),
        target("d", &[], &[]),
    ];
    match check_targets(&targets) {
        Err(TargetsCheckError::DependencyLoop(cycle)) => {
            assert!(cycle.len() >= 2);
            assert!(!cycle.contains(&"d".to_string()));
        }
        _ => panic!("a three-target cycle must be rejected"),
    }
}

#[test]
fn missing_dependency_rejected() {
    let targets = vec![target("a", &["ghost"], &[])];
    match check_targets(&targets) {
        Err(TargetsCheckError::DependencyNotFound(d)) => {
            assert_eq!(d, "ghost".to_string());
        }
        _ => panic!("an unknown dependency must be rejected"),
    }
}

#[test]
fn valid_graph_accepted() {
    let targets = vec![
        target("a", &[], &["echo hi"]),
        target("b", &["a"], &["echo bye"]),
        target("c", &["a", "b"], &[]),
    ];
    assert!(check_targets(&targets).is_ok());
}

#[test]
fn filter_keeps_dependency_closure() {
    let targets = vec![
        target("a", &[], &["echo hi"]),
        target("b", &["a"], &["echo bye"]),
        target("c", &[], &[]),
    ];
    let requested = vec!["b".to_string()];
    let sub = filter_targets(&targets, &requested).expect("known names");
    let mut sub_names = names(&sub);
    sub_names.sort();
    assert_eq!(sub_names, vec!["a".to_string(), "b".to_string()]);
}

#[test]
fn filter_rejects_unknown_names() {
    let targets = vec![target("a", &[], &[])];
    let requested = vec!["nope".to_string(), "a".to_string(), "gone".to_string()];
    match filter_targets(&targets, &requested) {
        Err(bad) => {
            assert_eq!(bad, vec!["nope".to_string(), "gone".to_string()]);
        }
        Ok(_) => panic!("unknown requested names must be an error"),
    }
}

#[test]
fn duplicate_names_detected() {
    let targets = vec![target("a", &[], &[]), target("a", &[], &[])];
    assert!(!has_unique_names(&targets));
    let distinct = vec![target("a", &[], &[]), target("b", &[], &[])];
    assert!(has_unique_names(&distinct));
}
