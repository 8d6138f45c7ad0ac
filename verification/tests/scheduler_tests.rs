use buildy::Target;
use buildy::domain::contains_string;
use buildy::scheduler::BuildResult;
use buildy::scheduler::BuildResultState;
use buildy::scheduler::BuildLoopError;
use buildy::scheduler::BuildState;
use buildy::scheduler::Builder;
use buildy::supervisor::RunEvent;
use buildy::supervisor::RunRegistry;
use buildy::supervisor::RunSession;
use buildy::supervisor::RunSignal;
use buildy::supervisor::RunStep;

fn target(name: &str, depends_on: &[&str], watch: &[&str], run: &[&str], incremental: bool) -> Target {
    Target {
        name: name.to_string(),
        depends_on: depends_on.iter().map(|s| s.to_string()).collect(),
        watch_list: watch.iter().map(|s| s.to_string()).collect(),
        build_list: vec!["echo hi".to_string()],
        run_list: run.iter().map(|s| s.to_string()).collect(),
        input_paths: Vec::new(),
        output_paths: Vec::new(),
        incremental,
    }
}

fn success(name: &str) -> BuildResult {
    BuildResult { target: name.to_string(), state: BuildResultState::Success, output: String::new() }
}

fn has(names: &Vec<String>, name: &str) -> bool {
    contains_string(names, &name.to_string())
}

fn step(builder: &Builder, state: &mut BuildState) -> Vec<String> {
    let pending = builder.select_pending(&state.built, &state.building, &state.changed);
    Builder::mark_dispatched(&mut state.building, &pending);
    Builder::consume_changes(&mut state.changed, &pending);
    pending
}

fn finish(builder: &Builder, state: &mut BuildState, result: &BuildResult) {
    if builder
        .parse_build_result(result, &mut state.building, &mut state.built)
        .is_err()
    {
        panic!("result is not a failure");
    }
}

#[test]
fn dependency_order_drives_dispatch() {
    // Targets a and b where b depends on a: a is dispatched first, b only
    // once a is built; both then report success.
    let builder = Builder::new(vec![
        target("a", &[], &[], &[], true),
        target("b", &["a"], &[], &[], true),
    ]);
    let mut state = BuildState::new();

    let first = step(&builder, &mut state);
    assert_eq!(first, vec!["a".to_string()]);
    assert!(has(&state.building, "a"));
    assert!(!has(&state.building, "b"));

    // While a is in flight nothing else becomes eligible.
    assert!(step(&builder, &mut state).is_empty());

    finish(&builder, &mut state, &success("a"));
    assert!(has(&state.built, "a"));
    assert!(!has(&state.building, "a"));

    let second = step(&builder, &mut state);
    assert_eq!(second, vec!["b".to_string()]);
    finish(&builder, &mut state, &success("b"));
    assert!(has(&state.built, "b"));
}

#[test]
fn no_duplicate_dispatch_while_building() {
    let builder = Builder::new(vec![target("a", &[], &[], &[], true)]);
    let mut state = BuildState::new();
    let first = step(&builder, &mut state);
    assert_eq!(first, vec!["a".to_string()]);
    // a is building: repeated iterations never dispatch it a second time.
    assert!(step(&builder, &mut state).is_empty());
    assert!(step(&builder, &mut state).is_empty());
}

#[test]
fn non_incremental_target_never_rebuilds() {
    let builder = Builder::new(vec![target("a", &[], &["src"], &[], false)]);
    let mut state = BuildState::new();
    let first = step(&builder, &mut state);
    assert_eq!(first, vec!["a".to_string()]);
    finish(&builder, &mut state, &success("a"));

    // Even a matching change event does not make it eligible again.
    builder.note_path_changed(&mut state.changed, &"src/lib.rs".to_string());
    assert!(has(&state.changed, "a"));
    assert!(step(&builder, &mut state).is_empty());
}

#[test]
fn only_watching_target_marked_and_rebuilt() {
    // Two targets watch disjoint prefixes; a change under src marks and
    // rebuilds only the watcher of src.
    let builder = Builder::new(vec![
        target("x", &[], &["src"], &[], true),
        target("y", &[], &["assets"], &[], true),
    ]);
    let mut state = BuildState::new();
    let first = step(&builder, &mut state);
    assert_eq!(first.len(), 2);
    finish(&builder, &mut state, &success("x"));
    finish(&builder, &mut state, &success("y"));
    assert!(step(&builder, &mut state).is_empty());

    builder.note_path_changed(&mut state.changed, &"src/main.rs".to_string());
    assert!(has(&state.changed, "x"));
    assert!(!has(&state.changed, "y"));

    let rebuilt = step(&builder, &mut state);
    assert_eq!(rebuilt, vec!["x".to_string()]);
    assert!(!has(&state.changed, "x"));
}

#[test]
fn unrelated_path_marks_nothing() {
    let builder = Builder::new(vec![target("x", &[], &["src"], &[], true)]);
    let mut state = BuildState::new();
    builder.note_path_changed(&mut state.changed, &"docs/readme".to_string());
    assert!(state.changed.is_empty());
}

#[test]
fn eligibility_rules() {
    let built = vec!["dep".to_string(), "done".to_string()];
    let building = vec!["busy".to_string()];
    let changed = vec!["done".to_string()];

    let fresh = target("new", &["dep"], &[], &[], true);
    assert!(Builder::is_target_to_build(&"new".to_string(), &fresh, &built, &building, &changed));

    let blocked = target("blocked", &["missing"], &[], &[], true);
    assert!(!Builder::is_target_to_build(&"blocked".to_string(), &blocked, &built, &building, &changed));

    let busy = target("busy", &[], &[], &[], true);
    assert!(!Builder::is_target_to_build(&"busy".to_string(), &busy, &built, &building, &changed));

    let done_changed = target("done", &[], &[], &[], true);
    assert!(Builder::is_target_to_build(&"done".to_string(), &done_changed, &built, &building, &changed));

    let done_frozen = target("done", &[], &[], &[], false);
    assert!(!Builder::is_target_to_build(&"done".to_string(), &done_frozen, &built, &building, &changed));
}

#[test]
fn build_failure_is_fatal_and_named() {
    let builder = Builder::new(vec![target("a", &[], &[], &[], true)]);
    let mut state = BuildState::new();
    let _ = step(&builder, &mut state);
    let failed = BuildResult {
        target: "a".to_string(),
        state: BuildResultState::Fail,
        output: String::new(),
    };
    match builder.parse_build_result(&failed, &mut state.building, &mut state.built) {
        Err(BuildLoopError::BuildFailed(name)) => assert_eq!(name, "a".to_string()),
        Ok(()) => panic!("a failed build must end the loop"),
    }
    // The failing target never moves into built.
    assert!(!has(&state.built, "a"));
}

#[test]
fn rebuild_cancels_previous_run() {
    // A target with a run list: the first success starts a run without a
    // previous one to kill; the success after a rebuild kills the previous
    // run before the new session starts.
    let t = target("server", &[], &[], &["serve"], true);
    let mut registry = RunRegistry::new();

    let first = registry.on_build_result(&t, &BuildResultState::Success);
    assert!(first.start_new);
    assert!(!first.kill_previous);
    assert!(registry.has_active(&"server".to_string()));

    let second = registry.on_build_result(&t, &BuildResultState::Success);
    assert!(second.start_new);
    assert!(second.kill_previous);
    assert!(registry.has_active(&"server".to_string()));
}

#[test]
fn skip_leaves_running_process_alone() {
    let t = target("server", &[], &[], &["serve"], true);
    let mut registry = RunRegistry::new();
    let _ = registry.on_build_result(&t, &BuildResultState::Success);

    let on_skip = registry.on_build_result(&t, &BuildResultState::Skip);
    assert!(!on_skip.start_new);
    assert!(!on_skip.kill_previous);
    assert!(registry.has_active(&"server".to_string()));
}

#[test]
fn target_without_run_list_never_registered() {
    let t = target("lib", &[], &[], &[], true);
    let mut registry = RunRegistry::new();
    let action = registry.on_build_result(&t, &BuildResultState::Success);
    assert!(!action.start_new);
    assert!(!action.kill_previous);
    assert!(!registry.has_active(&"lib".to_string()));
}

#[test]
fn run_session_walks_commands_in_order() {
    let t = target("job", &[], &[], &["first", "second"], true);
    let mut session = RunSession::new(&t);
    match session.begin() {
        RunStep::Start(c) => assert_eq!(c, "first".to_string()),
        _ => panic!("a nonempty run list starts its first command"),
    }
    match session.advance(RunEvent::Exited) {
        RunStep::Start(c) => assert_eq!(c, "second".to_string()),
        _ => panic!("the next command starts after the previous exits"),
    }
    match session.advance(RunEvent::Exited) {
        RunStep::Done => {}
        _ => panic!("the session finishes after the last command"),
    }
}

#[test]
fn run_session_stops_on_kill() {
    let t = target("job", &[], &[], &["first", "second"], true);
    let mut session = RunSession::new(&t);
    let _ = session.begin();
    match session.advance(RunEvent::Signal(RunSignal::Kill)) {
        RunStep::Stop => {}
        _ => panic!("a kill signal stops the session"),
    }
}

#[test]
fn empty_run_list_session_is_done_at_once() {
    let t = target("job", &[], &[], &[], true);
    let session = RunSession::new(&t);
    match session.begin() {
        RunStep::Done => {}
        _ => panic!("an empty run list has nothing to start"),
    }
}
