use std::cell::Cell;

use buildy::Target;
use buildy::fingerprint::Fingerprints;
use buildy::fingerprint::compute_fingerprints;
use buildy::incremental::IncrementalRunResult;
use buildy::incremental::IncrementalRunner;
use buildy::incremental::TargetChecksums;
use buildy::incremental::checksum_file_name;
use buildy::incremental::compute_target_checksums;

fn target_with_paths(name: &str, inputs: &[&str], outputs: &[&str]) -> Target {
    Target {
        name: name.to_string(),
        depends_on: Vec::new(),
        watch_list: vec!["src".to_string()],
        build_list: vec!["echo build".to_string()],
        run_list: Vec::new(),
        input_paths: inputs.iter().map(|s| s.to_string()).collect(),
        output_paths: outputs.iter().map(|s| s.to_string()).collect(),
        incremental: true,
    }
}

fn fingerprints(entries: &[(&str, &str)]) -> Fingerprints {
    let mut fp = Fingerprints::new();
    for (path, digest) in entries {
        fp.insert(&path.to_string(), &digest.to_string());
    }
    fp
}

fn checksums(inputs: &[(&str, &str)], outputs: &[(&str, &str)]) -> TargetChecksums {
    TargetChecksums { inputs: fingerprints(inputs), outputs: fingerprints(outputs) }
}

#[test]
fn digest_is_not_the_input() {
    // SHA-1 of "abc", a published test vector: the wrapper must hash, not echo.
    let files = vec![("f".to_string(), b"abc".to_vec())];
    let fp = compute_fingerprints(&files);
    let digest = fp.get(&"f".to_string()).expect("fingerprinted");
    assert_eq!(digest, "a9993e364706816aba3e25717850c26c9cd0d89d");
}

#[test]
fn equal_bytes_equal_digest() {
    let files = vec![
        ("one".to_string(), b"same contents".to_vec()),
        ("two".to_string(), b"same contents".to_vec()),
        ("three".to_string(), b"different".to_vec()),
    ];
    let fp = compute_fingerprints(&files);
    let one = fp.get(&"one".to_string()).unwrap().clone();
    let two = fp.get(&"two".to_string()).unwrap().clone();
    let three = fp.get(&"three".to_string()).unwrap().clone();
    assert_eq!(one, two);
    assert_ne!(one, three);
    assert_eq!(fp.len(), 3);
}

#[test]
fn comparison_is_order_independent() {
    let a = fingerprints(&[("x", "1"), ("y", "2")]);
    let b = fingerprints(&[("y", "2"), ("x", "1")]);
    assert!(a.eq_map(&b));
    let c = fingerprints(&[("x", "1"), ("y", "9")]);
    assert!(!a.eq_map(&c));
    let d = fingerprints(&[("x", "1")]);
    assert!(!a.eq_map(&d));
}

#[test]
fn record_comparison_covers_both_sets() {
    let saved = checksums(&[("in", "1")], &[("out", "2")]);
    let same = checksums(&[("in", "1")], &[("out", "2")]);
    let other_out = checksums(&[("in", "1")], &[("out", "3")]);
    assert!(saved.eq_fs_checksum(&same));
    assert!(!saved.eq_fs_checksum(&other_out));
}

#[test]
fn no_declared_paths_no_record() {
    let bare = target_with_paths("bare", &[], &[]);
    let r = compute_target_checksums(&bare, Fingerprints::new(), Fingerprints::new());
    assert!(r.is_none());
    let with_inputs = target_with_paths("with_inputs", &["src"], &[]);
    let r2 = compute_target_checksums(&with_inputs, fingerprints(&[("src", "1")]), Fingerprints::new());
    assert!(r2.is_some());
}

#[test]
fn first_run_executes_then_skips_then_reruns() {
    // A target with a declared input: the first run executes and records,
    // an unchanged second run skips, a changed third run executes again.
    let t = target_with_paths("x", &["src"], &[]);
    let mut runner = IncrementalRunner::new(".buildy".to_string());

    let ran = Cell::new(false);
    let r1 = runner.run(&t, &checksums(&[("src", "v1")], &[]), || {
        ran.set(true);
        (Ok::<u32, String>(1), fingerprints(&[("src", "v1")]), Fingerprints::new())
    });
    assert!(ran.get());
    assert!(matches!(r1, IncrementalRunResult::Run(Ok(1))));
    assert!(runner.get_record(&"x".to_string()).is_some());

    let ran2 = Cell::new(false);
    let r2 = runner.run(&t, &checksums(&[("src", "v1")], &[]), || {
        ran2.set(true);
        (Ok::<u32, String>(2), fingerprints(&[("src", "v1")]), Fingerprints::new())
    });
    assert!(!ran2.get());
    assert!(matches!(r2, IncrementalRunResult::Skipped));

    let r3 = runner.run(&t, &checksums(&[("src", "v2")], &[]), || {
        (Ok::<u32, String>(3), fingerprints(&[("src", "v2")]), Fingerprints::new())
    });
    assert!(matches!(r3, IncrementalRunResult::Run(Ok(3))));
}

#[test]
fn failed_run_leaves_no_record() {
    let t = target_with_paths("x", &["src"], &[]);
    let mut runner = IncrementalRunner::new(".buildy".to_string());
    let r = runner.run(&t, &checksums(&[("src", "v1")], &[]), || {
        (Err::<u32, String>("build failed".to_string()), fingerprints(&[("src", "v1")]), Fingerprints::new())
    });
    assert!(matches!(r, IncrementalRunResult::Run(Err(_))));
    assert!(runner.get_record(&"x".to_string()).is_none());
    // The next attempt therefore runs again.
    let r2 = runner.run(&t, &checksums(&[("src", "v1")], &[]), || {
        (Ok::<u32, String>(7), fingerprints(&[("src", "v1")]), Fingerprints::new())
    });
    assert!(matches!(r2, IncrementalRunResult::Run(Ok(7))));
}

#[test]
fn target_without_paths_always_runs() {
    let t = target_with_paths("bare", &[], &[]);
    let mut runner = IncrementalRunner::new(".buildy".to_string());
    for round in 0..3u32 {
        let r = runner.run(&t, &checksums(&[], &[]), || {
            (Ok::<u32, String>(round), Fingerprints::new(), Fingerprints::new())
        });
        assert!(matches!(r, IncrementalRunResult::Run(Ok(_))));
        assert!(runner.get_record(&"bare".to_string()).is_none());
    }
}

#[test]
fn clean_checksums_selected_and_all() {
    let a = target_with_paths("a", &["src"], &[]);
    let b = target_with_paths("b", &["src"], &[]);
    let mut runner = IncrementalRunner::new(".buildy".to_string());
    runner.restore_record(&"a".to_string(), checksums(&[("src", "1")], &[]));
    runner.restore_record(&"b".to_string(), checksums(&[("src", "2")], &[]));

    runner.clean_checksums(&vec![a]);
    assert!(runner.get_record(&"a".to_string()).is_none());
    assert!(runner.get_record(&"b".to_string()).is_some());

    runner.clean_checksums(&Vec::new());
    assert!(runner.get_record(&"b".to_string()).is_none());
    let _ = b;
}

#[test]
fn corrupted_record_treated_as_absent() {
    // The embedding program maps an unreadable record to "no record": the
    // runner then executes instead of skipping.
    let t = target_with_paths("x", &["src"], &[]);
    let mut runner = IncrementalRunner::new(".buildy".to_string());
    let r = runner.run(&t, &checksums(&[("src", "v1")], &[]), || {
        (Ok::<(), String>(()), fingerprints(&[("src", "v1")]), Fingerprints::new())
    });
    assert!(matches!(r, IncrementalRunResult::Run(Ok(()))));
}

#[test]
fn checksum_file_names() {
    assert_eq!(checksum_file_name(&"web".to_string()), ".buildy/web.checksum");
    let runner = IncrementalRunner::new("cache".to_string());
    let t = target_with_paths("web", &[], &[]);
    assert_eq!(runner.get_checksum_file_path(&t), "cache/web.checksum");
}
