use pixi_task_runner::cache::{can_skip, save_cache, CanSkip, Fingerprint};

fn fp(command: &str, inputs: u64, lock: u64) -> Fingerprint {
    Fingerprint::new(
        command.to_string(),
        "/work".to_string(),
        inputs,
        "default".to_string(),
        lock,
    )
}

#[test]
fn missing_record_forces_a_run() {
    assert!(matches!(can_skip(&None, fp("make", 1, 2)), CanSkip::No(_)));
}

#[test]
fn unchanged_task_is_skipped_after_one_success() {
    let mut record = None;
    let token = match can_skip(&record, fp("make", 1, 2)) {
        CanSkip::No(t) => t,
        CanSkip::Yes => panic!("first run must not be skipped"),
    };
    assert!(save_cache(&mut record, token, 0, false));
    assert!(matches!(can_skip(&record, fp("make", 1, 2)), CanSkip::Yes));
}

#[test]
fn changing_any_factor_forces_a_run() {
    let record = Some(fp("make", 1, 2));
    assert!(matches!(can_skip(&record, fp("make all", 1, 2)), CanSkip::No(_)));
    assert!(matches!(can_skip(&record, fp("make", 9, 2)), CanSkip::No(_)));
    assert!(matches!(can_skip(&record, fp("make", 1, 9)), CanSkip::No(_)));
    let other_dir = Fingerprint::new("make".to_string(), "/elsewhere".to_string(), 1, "default".to_string(), 2);
    assert!(matches!(can_skip(&record, other_dir), CanSkip::No(_)));
    let other_env = Fingerprint::new("make".to_string(), "/work".to_string(), 1, "test".to_string(), 2);
    assert!(matches!(can_skip(&record, other_env), CanSkip::No(_)));
}

#[test]
fn dry_run_never_writes_the_record() {
    let mut record = Some(fp("old", 1, 1));
    assert!(!save_cache(&mut record, fp("new", 2, 2), 0, true));
    assert_eq!(record.unwrap().command, "old");
}

#[test]
fn failed_run_never_writes_the_record() {
    let mut record = None;
    assert!(!save_cache(&mut record, fp("new", 2, 2), 1, false));
    assert!(record.is_none());
}

#[test]
fn run_token_carries_the_fresh_fingerprint() {
    match can_skip(&Some(fp("a", 1, 1)), fp("b", 3, 4)) {
        CanSkip::No(t) => {
            assert_eq!(t.command, "b");
            assert_eq!(t.inputs_digest, 3);
            assert_eq!(t.lock_file_digest, 4);
        }
        CanSkip::Yes => panic!("changed command must run"),
    }
}
