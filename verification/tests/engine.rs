use docuum::config::ConfigError;
use docuum::config::Settings;
use docuum::keep::KeepSpec;
use docuum::state::State;
use docuum::threshold::Threshold;
use docuum::threshold::parse_threshold;
use docuum::threshold::resolve;
use docuum::vacuum::Event;
use docuum::vacuum::ImageRecord;
use docuum::vacuum::Pass;
use docuum::vacuum::prepare;
use docuum::vacuum::process_event;
use docuum::vacuum::sum_sizes;

fn img(id: &str, size: u64, names: Vec<&str>, in_use: bool) -> ImageRecord {
    ImageRecord {
        id: id.as_bytes().to_vec(),
        size,
        names: names.into_iter().map(|s| s.to_string()).collect(),
        in_use,
    }
}

/// Run a pass to completion with every requested deletion succeeding;
/// returns the deleted identities in order.
fn run_pass(pass: &mut Pass, state: &mut State) -> Vec<Vec<u8>> {
    let mut deleted = Vec::new();
    while pass.pending() {
        deleted.push(pass.current_id().clone());
        pass.record_deleted(state);
    }
    deleted
}

#[test]
fn percentage_resolves_to_rounded_fraction() {
    // 50% of 100 GB is 50 GB.
    let t = Threshold::Percentage { num: 50, den: 100 };
    assert_eq!(resolve(&t, 100_000_000_000), 50_000_000_000);
    // 50% of 5 bytes rounds 2.5 up to 3.
    assert_eq!(resolve(&t, 5), 3);
    // 0% and 100% are the extremes.
    let zero = Threshold::Percentage { num: 0, den: 100 };
    assert_eq!(resolve(&zero, 12345), 0);
    let all = Threshold::Percentage { num: 100, den: 100 };
    assert_eq!(resolve(&all, 12345), 12345);
    // A third of 10 rounds 3.33 to 3.
    let third = Threshold::Percentage { num: 1, den: 3 };
    assert_eq!(resolve(&third, 10), 3);
}

#[test]
fn absolute_resolves_to_itself() {
    let t = Threshold::Absolute(1_000_000_000);
    assert_eq!(resolve(&t, 7), 1_000_000_000);
}

#[test]
fn threshold_parsing() {
    match parse_threshold("10 GB") {
        Ok(Threshold::Absolute(b)) => assert_eq!(b, 10_000_000_000),
        other => panic!("unexpected: {:?}", other.is_ok()),
    }
    match parse_threshold("8 KiB") {
        Ok(Threshold::Absolute(b)) => assert_eq!(b, 8192),
        other => panic!("unexpected: {:?}", other.is_ok()),
    }
    match parse_threshold("80%") {
        Ok(Threshold::Percentage { num, den }) => {
            assert_eq!(num, 80);
            assert_eq!(den, 100);
        }
        other => panic!("unexpected: {:?}", other.is_ok()),
    }
    match parse_threshold("12.5%") {
        Ok(Threshold::Percentage { num, den }) => {
            assert_eq!(num, 125);
            assert_eq!(den, 1000);
        }
        other => panic!("unexpected: {:?}", other.is_ok()),
    }
    match parse_threshold(" 100 %") {
        Ok(Threshold::Percentage { num, den }) => {
            assert_eq!(num, 100);
            assert_eq!(den, 100);
        }
        other => panic!("unexpected: {:?}", other.is_ok()),
    }
    assert_eq!(parse_threshold("nonsense").err(), Some(ConfigError::BadThreshold));
    assert_eq!(parse_threshold("150%").err(), Some(ConfigError::BadThreshold));
    assert_eq!(parse_threshold("%").err(), Some(ConfigError::BadThreshold));
    assert_eq!(parse_threshold("").err(), Some(ConfigError::BadThreshold));
}

#[test]
fn settings_from_config() {
    let s = Settings::from_config("1 GB", Some(vec!["^a".to_string()])).unwrap();
    assert!(matches!(s.threshold, Threshold::Absolute(1_000_000_000)));
    assert!(s.keep.is_some());
    let bare = Settings::from_config("25%", None).unwrap();
    assert!(bare.keep.is_none());
    assert!(matches!(bare.threshold, Threshold::Percentage { num: 25, den: 100 }));
    assert_eq!(
        Settings::from_config("junk", None).err(),
        Some(ConfigError::BadThreshold)
    );
    assert_eq!(
        Settings::from_config("1 GB", Some(vec!["(".to_string()])).err(),
        Some(ConfigError::BadKeepPattern)
    );
}

#[test]
fn keep_patterns() {
    let keep = KeepSpec::new(vec!["^myorg/".to_string()]).unwrap();
    assert!(keep.is_protected(&vec!["myorg/app:v1".to_string()]));
    assert!(!keep.is_protected(&vec!["other/app:v1".to_string()]));
    assert!(!keep.is_protected(&vec![]));
    assert!(keep.is_protected(&vec!["other:1".to_string(), "myorg/x:2".to_string()]));
    assert_eq!(
        KeepSpec::new(vec!["(".to_string()]).err(),
        Some(ConfigError::BadKeepPattern)
    );
}

#[test]
fn touch_creates_and_updates() {
    let mut state = State::initial();
    let id = b"sha256:aaa".to_vec();
    state.touch(&id, 100);
    assert_eq!(state.len(), 1);
    assert_eq!(state.last_used(&id), Some(100));
    // A later touch moves the time forward without a duplicate.
    state.touch(&id, 200);
    assert_eq!(state.len(), 1);
    assert_eq!(state.last_used(&id), Some(200));
    // An earlier touch never moves the time backward.
    state.touch(&id, 150);
    assert_eq!(state.len(), 1);
    assert_eq!(state.last_used(&id), Some(200));
    // A distinct identity adds exactly one entry.
    let other = b"sha256:bbb".to_vec();
    state.touch(&other, 50);
    assert_eq!(state.len(), 2);
    assert_eq!(state.last_used(&other), Some(50));
}

#[test]
fn save_then_load_round_trip() {
    let mut state = State::initial();
    state.touch(&b"sha256:aaa".to_vec(), 100);
    state.touch(&b"sha256:bbb".to_vec(), 200);
    state.touch(&b"sha256:ccc".to_vec(), 300);
    let bytes = docuum::codec::save_bytes(&state);
    let loaded = docuum::codec::load_bytes(&bytes).expect("round trip must load");
    assert_eq!(loaded.len(), 3);
    assert_eq!(loaded.last_used(&b"sha256:aaa".to_vec()), Some(100));
    assert_eq!(loaded.last_used(&b"sha256:bbb".to_vec()), Some(200));
    assert_eq!(loaded.last_used(&b"sha256:ccc".to_vec()), Some(300));
}

#[test]
fn load_tolerates_garbage() {
    assert!(docuum::codec::load_bytes(&vec![1, 2, 3]).is_none());
    let empty = docuum::codec::load_bytes(&Vec::new()).expect("empty file is an empty ledger");
    assert_eq!(empty.len(), 0);
}

#[test]
fn first_run_seeds_untracked_images() {
    let mut state = State::initial();
    let mut first_run = true;
    let snapshot = vec![img("sha256:old", 100, vec![], false)];
    let t = Threshold::Absolute(1_000_000);
    let mut pass = prepare(&mut state, &mut first_run, &snapshot, &t, 0, &None, 5000);
    assert!(!first_run);
    // The pre-existing image now carries the seeding time, not "never used".
    assert_eq!(state.last_used(&b"sha256:old".to_vec()), Some(5000));
    // Under the limit: no deletions.
    assert!(!pass.pending());
    assert_eq!(run_pass(&mut pass, &mut state).len(), 0);
}

#[test]
fn under_limit_deletes_nothing() {
    let mut state = State::initial();
    state.touch(&b"sha256:a".to_vec(), 10);
    let mut first_run = false;
    let snapshot = vec![img("sha256:a", 400, vec![], false)];
    let t = Threshold::Absolute(1000);
    let mut pass = prepare(&mut state, &mut first_run, &snapshot, &t, 0, &None, 99);
    assert!(!pass.pending());
    assert_eq!(run_pass(&mut pass, &mut state).len(), 0);
    // The ledger still tracks the image, unchanged.
    assert_eq!(state.last_used(&b"sha256:a".to_vec()), Some(10));
}

#[test]
fn pruning_drops_vanished_images() {
    let mut state = State::initial();
    state.touch(&b"sha256:gone".to_vec(), 10);
    state.touch(&b"sha256:here".to_vec(), 20);
    let mut first_run = false;
    let snapshot = vec![img("sha256:here", 1, vec![], false)];
    let t = Threshold::Absolute(1000);
    prepare(&mut state, &mut first_run, &snapshot, &t, 0, &None, 99);
    assert_eq!(state.last_used(&b"sha256:gone".to_vec()), None);
    assert_eq!(state.last_used(&b"sha256:here".to_vec()), Some(20));
}

#[test]
fn lru_eviction_stops_at_limit() {
    // Threshold 1 GB; A(600 MB, used at 100), B(600 MB, used at 200),
    // C(200 MB, used at 300). Total 1400 MB: only A, the oldest, goes.
    let mut state = State::initial();
    state.touch(&b"sha256:a".to_vec(), 100);
    state.touch(&b"sha256:b".to_vec(), 200);
    state.touch(&b"sha256:c".to_vec(), 300);
    let mut first_run = false;
    let snapshot = vec![
        img("sha256:c", 200_000_000, vec![], false),
        img("sha256:a", 600_000_000, vec![], false),
        img("sha256:b", 600_000_000, vec![], false),
    ];
    let t = Threshold::Absolute(1_000_000_000);
    let mut pass = prepare(&mut state, &mut first_run, &snapshot, &t, 0, &None, 400);
    let deleted = run_pass(&mut pass, &mut state);
    assert_eq!(deleted, vec![b"sha256:a".to_vec()]);
    assert!(!pass.over_limit());
    // B and C survive, in the engine and in the ledger.
    assert_eq!(state.last_used(&b"sha256:b".to_vec()), Some(200));
    assert_eq!(state.last_used(&b"sha256:c".to_vec()), Some(300));
    assert_eq!(state.last_used(&b"sha256:a".to_vec()), None);
}

#[test]
fn percentage_threshold_drives_eviction() {
    // 50% of 100 GB capacity is 50 GB; usage of 60 GB must shed 10 GB.
    let mut state = State::initial();
    state.touch(&b"sha256:x".to_vec(), 100);
    state.touch(&b"sha256:y".to_vec(), 200);
    let mut first_run = false;
    let snapshot = vec![
        img("sha256:x", 15_000_000_000, vec![], false),
        img("sha256:y", 45_000_000_000, vec![], false),
    ];
    let t = Threshold::Percentage { num: 50, den: 100 };
    let mut pass = prepare(
        &mut state,
        &mut first_run,
        &snapshot,
        &t,
        100_000_000_000,
        &None,
        300,
    );
    assert_eq!(pass.limit, 50_000_000_000);
    let deleted = run_pass(&mut pass, &mut state);
    // The oldest image alone brings usage to 45 GB, under the limit.
    assert_eq!(deleted, vec![b"sha256:x".to_vec()]);
    assert!(!pass.over_limit());
}

#[test]
fn keep_pattern_protects_oldest() {
    // The globally oldest image matches the keep pattern; the next-oldest
    // unprotected image goes instead.
    let mut state = State::initial();
    state.touch(&b"sha256:kept".to_vec(), 100);
    state.touch(&b"sha256:victim".to_vec(), 200);
    state.touch(&b"sha256:fresh".to_vec(), 300);
    let keep = Some(KeepSpec::new(vec!["^myorg/".to_string()]).unwrap());
    let mut first_run = false;
    let snapshot = vec![
        img("sha256:kept", 500, vec!["myorg/app:v1"], false),
        img("sha256:victim", 500, vec!["other/app:v1"], false),
        img("sha256:fresh", 500, vec!["other/app:v2"], false),
    ];
    let t = Threshold::Absolute(1000);
    let mut pass = prepare(&mut state, &mut first_run, &snapshot, &t, 0, &keep, 400);
    let deleted = run_pass(&mut pass, &mut state);
    assert_eq!(deleted, vec![b"sha256:victim".to_vec()]);
    assert!(state.last_used(&b"sha256:kept".to_vec()).is_some());
}

#[test]
fn in_use_by_stopped_container_never_selected() {
    // An image referenced by a stopped container reports in_use and is
    // never a victim, even while usage stays over the threshold.
    let mut state = State::initial();
    state.touch(&b"sha256:busy".to_vec(), 100);
    let mut first_run = false;
    let snapshot = vec![img("sha256:busy", 5000, vec![], true)];
    let t = Threshold::Absolute(1000);
    let mut pass = prepare(&mut state, &mut first_run, &snapshot, &t, 0, &None, 200);
    let deleted = run_pass(&mut pass, &mut state);
    assert_eq!(deleted.len(), 0);
    assert!(pass.over_limit());
    assert!(state.last_used(&b"sha256:busy".to_vec()).is_some());
}

#[test]
fn failed_deletion_skips_to_next_candidate() {
    let mut state = State::initial();
    state.touch(&b"sha256:a".to_vec(), 100);
    state.touch(&b"sha256:b".to_vec(), 200);
    let mut first_run = false;
    let snapshot = vec![
        img("sha256:a", 600, vec![], false),
        img("sha256:b", 600, vec![], false),
    ];
    let t = Threshold::Absolute(1000);
    let mut pass = prepare(&mut state, &mut first_run, &snapshot, &t, 0, &None, 300);
    assert!(pass.pending());
    assert_eq!(pass.current_id(), &b"sha256:a".to_vec());
    // Deleting the oldest fails; the pass moves on to the next one.
    pass.record_failed();
    assert!(pass.pending());
    assert_eq!(pass.current_id(), &b"sha256:b".to_vec());
    pass.record_deleted(&mut state);
    assert!(!pass.pending());
    assert!(!pass.over_limit());
    // The failed victim keeps its ledger entry.
    assert_eq!(state.last_used(&b"sha256:a".to_vec()), Some(100));
    assert_eq!(state.last_used(&b"sha256:b".to_vec()), None);
}

#[test]
fn untracked_image_sorts_oldest() {
    // An image with no ledger entry is treated as never used and goes
    // first, before a very old tracked one.
    let mut state = State::initial();
    state.touch(&b"sha256:ancient".to_vec(), 1);
    let mut first_run = false;
    let snapshot = vec![
        img("sha256:ancient", 600, vec![], false),
        img("sha256:unknown", 600, vec![], false),
    ];
    let t = Threshold::Absolute(1000);
    // Not a first run, so the unknown image is not seeded.
    let mut pass = prepare(&mut state, &mut first_run, &snapshot, &t, 0, &None, 500);
    let deleted = run_pass(&mut pass, &mut state);
    assert_eq!(deleted, vec![b"sha256:unknown".to_vec()]);
}

#[test]
fn total_usage_sums_sizes() {
    let snapshot = vec![
        img("sha256:a", 600_000_000, vec![], false),
        img("sha256:b", 600_000_000, vec![], false),
        img("sha256:c", 200_000_000, vec![], false),
    ];
    assert_eq!(sum_sizes(&snapshot), 1_400_000_000);
}

#[test]
fn container_start_event_touches_ledger() {
    let mut state = State::initial();
    let touched = process_event(
        &mut state,
        &Event::ContainerStarted(b"sha256:img".to_vec()),
        777,
    );
    assert!(touched);
    assert_eq!(state.last_used(&b"sha256:img".to_vec()), Some(777));
    let untouched = process_event(&mut state, &Event::Other, 888);
    assert!(!untouched);
    assert_eq!(state.last_used(&b"sha256:img".to_vec()), Some(777));
    assert_eq!(state.len(), 1);
}

#[test]
fn oversized_absolute_threshold_is_rejected() {
    // A size beyond the 64-bit byte range is a configuration error.
    assert_eq!(
        parse_threshold("123456789 EB").err(),
        Some(ConfigError::BadThreshold)
    );
}

#[test]
fn equal_last_used_times_still_reach_the_limit() {
    // Two victims with the same last-used time: the tie is broken either
    // way, and the pass still deletes until usage is under the limit.
    let mut state = State::initial();
    state.touch(&b"sha256:p".to_vec(), 100);
    state.touch(&b"sha256:q".to_vec(), 100);
    let mut first_run = false;
    let snapshot = vec![
        img("sha256:p", 600, vec![], false),
        img("sha256:q", 600, vec![], false),
    ];
    let t = Threshold::Absolute(100);
    let mut pass = prepare(&mut state, &mut first_run, &snapshot, &t, 0, &None, 200);
    let deleted = run_pass(&mut pass, &mut state);
    assert_eq!(deleted.len(), 2);
    assert!(!pass.over_limit());
}

#[test]
fn zero_percent_evicts_all_eligible() {
    let mut state = State::initial();
    state.touch(&b"sha256:a".to_vec(), 1);
    let mut first_run = false;
    let snapshot = vec![img("sha256:a", 10, vec![], false)];
    let t = Threshold::Percentage { num: 0, den: 100 };
    let mut pass = prepare(&mut state, &mut first_run, &snapshot, &t, 1000, &None, 2);
    assert_eq!(pass.limit, 0);
    let deleted = run_pass(&mut pass, &mut state);
    assert_eq!(deleted, vec![b"sha256:a".to_vec()]);
}
