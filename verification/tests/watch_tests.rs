use slate::watch::{
    debounce_step, is_calendar_path, is_interesting, Debounce, FsChange, FsEvent, WatchAction, WatchInput,
};

#[test]
fn ignores_our_own_temp_files() {
    assert!(!is_calendar_path("/c/personal/.abc.ics.tmp"));
    assert!(is_calendar_path("/c/personal/abc.ics"));
}

#[test]
fn watches_metadata_files() {
    assert!(is_calendar_path("/c/personal/displayname"));
    assert!(is_calendar_path("/c/personal/color"));
}

#[test]
fn ignores_unrelated_files() {
    assert!(!is_calendar_path("/c/personal/notes.txt"));
    assert!(!is_calendar_path("/c/personal/photo.png"));
}

#[test]
fn a_collection_directory_counts() {
    assert!(is_calendar_path("/c/work"));
    assert!(!is_calendar_path("/"));
}

#[test]
fn only_changes_to_calendar_data_are_interesting() {
    let ev = |kind, paths: &[&str]| FsEvent { kind, paths: paths.iter().map(|p| p.to_string()).collect() };
    assert!(is_interesting(&Ok(ev(FsChange::Modify, &["/c/p/a.txt", "/c/p/b.ics"]))));
    assert!(!is_interesting(&Ok(ev(FsChange::Other, &["/c/p/b.ics"]))));
    assert!(!is_interesting(&Ok(ev(FsChange::Create, &["/c/p/.b.ics.tmp"]))));
    assert!(!is_interesting(&Err("watch failed".to_string())));
    assert!(is_interesting(&Ok(ev(FsChange::Remove, &["/c/p/color"]))));
}

#[test]
fn fires_once_for_a_burst_of_writes() {
    let mut state = Debounce::Idle;
    let mut rescans = 0;
    let mut inputs: Vec<WatchInput> = (0..10).map(|i| WatchInput::Change(true, 1_000 + i * 50)).collect();
    inputs.push(WatchInput::Quiet);
    for input in inputs {
        let (next, action) = debounce_step(state, input);
        if action == WatchAction::Rescan {
            rescans += 1;
        }
        state = next;
    }
    assert_eq!(rescans, 1, "burst was not coalesced into one signal");
    assert_eq!(state, Debounce::Idle);
}

#[test]
fn noise_does_not_start_a_burst_and_a_long_stream_still_rescans() {
    assert_eq!(debounce_step(Debounce::Idle, WatchInput::Change(false, 5)), (Debounce::Idle, WatchAction::WaitForChange));
    assert_eq!(debounce_step(Debounce::Idle, WatchInput::Change(true, 5)), (Debounce::Settling(5), WatchAction::WaitQuiet));
    assert_eq!(debounce_step(Debounce::Settling(5), WatchInput::Change(false, 3004)), (Debounce::Settling(5), WatchAction::WaitQuiet));
    assert_eq!(debounce_step(Debounce::Settling(5), WatchInput::Change(false, 3005)), (Debounce::Idle, WatchAction::Rescan));
    assert_eq!(debounce_step(Debounce::Settling(5), WatchInput::Closed), (Debounce::Idle, WatchAction::Stop));
}
