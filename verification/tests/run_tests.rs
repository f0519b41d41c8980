use doomsayer::codec::{decode_state, encode_state};
use doomsayer::run::{
    begin_run, finish_run, initial_state, plan_post, Action, Disposition, LoadResult, RunEvent,
    RunStart,
};
use doomsayer::state::State;

#[test]
fn absent_state_triggers_registration_and_no_post() {
    let start = begin_run(LoadResult::NotFound);
    assert!(matches!(start, RunStart::Register));
    let fresh = initial_state(b"issued-token".to_vec());
    assert_eq!(fresh.last_successful_index, None);
    assert_eq!(fresh.credential, b"issued-token".to_vec());
}

#[test]
fn unreadable_state_aborts() {
    assert!(matches!(begin_run(LoadResult::Unreadable), RunStart::Abort));
}

#[test]
fn loaded_state_proceeds_unchanged() {
    let s = State { credential: b"tok".to_vec(), last_successful_index: Some(4) };
    match begin_run(LoadResult::Loaded(s)) {
        RunStart::Proceed(inner) => {
            assert_eq!(inner.credential, b"tok".to_vec());
            assert_eq!(inner.last_successful_index, Some(4));
        },
        _ => panic!("a loaded record must proceed to the posting step"),
    }
}

#[test]
fn first_run_posts_line_zero() {
    let s = State { credential: b"tok".to_vec(), last_successful_index: None };
    let lines = vec!["a".to_string()];
    match plan_post(&s, &lines) {
        Action::Publish { index, text } => {
            assert_eq!(index, 0);
            assert_eq!(text, "a");
        },
        Action::OutOfContent => panic!("a line was available to post"),
    }
    match finish_run(s, RunEvent::Delivered { index: 0 }) {
        Disposition::Save(s2) => assert_eq!(s2.last_successful_index, Some(0)),
        Disposition::Fatal => panic!("a delivered post must be persisted"),
    }
}

#[test]
fn exhausted_content_keeps_the_index() {
    let s = State { credential: b"tok".to_vec(), last_successful_index: Some(1) };
    let lines = vec!["a".to_string(), "b".to_string()];
    assert!(matches!(plan_post(&s, &lines), Action::OutOfContent));
    match finish_run(s, RunEvent::NoContent) {
        Disposition::Save(s2) => {
            assert_eq!(s2.last_successful_index, Some(1));
            assert_eq!(s2.credential, b"tok".to_vec());
        },
        Disposition::Fatal => panic!("exhausted content is a benign outcome"),
    }
}

#[test]
fn blank_line_is_a_valid_payload() {
    let s = State { credential: b"tok".to_vec(), last_successful_index: Some(0) };
    let lines = vec!["a".to_string(), "".to_string()];
    match plan_post(&s, &lines) {
        Action::Publish { index, text } => {
            assert_eq!(index, 1);
            assert_eq!(text, "");
        },
        Action::OutOfContent => panic!("the blank line was available to post"),
    }
}

#[test]
fn failed_post_leaves_the_stored_record_alone() {
    let s = State { credential: b"tok".to_vec(), last_successful_index: Some(2) };
    let disk_before = encode_state(&s);
    let lines = vec!["a", "b", "c", "d"].into_iter().map(String::from).collect::<Vec<_>>();
    assert!(matches!(plan_post(&s, &lines), Action::Publish { index: 3, .. }));
    // The submission fails: the run ends fatally and nothing directs a write,
    // so the file keeps its previous bytes.
    assert!(matches!(finish_run(s, RunEvent::DeliveryFailed), Disposition::Fatal));
    let disk_after = disk_before.clone();
    let back = decode_state(&disk_after).unwrap();
    assert_eq!(back.last_successful_index, Some(2));
}

#[test]
fn three_runs_post_every_line_then_rest() {
    let lines = vec!["a".to_string(), "b".to_string(), "c".to_string()];
    // First run against an absent state file: register, persist, do not post.
    assert!(matches!(begin_run(LoadResult::NotFound), RunStart::Register));
    let fresh = initial_state(b"issued-token".to_vec());
    let mut disk = encode_state(&fresh);

    let expected = ["a", "b", "c"];
    for (want_index, want_text) in expected.iter().enumerate() {
        let loaded = decode_state(&disk).unwrap();
        let state = match begin_run(LoadResult::Loaded(loaded)) {
            RunStart::Proceed(s) => s,
            _ => panic!("a loaded record must proceed to the posting step"),
        };
        let (index, text) = match plan_post(&state, &lines) {
            Action::Publish { index, text } => (index, text),
            Action::OutOfContent => panic!("a line was available to post"),
        };
        assert_eq!(index, want_index);
        assert_eq!(&text, want_text);
        match finish_run(state, RunEvent::Delivered { index }) {
            Disposition::Save(s2) => {
                assert_eq!(s2.last_successful_index, Some(want_index));
                disk = encode_state(&s2);
            },
            Disposition::Fatal => panic!("a delivered post must be persisted"),
        }
    }

    // Fourth run: out of content, the record is rewritten value-equal.
    let loaded = decode_state(&disk).unwrap();
    assert_eq!(loaded.last_successful_index, Some(2));
    assert!(matches!(plan_post(&loaded, &lines), Action::OutOfContent));
    match finish_run(loaded, RunEvent::NoContent) {
        Disposition::Save(s2) => {
            assert_eq!(s2.last_successful_index, Some(2));
            disk = encode_state(&s2);
        },
        Disposition::Fatal => panic!("exhausted content is a benign outcome"),
    }
    let settled = decode_state(&disk).unwrap();
    assert_eq!(settled.last_successful_index, Some(2));
}
