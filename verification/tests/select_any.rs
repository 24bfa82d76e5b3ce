use race_select::{select_any, AnyPoll, ScriptedComputation};

fn tags_of(rest: &Vec<ScriptedComputation<u32, &'static str>>) -> Vec<u64> {
    let mut tags = Vec::new();
    for item in rest {
        tags.push(item.tag());
    }
    tags
}

#[test]
fn failures_are_skipped_within_one_drive_call() {
    // Items 0 and 1 fail and item 2 succeeds, all within one drive call:
    // the success is reported, the failures are consumed, and the
    // remainder holds the other two items.
    let items = vec![
        ScriptedComputation::new(0, 0, Err("first")),
        ScriptedComputation::new(1, 0, Err("second")),
        ScriptedComputation::new(2, 0, Ok(22u32)),
        ScriptedComputation::new(3, 9, Ok(23u32)),
        ScriptedComputation::new(4, 9, Ok(24u32)),
    ];
    let mut race = select_any(items);
    match race.poll() {
        AnyPoll::Completed(value, rest) => {
            assert_eq!(value, 22);
            assert_eq!(rest.len(), 2);
            assert_eq!(tags_of(&rest), vec![3, 4]);
        }
        _ => panic!("expected a success on the first drive call"),
    }
}

#[test]
fn all_failing_surfaces_the_last_failure() {
    // Every item fails within one drive call: the final result is the
    // last failure observed, and no remaining sequence is produced.
    let items = vec![
        ScriptedComputation::new(0, 0, Err::<u32, _>("first")),
        ScriptedComputation::new(1, 0, Err("second")),
        ScriptedComputation::new(2, 0, Err("third")),
    ];
    let mut race = select_any(items);
    match race.poll() {
        AnyPoll::Failed(error) => assert_eq!(error, "third"),
        _ => panic!("expected total failure on the first drive call"),
    }
}

#[test]
fn all_failing_across_several_drive_calls() {
    let items = vec![
        ScriptedComputation::new(0, 0, Err::<u32, _>("early")),
        ScriptedComputation::new(1, 1, Err("late")),
    ];
    let mut race = select_any(items);
    // Item 0 fails and is consumed; item 1 is still pending, so the set
    // is not yet exhausted and the combinator reports not-ready.
    assert!(matches!(race.poll(), AnyPoll::NotReady));
    match race.poll() {
        AnyPoll::Failed(error) => assert_eq!(error, "late"),
        _ => panic!("expected total failure on the second drive call"),
    }
}

#[test]
fn success_after_earlier_failures() {
    let items = vec![
        ScriptedComputation::new(0, 0, Err("lost")),
        ScriptedComputation::new(1, 1, Ok(31u32)),
        ScriptedComputation::new(2, 9, Ok(32u32)),
    ];
    let mut race = select_any(items);
    assert!(matches!(race.poll(), AnyPoll::NotReady));
    match race.poll() {
        AnyPoll::Completed(value, rest) => {
            assert_eq!(value, 31);
            assert_eq!(tags_of(&rest), vec![2]);
        }
        _ => panic!("expected a success on the second drive call"),
    }
}

#[test]
fn tie_break_prefers_lower_index_success() {
    let items = vec![
        ScriptedComputation::new(0, 9, Ok(40u32)),
        ScriptedComputation::new(1, 0, Ok(41u32)),
        ScriptedComputation::new(2, 0, Ok(42u32)),
    ];
    let mut race = select_any(items);
    match race.poll() {
        AnyPoll::Completed(value, rest) => {
            assert_eq!(value, 41);
            assert_eq!(tags_of(&rest), vec![0, 2]);
        }
        _ => panic!("expected a success on the first drive call"),
    }
}

#[test]
fn resolves_exactly_once_after_success() {
    let items = vec![
        ScriptedComputation::new(0, 0, Ok(50u32)),
        ScriptedComputation::new(1, 9, Ok(51u32)),
    ];
    let mut race = select_any(items);
    let rest = match race.poll() {
        AnyPoll::Completed(value, rest) => {
            assert_eq!(value, 50);
            rest
        }
        _ => panic!("expected a success on the first drive call"),
    };
    // The pending set was moved out; re-driving the combinator is not
    // required, reports not-ready, and cannot touch the moved sequence.
    assert!(matches!(race.poll(), AnyPoll::NotReady));
    assert!(matches!(race.poll(), AnyPoll::NotReady));
    assert_eq!(tags_of(&rest), vec![1]);
}

#[test]
fn not_ready_when_nothing_is_terminal() {
    let items = vec![
        ScriptedComputation::new(0, 2, Ok(60u32)),
        ScriptedComputation::new(1, 2, Err("slow")),
    ];
    let mut race = select_any(items);
    assert!(matches!(race.poll(), AnyPoll::NotReady));
    assert!(matches!(race.poll(), AnyPoll::NotReady));
    match race.poll() {
        AnyPoll::Completed(value, rest) => {
            assert_eq!(value, 60);
            assert_eq!(tags_of(&rest), vec![1]);
        }
        _ => panic!("expected a success on the third drive call"),
    }
}
