use race_select::{select_all, AllPoll, ScriptedComputation};

fn tags_of(rest: &Vec<ScriptedComputation<u32, &'static str>>) -> Vec<u64> {
    let mut tags = Vec::new();
    for item in rest {
        tags.push(item.tag());
    }
    tags
}

#[test]
fn sole_ready_item_reports_its_index() {
    // Four computations; only item 2 is ready on the first drive call.
    let items = vec![
        ScriptedComputation::new(0, 9, Ok(10u32)),
        ScriptedComputation::new(1, 9, Ok(11u32)),
        ScriptedComputation::new(2, 0, Ok(12u32)),
        ScriptedComputation::new(3, 9, Ok(13u32)),
    ];
    let mut race = select_all(items);
    match race.poll() {
        AllPoll::Completed(value, index, rest) => {
            assert_eq!(value, 12);
            assert_eq!(index, 2);
            assert_eq!(tags_of(&rest), vec![0, 1, 3]);
        }
        _ => panic!("expected resolution on the first drive call"),
    }
}

#[test]
fn sole_failing_item_reports_its_index() {
    let items = vec![
        ScriptedComputation::new(0, 5, Ok(10u32)),
        ScriptedComputation::new(1, 0, Err("boom")),
        ScriptedComputation::new(2, 5, Ok(12u32)),
    ];
    let mut race = select_all(items);
    match race.poll() {
        AllPoll::Failed(error, index, rest) => {
            assert_eq!(error, "boom");
            assert_eq!(index, 1);
            assert_eq!(tags_of(&rest), vec![0, 2]);
        }
        _ => panic!("expected a failure resolution on the first drive call"),
    }
}

#[test]
fn tie_break_selects_lower_index() {
    // Items 1 and 3 both become ready on the same drive call: the
    // lower-indexed one is reported and the other stays un-drained.
    let items = vec![
        ScriptedComputation::new(0, 9, Ok(10u32)),
        ScriptedComputation::new(1, 0, Ok(11u32)),
        ScriptedComputation::new(2, 9, Ok(12u32)),
        ScriptedComputation::new(3, 0, Ok(13u32)),
    ];
    let mut race = select_all(items);
    match race.poll() {
        AllPoll::Completed(value, index, rest) => {
            assert_eq!(value, 11);
            assert_eq!(index, 1);
            assert_eq!(tags_of(&rest), vec![0, 2, 3]);
            // The losing ready item is handed back still pending from the
            // combinator's point of view; racing the remainder drains it.
            let mut rematch = select_all(rest);
            match rematch.poll() {
                AllPoll::Completed(value, index, _) => {
                    assert_eq!(value, 13);
                    assert_eq!(index, 2);
                }
                _ => panic!("expected the un-drained item to resolve"),
            }
        }
        _ => panic!("expected resolution on the first drive call"),
    }
}

#[test]
fn not_ready_leaves_the_set_unchanged() {
    // Nothing is terminal on the first call; the set is intact, so the
    // second call still resolves at the original index.
    let items = vec![
        ScriptedComputation::new(0, 3, Ok(10u32)),
        ScriptedComputation::new(1, 1, Err("late")),
        ScriptedComputation::new(2, 3, Ok(12u32)),
    ];
    let mut race = select_all(items);
    assert!(matches!(race.poll(), AllPoll::NotReady));
    match race.poll() {
        AllPoll::Failed(error, index, rest) => {
            assert_eq!(error, "late");
            assert_eq!(index, 1);
            assert_eq!(tags_of(&rest), vec![0, 2]);
        }
        _ => panic!("expected resolution on the second drive call"),
    }
}

#[test]
fn resolves_exactly_once() {
    let items = vec![
        ScriptedComputation::new(0, 0, Ok(10u32)),
        ScriptedComputation::new(1, 9, Ok(11u32)),
    ];
    let mut race = select_all(items);
    let rest = match race.poll() {
        AllPoll::Completed(value, index, rest) => {
            assert_eq!(value, 10);
            assert_eq!(index, 0);
            rest
        }
        _ => panic!("expected resolution on the first drive call"),
    };
    // The pending set was moved out; re-driving the combinator is not
    // required, reports not-ready, and cannot touch the moved sequence.
    assert!(matches!(race.poll(), AllPoll::NotReady));
    assert!(matches!(race.poll(), AllPoll::NotReady));
    assert_eq!(tags_of(&rest), vec![1]);
}
