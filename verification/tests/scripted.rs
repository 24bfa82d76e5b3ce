use race_select::{Computation, Poll, ScriptedComputation};

#[test]
fn counts_down_and_completes() {
    let mut c: ScriptedComputation<u32, &'static str> = ScriptedComputation::new(7, 2, Ok(99));
    assert_eq!(c.tag(), 7);
    assert!(matches!(c.poll(), Poll::Pending));
    assert!(matches!(c.poll(), Poll::Pending));
    match c.poll() {
        Poll::Completed(value) => assert_eq!(value, 99),
        _ => panic!("expected completion after the scheduled delay"),
    }
}

#[test]
fn counts_down_and_fails() {
    let mut c: ScriptedComputation<u32, &'static str> = ScriptedComputation::new(8, 1, Err("nope"));
    assert!(matches!(c.poll(), Poll::Pending));
    match c.poll() {
        Poll::Failed(error) => assert_eq!(error, "nope"),
        _ => panic!("expected failure after the scheduled delay"),
    }
}

#[test]
fn tag_survives_polling() {
    let mut c: ScriptedComputation<u32, &'static str> = ScriptedComputation::new(3, 1, Ok(1));
    assert!(matches!(c.poll(), Poll::Pending));
    assert_eq!(c.tag(), 3);
}
