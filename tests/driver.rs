use push_pull_solver::{RunAction, RunDriver};

#[test]
fn a_step_that_did_work_is_replaced() {
    let mut driver: RunDriver<&str> = RunDriver::new(2);
    assert!(matches!(driver.step_finished(Ok(true)), RunAction::Launch));
    assert!(matches!(driver.step_finished(Ok(true)), RunAction::Launch));
}

#[test]
fn no_work_drains_the_steps_in_flight() {
    let mut driver: RunDriver<&str> = RunDriver::new(3);
    assert!(matches!(driver.step_finished(Ok(false)), RunAction::Wait));
    assert!(matches!(driver.step_finished(Ok(true)), RunAction::Wait));
    assert!(matches!(driver.step_finished(Ok(false)), RunAction::Finish(Ok(()))));
}

#[test]
fn a_single_step_run_finishes_when_it_finds_no_work() {
    let mut driver: RunDriver<&str> = RunDriver::new(1);
    assert!(matches!(driver.step_finished(Ok(true)), RunAction::Launch));
    assert!(matches!(driver.step_finished(Ok(false)), RunAction::Finish(Ok(()))));
}

#[test]
fn the_first_failure_is_returned_after_draining() {
    let mut driver: RunDriver<&str> = RunDriver::new(3);
    assert!(matches!(driver.step_finished(Err("first")), RunAction::Wait));
    assert!(matches!(driver.step_finished(Err("second")), RunAction::Wait));
    match driver.step_finished(Ok(true)) {
        RunAction::Finish(r) => assert_eq!(r, Err("first")),
        _ => panic!("the run should be over"),
    }
}

#[test]
fn a_failure_stops_replacing_steps() {
    let mut driver: RunDriver<u32> = RunDriver::new(2);
    assert!(matches!(driver.step_finished(Ok(true)), RunAction::Launch));
    assert!(matches!(driver.step_finished(Err(7)), RunAction::Wait));
    match driver.step_finished(Ok(false)) {
        RunAction::Finish(r) => assert_eq!(r, Err(7)),
        _ => panic!("the run should be over"),
    }
}
