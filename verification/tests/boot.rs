use adp::boot::{BootStep, BootWait, ATTEMPTS, INTERVAL_SECS, PROPERTIES};

/// Runs a wait against answers given by `answer`, which gets the name of the
/// property and the number of polls made before; returns the last step, the
/// number of polls and the seconds that were to pass.
fn run(answer: impl Fn(&str, usize) -> String) -> (BootWait, BootStep, usize, u64) {
    let (mut state, mut step) = BootWait::start();
    let mut polls = 0;
    let mut waited = 0;
    loop {
        match step {
            BootStep::Poll { prop, delay_secs } => {
                waited += delay_secs;
                let value = answer(prop, polls);
                polls += 1;
                let next = state.observe(&value);
                state = next.0;
                step = next.1;
            }
            other => return (state, other, polls, waited),
        }
        assert!(polls <= PROPERTIES * ATTEMPTS as usize);
    }
}

fn booted(prop: &str) -> String {
    match prop {
        "init.svc.bootanim" => "stopped".to_string(),
        "sys.boot_completed" => "1".to_string(),
        other => panic!("unexpected property {}", other),
    }
}

#[test]
fn ready_without_retry_when_both_properties_match() {
    let (state, step, polls, waited) = run(|prop, _| booted(prop));

    assert_eq!(state, BootWait::Ready);
    assert!(matches!(step, BootStep::Ready));
    assert_eq!(polls, 2);
    assert_eq!(waited, 0);
}

#[test]
fn starts_with_the_boot_animation() {
    let (state, step) = BootWait::start();

    assert_eq!(state, BootWait::Polling { index: 0, attempts: 0 });
    match step {
        BootStep::Poll { prop, delay_secs } => {
            assert_eq!(prop, "init.svc.bootanim");
            assert_eq!(delay_secs, 0);
        }
        other => panic!("unexpected step {:?}", other),
    }
}

#[test]
fn moves_on_to_boot_completed() {
    let (state, _) = BootWait::start();

    let (state, step) = state.observe("stopped");

    assert_eq!(state, BootWait::Polling { index: 1, attempts: 0 });
    match step {
        BootStep::Poll { prop, delay_secs } => {
            assert_eq!(prop, "sys.boot_completed");
            assert_eq!(delay_secs, 0);
        }
        other => panic!("unexpected step {:?}", other),
    }
}

#[test]
fn retries_after_the_interval() {
    let (state, _) = BootWait::start();

    let (state, step) = state.observe("running");

    assert_eq!(state, BootWait::Polling { index: 0, attempts: 1 });
    match step {
        BootStep::Poll { prop, delay_secs } => {
            assert_eq!(prop, "init.svc.bootanim");
            assert_eq!(delay_secs, INTERVAL_SECS);
            assert_eq!(delay_secs, 1);
        }
        other => panic!("unexpected step {:?}", other),
    }
}

#[test]
fn ready_when_the_sixtieth_answer_matches() {
    let (state, step, polls, waited) =
        run(|prop, polls| if polls < 59 { "running".to_string() } else { booted(prop) });

    assert_eq!(state, BootWait::Ready);
    assert!(matches!(step, BootStep::Ready));
    assert_eq!(polls, 61);
    assert_eq!(waited, 59);
}

#[test]
fn times_out_after_sixty_wrong_answers() {
    let (state, step, polls, waited) = run(|_, _| "running".to_string());

    assert_eq!(ATTEMPTS, 60);
    assert_eq!(state, BootWait::TimedOut { index: 0 });
    assert_eq!(polls, 60);
    assert_eq!(waited, 59);
    match step {
        BootStep::TimedOut(timeout) => {
            assert_eq!(timeout.prop, "init.svc.bootanim");
            assert_eq!(timeout.expected, "stopped");
            assert_eq!(timeout.observed, "running");
        }
        other => panic!("unexpected step {:?}", other),
    }
}

#[test]
fn times_out_on_the_second_property() {
    let (state, step, polls, _) = run(|prop, _| {
        if prop == "init.svc.bootanim" {
            "stopped".to_string()
        } else {
            "0".to_string()
        }
    });

    assert_eq!(state, BootWait::TimedOut { index: 1 });
    assert_eq!(polls, 61);
    match step {
        BootStep::TimedOut(timeout) => {
            assert_eq!(timeout.prop, "sys.boot_completed");
            assert_eq!(timeout.expected, "1");
            assert_eq!(timeout.observed, "0");
        }
        other => panic!("unexpected step {:?}", other),
    }
}

#[test]
fn a_finished_wait_stays_finished() {
    let (state, step) = BootWait::Ready.observe("anything");
    assert_eq!(state, BootWait::Ready);
    assert!(matches!(step, BootStep::Ready));

    let (state, step) = BootWait::TimedOut { index: 1 }.observe("0");
    assert_eq!(state, BootWait::TimedOut { index: 1 });
    assert!(matches!(step, BootStep::TimedOut(_)));
}

#[test]
fn a_state_that_polls_no_property_ends_without_success() {
    let (state, step) = BootWait::Polling { index: 2, attempts: 0 }.observe("1");

    assert_eq!(state, BootWait::TimedOut { index: 2 });
    assert!(matches!(step, BootStep::TimedOut(_)));
}

#[test]
fn a_match_on_the_last_attempt_still_counts() {
    let (state, _) = BootWait::Polling { index: 1, attempts: 59 }.observe("1");
    assert_eq!(state, BootWait::Ready);

    let (state, _) = BootWait::Polling { index: 0, attempts: 58 }.observe("running");
    assert_eq!(state, BootWait::Polling { index: 0, attempts: 59 });

    let (state, _) = BootWait::Polling { index: 0, attempts: 59 }.observe("running");
    assert_eq!(state, BootWait::TimedOut { index: 0 });
}
