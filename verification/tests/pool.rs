use adp::format::ReadError;
use adp::lockfile::LockFileEntries;
use adp::pool::{
    claim_pass, release as release_slot, settle_pass, stale, try_acquire, ClaimError,
};
use adp::runtime::{Pid, Runtime, Serial};

#[derive(Debug, Clone, Default)]
struct FakeRuntime {
    devices: Vec<Serial>,
    processes: Vec<Pid>,
    failing: bool,
}

impl FakeRuntime {
    fn with_devices(devices: &[&str]) -> FakeRuntime {
        FakeRuntime {
            devices: devices.iter().map(|d| d.to_string()).collect(),
            processes: vec![],
            failing: false,
        }
    }

    fn processes(mut self, processes: Vec<Pid>) -> FakeRuntime {
        self.processes = processes;
        self
    }

    fn failing(mut self) -> FakeRuntime {
        self.failing = true;
        self
    }
}

impl Runtime for FakeRuntime {
    type Error = String;

    fn devices(&self) -> Result<Vec<Serial>, String> {
        Ok(self.devices.clone())
    }

    fn wait_for_boot(&self, _serial: &Serial) -> Result<(), String> {
        Ok(())
    }

    fn is_running(&self, pid: Pid) -> Result<bool, String> {
        if self.failing {
            Err(format!("cannot tell whether {} is running", pid))
        } else {
            Ok(self.processes.contains(&pid))
        }
    }
}

/// One pass over the text of a ledger; gives the serial, the number of free
/// slots before the claim, and the text of the ledger afterwards.
fn pass(runtime: &FakeRuntime, text: &str, pid: Pid) -> (Option<Serial>, usize, String) {
    let serials = runtime.devices().unwrap();
    let claim = try_acquire(runtime, text.as_bytes(), &serials, pid).unwrap();
    assert_eq!(claim.serial.is_some(), claim.ledger.is_some());
    let after = match claim.ledger {
        Some(ledger) => String::from_utf8(ledger).unwrap(),
        None => text.to_string(),
    };
    (claim.serial, claim.available, after)
}

fn release(text: &str, serial: &str) -> String {
    String::from_utf8(release_slot(text.as_bytes(), serial.to_string()).unwrap()).unwrap()
}

#[test]
fn claims_the_only_device_of_an_empty_ledger() {
    let runtime = FakeRuntime::with_devices(&["serial1"]);

    let (serial, available, text) = pass(&runtime, "", 1);

    assert_eq!(serial, Some("serial1".to_string()));
    assert_eq!(available, 1);
    assert_eq!(text, "serial1:1\n");
    assert_eq!(release(&text, "serial1"), "serial1\n");
}

#[test]
fn second_process_finds_nothing_until_the_first_releases() {
    let runtime = FakeRuntime::with_devices(&["d1"]).processes(vec![1]);

    let (first, _, text) = pass(&runtime, "", 1);
    assert_eq!(first, Some("d1".to_string()));
    assert_eq!(text, "d1:1\n");

    let (second, available, unchanged) = pass(&runtime, &text, 2);
    assert_eq!(second, None);
    assert_eq!(available, 0);
    assert_eq!(unchanged, "d1:1\n");

    let text = release(&text, "d1");
    assert_eq!(text, "d1\n");

    let (second, available, text) = pass(&runtime, &text, 2);
    assert_eq!(second, Some("d1".to_string()));
    assert_eq!(available, 1);
    assert_eq!(text, "d1:2\n");
}

#[test]
fn reclaims_the_slot_of_a_dead_holder() {
    let runtime = FakeRuntime::with_devices(&["d1"]);

    let (serial, available, text) = pass(&runtime, "d1:999\n", 42);

    assert_eq!(serial, Some("d1".to_string()));
    assert_eq!(available, 1);
    assert_eq!(text, "d1:42\n");
}

#[test]
fn keeps_the_slot_of_a_living_holder() {
    let runtime = FakeRuntime::with_devices(&["d1"]).processes(vec![999]);

    let (serial, available, text) = pass(&runtime, "d1:999\n", 42);

    assert_eq!(serial, None);
    assert_eq!(available, 0);
    assert_eq!(text, "d1:999\n");
}

#[test]
fn two_processes_get_two_devices() {
    let runtime = FakeRuntime::with_devices(&["d1", "d2"]).processes(vec![1, 2]);

    let (first, available, text) = pass(&runtime, "d1\nd2\n", 1);
    assert_eq!(first, Some("d1".to_string()));
    assert_eq!(available, 2);
    let (second, available, text) = pass(&runtime, &text, 2);
    assert_eq!(second, Some("d2".to_string()));
    assert_eq!(available, 1);
    assert_eq!(text, "d1:1\nd2:2\n");

    let text = release(&text, "d1");
    let text = release(&text, "d2");
    assert_eq!(text, "d1\nd2\n");
}

#[test]
fn takes_the_device_that_is_still_attached() {
    let runtime = FakeRuntime::with_devices(&["serial2"]);

    let (serial, available, text) = pass(&runtime, "serial1\nserial2\n", 1);

    assert_eq!(serial, Some("serial2".to_string()));
    assert_eq!(available, 1);
    assert_eq!(text, "serial2:1\n");
    assert_eq!(release(&text, "serial2"), "serial2\n");
}

#[test]
fn process_that_is_no_longer_running_loses_its_slot() {
    let runtime = FakeRuntime::with_devices(&["serial1"]);

    let (serial, _, text) = pass(&runtime, "serial1:1\n", 2);

    assert_eq!(serial, Some("serial1".to_string()));
    assert_eq!(text, "serial1:2\n");
}

#[test]
fn releases_every_dead_holder_and_claims_the_first() {
    let runtime = FakeRuntime::with_devices(&["a", "b", "c"]).processes(vec![7]);

    let (serial, available, text) = pass(&runtime, "a:7\nb:8\nc:9\n", 1);

    assert_eq!(serial, Some("b".to_string()));
    assert_eq!(available, 2);
    assert_eq!(text, "a:7\nb:1\nc\n");
}

#[test]
fn does_not_ask_the_oracle_while_a_slot_is_free() {
    let runtime = FakeRuntime::with_devices(&["a", "b"]).failing();

    let (serial, available, text) = pass(&runtime, "a:5\n", 1);

    assert_eq!(serial, Some("b".to_string()));
    assert_eq!(available, 1);
    assert_eq!(text, "a:5\nb:1\n");
}

#[test]
fn oracle_failure_ends_the_pass_without_a_claim() {
    let runtime = FakeRuntime::with_devices(&["a", "b"]).failing();
    let mut entries = LockFileEntries::read("a:5\nb:6\nc:7\n".as_bytes()).unwrap();
    let serials = runtime.devices().unwrap();

    let result = claim_pass(&runtime, &mut entries, &serials, 1);

    assert_eq!(result.err(), Some("cannot tell whether 5 is running".to_string()));
    assert_eq!(entries.to_string(), "a:5,b:6");
}

#[test]
fn stale_picks_the_slots_with_dead_holders() {
    let held = vec![("a".to_string(), 1), ("b".to_string(), 2), ("c".to_string(), 3)];

    assert_eq!(stale(&held, &vec![true, false, false]), vec!["b".to_string(), "c".to_string()]);
    assert_eq!(stale(&held, &vec![true, true, true]), Vec::<String>::new());
    assert_eq!(stale(&held, &vec![false]), vec!["a".to_string()]);
    assert_eq!(stale(&held, &vec![]), Vec::<String>::new());
}

#[test]
fn a_pass_on_the_ledger_itself_agrees_with_a_pass_on_its_text() {
    let runtime = FakeRuntime::with_devices(&["a", "b", "c"]).processes(vec![7]);
    let mut entries = LockFileEntries::read(b"a:7\nb:8\nx\n").unwrap();
    let serials = runtime.devices().unwrap();

    let pass = claim_pass(&runtime, &mut entries, &serials, 1).unwrap();

    assert_eq!(pass.serial, Some("c".to_string()));
    assert_eq!(pass.available, 1);
    assert_eq!(entries.to_string(), "a:7,b:8,c:1");
}

#[test]
fn a_pass_that_claims_nothing_writes_nothing() {
    let runtime = FakeRuntime::with_devices(&["a"]).processes(vec![7]);
    let serials = runtime.devices().unwrap();

    let claim = try_acquire(&runtime, b"a:7\nb\n", &serials, 1).unwrap();

    assert_eq!(claim.serial, None);
    assert_eq!(claim.available, 0);
    assert_eq!(claim.ledger, None);
}

#[test]
fn a_ledger_that_cannot_be_read_ends_the_pass() {
    let runtime = FakeRuntime::with_devices(&["a"]);
    let serials = runtime.devices().unwrap();

    match try_acquire(&runtime, b"a:seven\n", &serials, 1) {
        Err(ClaimError::Ledger(e)) => assert_eq!(e, ReadError::InvalidPid),
        other => panic!("unexpected result {:?}", other),
    }
    match try_acquire(&runtime, b"\xff\n", &serials, 1) {
        Err(ClaimError::Ledger(e)) => assert_eq!(e, ReadError::InvalidUtf8),
        other => panic!("unexpected result {:?}", other),
    }
    assert_eq!(release_slot(b"a:seven\n", "a".to_string()), Err(ReadError::InvalidPid));
}

#[test]
fn an_oracle_that_fails_ends_the_pass_on_the_text() {
    let runtime = FakeRuntime::with_devices(&["a"]).failing();
    let serials = runtime.devices().unwrap();

    match try_acquire(&runtime, b"a:7\n", &serials, 1) {
        Err(ClaimError::Oracle(e)) => assert_eq!(e, "cannot tell whether 7 is running"),
        other => panic!("unexpected result {:?}", other),
    }
}

#[test]
fn release_of_a_slot_in_the_text() {
    assert_eq!(release("a:1\nb:2\n", "a"), "a\nb:2\n");
    assert_eq!(release("a\nb:2\n", "a"), "a\nb:2\n");
    assert_eq!(release("", "a"), "a\n");
}

#[test]
fn settle_releases_the_dead_and_claims_the_first_free_slot() {
    let mut entries = LockFileEntries::read(b"a:7\nb:8\nc:9\n").unwrap();

    let pass = settle_pass(&mut entries, &vec![true, false, false], 1);

    assert_eq!(pass.serial, Some("b".to_string()));
    assert_eq!(pass.available, 2);
    assert_eq!(entries.to_string(), "a:7,b:1,c");
}

#[test]
fn settle_claims_nothing_while_every_holder_is_alive() {
    let mut entries = LockFileEntries::read(b"a:7\nb:8\n").unwrap();

    let pass = settle_pass(&mut entries, &vec![true, true], 1);

    assert_eq!(pass.serial, None);
    assert_eq!(pass.available, 0);
    assert_eq!(entries.to_string(), "a:7,b:8");
}

#[test]
fn settle_takes_a_slot_without_an_answer_as_alive() {
    let mut entries = LockFileEntries::read(b"a:7\nb:8\n").unwrap();

    let pass = settle_pass(&mut entries, &vec![], 1);

    assert_eq!(pass.serial, None);
    assert_eq!(entries.to_string(), "a:7,b:8");

    let pass = settle_pass(&mut entries, &vec![true, false, false], 1);

    assert_eq!(pass.serial, Some("b".to_string()));
    assert_eq!(pass.available, 1);
}

#[test]
fn settle_counts_the_slots_that_were_free_before() {
    let mut entries = LockFileEntries::read(b"a\nb:8\nc:9\n").unwrap();

    let pass = settle_pass(&mut entries, &vec![false, true], 1);

    assert_eq!(pass.serial, Some("a".to_string()));
    assert_eq!(pass.available, 2);
    assert_eq!(entries.to_string(), "a:1,b,c:9");
}

#[test]
fn a_pass_over_no_device_asks_nobody_and_claims_nothing() {
    let runtime = FakeRuntime::with_devices(&[]).failing();
    let serials = runtime.devices().unwrap();

    let claim = try_acquire(&runtime, b"a:7\n", &serials, 1).unwrap();

    assert_eq!(claim.serial, None);
    assert_eq!(claim.available, 0);
    assert_eq!(claim.ledger, None);
}
