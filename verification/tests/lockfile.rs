use adp::format::ReadError;
use adp::lockfile::LockFileEntries;

type Result<T> = std::result::Result<T, ReadError>;

#[test]
fn reads_entries() -> Result<()> {
    let input = "serial1\nserial2:2\nserial3\n";
    let entries = LockFileEntries::read(input.as_bytes())?;

    assert_eq!(entries.to_string(), "serial1,serial2:2,serial3");

    Ok(())
}

#[test]
fn writes_entries() -> Result<()> {
    let input = "serial1\nserial2:2\nserial3\n";
    let entries = LockFileEntries::read(input.as_bytes())?;
    let output = entries.write();

    assert_eq!(String::from_utf8(output).unwrap(), "serial1\nserial2:2\nserial3\n");

    Ok(())
}

#[test]
fn inserts_new_entries() -> Result<()> {
    let input = "serial1\nserial2:2\n";
    let mut entries = LockFileEntries::read(input.as_bytes())?;
    entries.update(&["serial1".to_string(), "serial2".to_string(), "serial3".to_string()]);

    assert_eq!(entries.to_string(), "serial1,serial2:2,serial3");

    Ok(())
}

#[test]
fn removes_old_entries() -> Result<()> {
    let input = "serial1\nserial2:2\n";
    let mut entries = LockFileEntries::read(input.as_bytes())?;
    entries.update(&["serial2".to_string()]);

    assert_eq!(entries.to_string(), "serial2:2");

    Ok(())
}

#[test]
fn acquires_entry_some() -> Result<()> {
    let input = "serial1\nserial2:2\n";
    let mut entries = LockFileEntries::read(input.as_bytes())?;
    let serial = entries.acquire(1);

    assert_eq!(serial, Some("serial1".to_string()));
    assert_eq!(entries.to_string(), "serial1:1,serial2:2");

    Ok(())
}

#[test]
fn acquires_entry_none() -> Result<()> {
    let input = "serial1:1\nserial2:2\n";
    let mut entries = LockFileEntries::read(input.as_bytes())?;
    let serial = entries.acquire(1);

    assert_eq!(serial, None);

    Ok(())
}

fn ledger(input: &str) -> LockFileEntries {
    LockFileEntries::read(input.as_bytes()).unwrap()
}

fn serials(names: &[&str]) -> Vec<String> {
    names.iter().map(|name| name.to_string()).collect()
}

#[test]
fn acquire_takes_the_first_free_slot_in_serial_order() {
    let mut entries = ledger("c\nb\na:9\n");

    assert_eq!(entries.count_available(), 2);
    assert_eq!(entries.acquire(5), Some("b".to_string()));
    assert_eq!(entries.count_available(), 1);
    assert_eq!(entries.acquire(6), Some("c".to_string()));
    assert_eq!(entries.count_available(), 0);
    assert_eq!(entries.acquire(7), None);
    assert_eq!(entries.count_available(), 0);
    assert_eq!(entries.to_string(), "a:9,b:5,c:6");
}

#[test]
fn acquire_on_an_empty_ledger_finds_nothing() {
    let mut entries = ledger("");

    assert_eq!(entries.acquire(1), None);
    assert_eq!(entries.to_string(), "");
}

#[test]
fn find_available_names_the_slot_that_acquire_takes() {
    let mut entries = ledger("a:1\nb\nc\n");

    assert_eq!(entries.find_available(), Some("b".to_string()));
    assert_eq!(entries.to_string(), "a:1,b,c");
    assert_eq!(entries.acquire(2), Some("b".to_string()));
    assert_eq!(entries.find_available(), Some("c".to_string()));
    assert_eq!(entries.acquire(3), Some("c".to_string()));
    assert_eq!(entries.find_available(), None);
}

#[test]
fn release_frees_the_slot_whoever_holds_it() {
    let mut entries = ledger("a:1\nb:2\n");

    entries.release("b".to_string());

    assert_eq!(entries.to_string(), "a:1,b");
    assert_eq!(entries.count_available(), 1);
}

#[test]
fn release_twice_is_release_once() {
    let mut entries = ledger("a:1\nb:2\n");

    entries.release("a".to_string());
    let once = entries.write();
    entries.release("a".to_string());

    assert_eq!(entries.write(), once);
    assert_eq!(entries.to_string(), "a,b:2");
}

#[test]
fn release_of_an_unknown_serial_adds_a_free_slot() {
    let mut entries = ledger("a:1\nc:3\n");

    entries.release("b".to_string());

    assert_eq!(entries.to_string(), "a:1,b,c:3");
}

#[test]
fn release_all_frees_each_serial() {
    let mut entries = ledger("a:1\nb:2\nc:3\n");

    entries.release_all(serials(&["c", "a", "c"]));

    assert_eq!(entries.to_string(), "a,b:2,c");

    entries.release_all(vec![]);

    assert_eq!(entries.to_string(), "a,b:2,c");
}

#[test]
fn unavailable_lists_the_held_slots_in_order() {
    let entries = ledger("d:4\na:1\nb\nc:3\n");

    assert_eq!(
        entries.unavialble(),
        vec![("a".to_string(), 1), ("c".to_string(), 3), ("d".to_string(), 4)]
    );
    assert_eq!(ledger("a\nb\n").unavialble(), vec![]);
}

#[test]
fn update_twice_is_update_once() {
    let mut entries = ledger("a:1\nb\nx:7\n");
    let live = serials(&["c", "a", "b"]);

    entries.update(&live);
    let once = entries.write();
    entries.update(&live);

    assert_eq!(entries.write(), once);
    assert_eq!(entries.to_string(), "a:1,b,c");
}

#[test]
fn update_with_no_device_empties_the_ledger() {
    let mut entries = ledger("a:1\nb\n");

    entries.update(&[]);

    assert_eq!(entries.to_string(), "");
}

#[test]
fn update_takes_a_serial_that_is_named_twice_once() {
    let mut entries = ledger("");

    entries.update(&serials(&["b", "a", "b"]));

    assert_eq!(entries.to_string(), "a,b");
}
