use work_units::registry::{Access, AccessError, Registry};
use work_units::system::{IntoSystem, RunError};

fn generic_read(_reads: Vec<u64>, writes: Vec<u64>) -> Result<Vec<u64>, u64> {
    Ok(writes)
}

fn sys(_reads: Vec<u64>, writes: Vec<u64>) -> Result<Vec<u64>, u64> {
    Ok(writes)
}

fn send<T: Send>(_t: T) {}

#[test]
fn convert_system() {
    let _ = generic_read.system(vec![1], vec![], String::from("generic_read"));
    fn tmp(_reads: Vec<u64>, writes: Vec<u64>) -> Result<Vec<u64>, u64> {
        Ok(writes)
    }
    // Reusing the same resource type is incorrect and makes every
    // acquisition fail against itself, but the conversion accepts it.
    fn tmp2(_reads: Vec<u64>, writes: Vec<u64>) -> Result<Vec<u64>, u64> {
        Ok(writes)
    }
    let _ = tmp.system(vec![1, 2], vec![3, 4], String::from("tmp"));
    let _ = tmp2.system(
        vec![1, 2],
        vec![3, 4, 4, 4, 4, 4, 4, 4, 4, 4],
        String::from("tmp2"),
    );
}

#[test]
fn system_is_send() {
    let x: u64 = 6;
    send(
        (move |_reads: Vec<u64>, writes: Vec<u64>| -> Result<Vec<u64>, u64> {
            let _y = x;
            Ok(writes)
        })
        .system(vec![1], vec![], String::from("capturing")),
    );
    send(
        (|_reads: Vec<u64>, writes: Vec<u64>| -> Result<Vec<u64>, u64> { Ok(writes) }).system(
            vec![],
            vec![],
            String::from("empty"),
        ),
    );
    send(sys.system(vec![1], vec![], String::from("sys")));
}

#[test]
fn manual_system_run() {
    let mut registry = Registry::default();
    registry.ensure_default(1);
    generic_read
        .system(vec![1], vec![], String::from("generic_read"))
        .run(&mut registry)
        .unwrap();
}

#[test]
fn system_replace_resource() {
    let mut registry = Registry::default();
    let my_system = (|_a: Vec<u64>, _b: Vec<u64>| -> Result<Vec<u64>, u64> { Ok(vec![45]) })
        .system(vec![1], vec![2], String::from("replace"));
    my_system.initialize(&mut registry);
    my_system.run(&mut registry).unwrap();
    assert_eq!(registry.get_value(2).unwrap(), 45);
}

#[test]
fn declaration_shape_per_arity() {
    let s0 = sys.system(vec![], vec![], String::from("s0"));
    assert_eq!(s0.accesses(), &Vec::<Access>::new());

    let s1 = sys.system(vec![8], vec![], String::from("s1"));
    assert_eq!(s1.accesses(), &vec![Access::Read(8)]);

    let s2 = sys.system(vec![], vec![9], String::from("s2"));
    assert_eq!(s2.accesses(), &vec![Access::Write(9)]);

    let s3 = sys.system(vec![1, 2], vec![3], String::from("s3"));
    assert_eq!(
        s3.accesses(),
        &vec![Access::Read(1), Access::Read(2), Access::Write(3)]
    );

    let s4 = sys.system(vec![1, 2, 3], vec![4, 5, 6], String::from("s4"));
    assert_eq!(
        s4.accesses(),
        &vec![
            Access::Read(1),
            Access::Read(2),
            Access::Read(3),
            Access::Write(4),
            Access::Write(5),
            Access::Write(6)
        ]
    );
}

#[test]
fn initialize_is_idempotent() {
    let mut registry = Registry::new();
    let unit = sys.system(vec![1], vec![2], String::from("unit"));
    unit.initialize(&mut registry);
    registry.set_value(2, 7);
    unit.initialize(&mut registry);
    assert_eq!(registry.get_value(1).unwrap(), 0);
    assert_eq!(registry.get_value(2).unwrap(), 7);
}

#[test]
fn concurrent_reads_coexist() {
    let mut registry = Registry::new();
    let reader1 = sys.system(vec![1, 2], vec![], String::from("reader1"));
    let reader2 = sys.system(vec![2], vec![], String::from("reader2"));
    reader1.initialize(&mut registry);
    reader2.initialize(&mut registry);
    let handles1 = reader1.acquire(&mut registry).unwrap();
    let handles2 = reader2.acquire(&mut registry).unwrap();
    assert_eq!(handles1.len(), 2);
    assert_eq!(handles2.len(), 1);
    for h in handles1 {
        registry.release(h);
    }
    for h in handles2 {
        registry.release(h);
    }
}

#[test]
fn overlapping_write_conflicts() {
    let mut registry = Registry::new();
    let writer1 = sys.system(vec![], vec![2], String::from("writer1"));
    let writer2 = sys.system(vec![], vec![2], String::from("writer2"));
    writer1.initialize(&mut registry);
    writer2.initialize(&mut registry);
    let handles1 = writer1.acquire(&mut registry).unwrap();
    assert_eq!(
        writer2.acquire(&mut registry).unwrap_err(),
        AccessError::Conflict(2)
    );
    for h in handles1 {
        registry.release(h);
    }
    let handles2 = writer2.acquire(&mut registry).unwrap();
    assert_eq!(handles2.len(), 1);
    for h in handles2 {
        registry.release(h);
    }
}

#[test]
fn read_blocks_writer_but_not_reader() {
    let mut registry = Registry::new();
    let reader = sys.system(vec![5], vec![], String::from("reader"));
    let writer = sys.system(vec![], vec![5], String::from("writer"));
    reader.initialize(&mut registry);
    let held = reader.acquire(&mut registry).unwrap();
    assert_eq!(
        writer.acquire(&mut registry).unwrap_err(),
        AccessError::Conflict(5)
    );
    let second = reader.acquire(&mut registry).unwrap();
    for h in held {
        registry.release(h);
    }
    for h in second {
        registry.release(h);
    }
    let handles = writer.acquire(&mut registry).unwrap();
    assert_eq!(handles.len(), 1);
    for h in handles {
        registry.release(h);
    }
}

#[test]
fn run_releases_on_every_exit_path() {
    let mut registry = Registry::new();
    let ok_unit = (|_r: Vec<u64>, _w: Vec<u64>| -> Result<Vec<u64>, u64> { Ok(vec![1]) })
        .system(vec![1], vec![2], String::from("ok_unit"));
    let failing_unit = (|_r: Vec<u64>, _w: Vec<u64>| -> Result<Vec<u64>, u64> { Err(3) })
        .system(vec![1], vec![2], String::from("failing_unit"));
    let probe = sys.system(vec![], vec![1, 2], String::from("probe"));
    ok_unit.initialize(&mut registry);

    ok_unit.run(&mut registry).unwrap();
    let handles = probe.acquire(&mut registry).unwrap();
    for h in handles {
        registry.release(h);
    }

    assert_eq!(
        failing_unit.run(&mut registry).unwrap_err(),
        RunError::Application(3)
    );
    let handles = probe.acquire(&mut registry).unwrap();
    for h in handles {
        registry.release(h);
    }
}

#[test]
fn acquire_before_initialize_is_not_initialized() {
    let mut registry = Registry::new();
    let unit = sys.system(vec![77], vec![], String::from("unit"));
    assert_eq!(
        unit.acquire(&mut registry).unwrap_err(),
        AccessError::NotInitialized(77)
    );
}

#[test]
fn run_before_initialize_fails_acquisition() {
    let mut registry = Registry::new();
    let unit = sys.system(vec![], vec![4], String::from("unit"));
    assert_eq!(
        unit.run(&mut registry).unwrap_err(),
        RunError::Acquisition(AccessError::NotInitialized(4))
    );
}

#[test]
fn duplicate_write_type_conflicts_with_itself() {
    let mut registry = Registry::new();
    let unit = sys.system(vec![], vec![7, 7], String::from("duplicated"));
    unit.initialize(&mut registry);
    assert_eq!(
        unit.acquire(&mut registry).unwrap_err(),
        AccessError::Conflict(7)
    );
    // A failed acquisition leaves no borrow behind.
    let other = sys.system(vec![], vec![7], String::from("other"));
    let handles = other.acquire(&mut registry).unwrap();
    for h in handles {
        registry.release(h);
    }
}

#[test]
fn run_passes_read_and_write_values() {
    let mut registry = Registry::new();
    let unit = (|reads: Vec<u64>, writes: Vec<u64>| -> Result<Vec<u64>, u64> {
        Ok(vec![reads[0] + writes[0] + 100])
    })
    .system(vec![1], vec![2], String::from("adder"));
    unit.initialize(&mut registry);
    registry.set_value(1, 5);
    registry.set_value(2, 30);
    unit.run(&mut registry).unwrap();
    assert_eq!(registry.get_value(1).unwrap(), 5);
    assert_eq!(registry.get_value(2).unwrap(), 135);
}

#[test]
fn application_error_leaves_values_unchanged() {
    let mut registry = Registry::new();
    let unit = (|_r: Vec<u64>, _w: Vec<u64>| -> Result<Vec<u64>, u64> { Err(9) })
        .system(vec![], vec![2], String::from("failing"));
    unit.initialize(&mut registry);
    registry.set_value(2, 11);
    assert_eq!(unit.run(&mut registry).unwrap_err(), RunError::Application(9));
    assert_eq!(registry.get_value(2).unwrap(), 11);
}

#[test]
fn diagnostic_name_is_kept() {
    let unit = sys.system(vec![], vec![], String::from("my unit"));
    assert_eq!(unit.name(), &String::from("my unit"));
}

#[test]
fn shared_borrows_count_and_release() {
    let mut registry = Registry::new();
    registry.ensure_default(3);
    let first = registry.try_acquire_shared(3).unwrap();
    let second = registry.try_acquire_shared(3).unwrap();
    assert_eq!(
        registry.try_acquire_exclusive(3).unwrap_err(),
        AccessError::Conflict(3)
    );
    registry.release(first);
    assert_eq!(
        registry.try_acquire_exclusive(3).unwrap_err(),
        AccessError::Conflict(3)
    );
    registry.release(second);
    let exclusive = registry.try_acquire_exclusive(3).unwrap();
    assert_eq!(
        registry.try_acquire_shared(3).unwrap_err(),
        AccessError::Conflict(3)
    );
    registry.release(exclusive);
}

#[test]
fn handles_report_their_grant() {
    let mut registry = Registry::new();
    registry.ensure_default(6);
    let shared = registry.try_acquire_shared(6).unwrap();
    assert_eq!(shared.resource_id(), 6);
    assert!(!shared.exclusive());
    registry.release(shared);
    let exclusive = registry.try_acquire_exclusive(6).unwrap();
    assert_eq!(exclusive.resource_id(), 6);
    assert!(exclusive.exclusive());
    registry.release(exclusive);
}

#[test]
fn empty_declaration_runs() {
    let mut registry = Registry::new();
    let unit = (|_r: Vec<u64>, _w: Vec<u64>| -> Result<Vec<u64>, u64> { Ok(vec![]) })
        .system(vec![], vec![], String::from("empty"));
    unit.initialize(&mut registry);
    unit.run(&mut registry).unwrap();
}
