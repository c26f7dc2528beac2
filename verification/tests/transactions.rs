use novadb::error::NovaError;
use novadb::transaction::{TransactionManager, TransactionStatus};
use novadb::wal::{LogRecord, Operation};

fn manager() -> TransactionManager {
    TransactionManager::resume(&Vec::new()).unwrap()
}

fn detail(error: NovaError) -> String {
    match error {
        NovaError::InvalidState(m) | NovaError::NotFound(m) => m,
        other => panic!("unexpected error {other:?}"),
    }
}

#[test]
fn shared_locks_coexist_and_exclusive_locks_conflict() {
    let mut manager = manager();
    let first = manager.begin().unwrap();
    let second = manager.begin().unwrap();
    manager.acquire_shared(first, "students").unwrap();
    manager.acquire_shared(second, "students").unwrap();
    assert!(matches!(
        manager.acquire_exclusive(first, "students"),
        Err(NovaError::InvalidState(_))
    ));
    manager.rollback(second).unwrap();
    manager.acquire_exclusive(first, "students").unwrap();
    manager.commit(first).unwrap();
}

#[test]
fn terminal_states_are_durable_and_cannot_transition_twice() {
    let mut manager = manager();
    let committed = manager.begin().unwrap();
    manager.commit(committed).unwrap();
    assert_eq!(manager.status(committed).unwrap(), TransactionStatus::Committed);
    assert!(manager.rollback(committed).is_err());
    let rolled_back = manager.begin().unwrap();
    manager.rollback(rolled_back).unwrap();
    assert_eq!(manager.status(rolled_back).unwrap(), TransactionStatus::RolledBack);
}

#[test]
fn manager_is_thread_safe_and_releases_locks_on_commit() {
    let mut manager = manager();
    let writer = manager.begin().unwrap();
    manager.acquire_exclusive(writer, "students").unwrap();
    let contender = manager.begin().unwrap();
    let result = manager.acquire_shared(contender, "students");
    assert!(matches!(result, Err(NovaError::InvalidState(_))));
    manager.commit(writer).unwrap();
    manager.acquire_shared(contender, "students").unwrap();
    manager.rollback(contender).unwrap();
}

#[test]
fn ids_resume_above_the_log_and_stop_at_the_end_of_the_id_space() {
    let records = vec![
        LogRecord { lsn: 0, transaction_id: 7, operation: Operation::Begin },
        LogRecord { lsn: 1, transaction_id: 3, operation: Operation::Commit },
    ];
    let mut manager = TransactionManager::resume(&records).unwrap();
    assert_eq!(manager.next_id(), 8);
    assert_eq!(manager.begin().unwrap(), 8);
    assert_eq!(manager.begin().unwrap(), 9);
    assert_eq!(TransactionManager::resume(&Vec::new()).unwrap().next_id(), 1);

    let exhausted = vec![LogRecord { lsn: 0, transaction_id: u64::MAX, operation: Operation::Begin }];
    let error = TransactionManager::resume(&exhausted).err().unwrap();
    assert_eq!(detail(error), "transaction id overflow");

    let mut last = TransactionManager::new(u64::MAX - 1);
    assert_eq!(last.begin().unwrap(), u64::MAX - 1);
    assert_eq!(detail(last.begin().unwrap_err()), "transaction id overflow");
    assert_eq!(last.next_id(), u64::MAX);
}

#[test]
fn errors_name_the_transaction_and_the_collection() {
    let mut manager = manager();
    assert_eq!(detail(manager.status(42).unwrap_err()), "transaction 42");
    assert!(matches!(manager.acquire_shared(42, "c"), Err(NovaError::NotFound(_))));
    let id = manager.begin().unwrap();
    manager.acquire_exclusive(id, "the \"x\"").unwrap();
    let other = manager.begin().unwrap();
    assert_eq!(
        detail(manager.acquire_shared(other, "the \"x\"").unwrap_err()),
        "lock conflict on collection \"the \\\"x\\\"\""
    );
    manager.commit(id).unwrap();
    assert_eq!(detail(manager.commit(id).unwrap_err()), format!("transaction {id} is Committed"));
    assert!(manager.ensure_active(other).is_ok());
}

#[test]
fn upgrades_and_reentry_by_the_same_transaction_succeed() {
    let mut manager = manager();
    let id = manager.begin().unwrap();
    manager.acquire_shared(id, "a").unwrap();
    manager.acquire_shared(id, "a").unwrap();
    manager.acquire_exclusive(id, "a").unwrap();
    manager.acquire_exclusive(id, "a").unwrap();
    manager.acquire_shared(id, "a").unwrap();
    let other = manager.begin().unwrap();
    assert!(manager.acquire_shared(other, "a").is_err());
    manager.acquire_exclusive(other, "b").unwrap();
    assert!(manager.acquire_exclusive(id, "b").is_err());
    manager.rollback(other).unwrap();
    manager.acquire_exclusive(id, "b").unwrap();
    assert_eq!(manager.status(id).unwrap(), TransactionStatus::Active);
}
