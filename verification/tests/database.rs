use blazingly::blocking::{BlockingError, BlockingPoolConfig};
use blazingly::database::{
    advance_transaction, AppliedMigration, DatabaseError, ErrorKind, FailureSource, IsolationLevel,
    Migration, MigrationError, MigrationRun, MigrationSet, OperationEnd,
    PoolHealth, TransactionAction, TransactionEvent, TransactionOptions, TransactionPanic,
    TransactionPhase,
};
use blazingly::pool::{ConnectionPool, Database, MigrationRunner, Transactional};
use std::cell::RefCell;
use std::rc::Rc;
use std::time::Duration;

#[derive(Clone, Copy, Debug, Eq, PartialEq)]
enum DriverError {
    Busy,
    Unique,
}

#[derive(Default)]
struct DriverPool {
    events: Rc<RefCell<Vec<String>>>,
    fail_rollback: bool,
    refuse: bool,
    ledger: Vec<AppliedMigration>,
}

struct DriverConnection {
    events: Rc<RefCell<Vec<String>>>,
    fail_rollback: bool,
    applied: Vec<AppliedMigration>,
    value: u64,
}

impl ConnectionPool for DriverPool {
    type Connection = DriverConnection;
    type Error = DriverError;

    fn acquire(&self) -> Result<DriverConnection, DriverError> {
        if self.refuse {
            return Err(DriverError::Busy);
        }
        Ok(DriverConnection {
            events: Rc::clone(&self.events),
            fail_rollback: self.fail_rollback,
            applied: self.ledger.clone(),
            value: 40,
        })
    }

    fn acquire_timeout(&self, _timeout: Duration) -> Result<DriverConnection, DriverError> {
        self.events.borrow_mut().push("acquire_timeout".to_string());
        self.acquire()
    }

    fn health(&self) -> Option<PoolHealth> {
        Some(PoolHealth {
            in_use: 4,
            idle: 0,
            waiting: 1,
            max_size: Some(4),
        })
    }

    fn classify_acquire(&self, error: &DriverError) -> ErrorKind {
        match error {
            DriverError::Busy => ErrorKind::Timeout,
            DriverError::Unique => ErrorKind::Other,
        }
    }

    fn classify(&self, error: &DriverError) -> ErrorKind {
        match error {
            DriverError::Unique => ErrorKind::Constraint,
            DriverError::Busy => ErrorKind::Timeout,
        }
    }
}

impl DriverConnection {
    fn record(&self, event: String) {
        self.events.borrow_mut().push(event);
    }
}

impl Transactional for DriverConnection {
    type Error = DriverError;

    fn begin(&mut self, options: TransactionOptions) -> Result<(), DriverError> {
        let isolation = options.isolation();
        let read_only = options.is_read_only();
        self.record(format!("begin {isolation:?} read_only={read_only}"));
        Ok(())
    }

    fn commit(&mut self) -> Result<(), DriverError> {
        self.record("commit".to_string());
        Ok(())
    }

    fn rollback(&mut self) -> Result<(), DriverError> {
        self.record("rollback".to_string());
        if self.fail_rollback {
            return Err(DriverError::Busy);
        }
        Ok(())
    }
}

impl MigrationRunner for DriverConnection {
    type Error = DriverError;

    fn ensure_ledger(&mut self) -> Result<(), DriverError> {
        self.record("ensure_ledger".to_string());
        Ok(())
    }

    fn applied(&mut self) -> Result<Vec<AppliedMigration>, DriverError> {
        Ok(self.applied.clone())
    }

    fn apply(&mut self, migration: &Migration) -> Result<(), DriverError> {
        let version = migration.version();
        self.record(format!("apply {version}"));
        self.applied.push(AppliedMigration {
            version,
            name: migration.name().to_string(),
            checksum: migration.checksum(),
        });
        Ok(())
    }
}

/// What an operation did inside its transaction.
enum Ran {
    Value(u64),
    Failed(DriverError),
    Panicked,
}

/// Runs one transaction by performing each action it asks for.
fn transact(
    database: &Database<DriverPool>,
    options: TransactionOptions,
    operation: fn(&mut DriverConnection) -> Ran,
) -> Result<u64, DatabaseError<DriverError>> {
    let mut connection = None;
    let mut phase = TransactionPhase::Acquiring;
    let mut action = TransactionAction::Acquire;
    loop {
        let pool = database.pool();
        let driven = |result: Result<(), DriverError>| match result {
            Ok(()) => TransactionEvent::Done,
            Err(error) => TransactionEvent::Failed {
                kind: pool.classify(&error),
                error,
            },
        };
        let event = match action {
            TransactionAction::Acquire => {
                connection = Some(database.acquire()?);
                TransactionEvent::Done
            }
            TransactionAction::Begin => driven(connection.as_mut().unwrap().begin(options)),
            TransactionAction::Run => match operation(connection.as_mut().unwrap()) {
                Ran::Value(value) => TransactionEvent::Succeeded(value),
                Ran::Failed(error) => driven(Err(error)),
                Ran::Panicked => TransactionEvent::Panicked {
                    kind: pool.classify_panic(&TransactionPanic),
                },
            },
            TransactionAction::Commit => driven(connection.as_mut().unwrap().commit()),
            TransactionAction::Rollback => driven(connection.as_mut().unwrap().rollback()),
            TransactionAction::Return(result) => return result,
        };
        let (next, asked) = advance_transaction(phase, event);
        phase = next;
        action = asked;
    }
}

fn migration_set() -> MigrationSet {
    MigrationSet::new(vec![
        Migration::new(1, "create", "create table jobs"),
        Migration::new(2, "index", "create index jobs_idx"),
    ])
    .expect("ordered set")
}

#[test]
fn synchronous_work_runs_on_a_connection_of_the_pool() {
    let database = Database::new(DriverPool::default());
    let result = database
        .run_sync(|connection| {
            connection.value += 2;
            Ok(connection.value)
        })
        .expect("database operation");
    assert_eq!(result, 42);
}

#[test]
fn query_errors_keep_their_class_and_driver_type() {
    let database = Database::new(DriverPool::default());
    let error = database
        .run_sync(|_| Err::<(), _>(DriverError::Unique))
        .expect_err("constraint failure");
    assert_eq!(error.kind(), ErrorKind::Constraint);
    assert_eq!(error.downcast_ref(), Some(&DriverError::Unique));
    assert_eq!(
        error.message("unique constraint violated"),
        "database constraint violated: unique constraint violated"
    );
    assert_eq!(
        error.into_source(),
        FailureSource::Driver(DriverError::Unique)
    );
}

#[test]
fn configured_acquire_timeout_reaches_the_adapter() {
    let events = Rc::new(RefCell::new(Vec::new()));
    let database = Database::new(DriverPool {
        events: Rc::clone(&events),
        fail_rollback: false,
        refuse: false,
        ledger: Vec::new(),
    })
    .with_acquire_timeout(Duration::from_millis(250));
    assert_eq!(database.acquire_timeout(), Some(Duration::from_millis(250)));
    let connection = database.acquire().ok().expect("a connection");
    assert_eq!(connection.value, 40);
    assert_eq!(*events.borrow(), vec!["acquire_timeout".to_string()]);
}

#[test]
fn a_refused_connection_keeps_the_class_the_pool_gives_it() {
    let database = Database::new(DriverPool {
        events: Rc::default(),
        fail_rollback: false,
        refuse: true,
        ledger: Vec::new(),
    });
    let error = database.acquire().err().expect("refused");
    assert_eq!(error.kind(), ErrorKind::Timeout);
    assert_eq!(error.source_error(), &FailureSource::Driver(DriverError::Busy));
}

#[test]
fn pool_health_reports_saturation() {
    let database = Database::new(DriverPool::default());
    let health = database.health().expect("reported health");
    assert!(health.is_saturated());
    assert!(!PoolHealth::default().is_saturated());
}

#[test]
fn committed_transaction_reports_the_requested_isolation() {
    let events = Rc::new(RefCell::new(Vec::new()));
    let database = Database::new(DriverPool {
        events: Rc::clone(&events),
        fail_rollback: false,
        refuse: false,
        ledger: Vec::new(),
    });
    let options = TransactionOptions::new()
        .with_isolation(IsolationLevel::Serializable)
        .read_only();
    let value = transact(&database, options, |connection| {
        connection.value += 2;
        Ran::Value(connection.value)
    })
    .expect("transaction");
    assert_eq!(value, 42);
    assert_eq!(
        *events.borrow(),
        vec![
            "begin Serializable read_only=true".to_string(),
            "commit".to_string(),
        ]
    );
}

#[test]
fn failed_transaction_rolls_back() {
    let events = Rc::new(RefCell::new(Vec::new()));
    let database = Database::new(DriverPool {
        events: Rc::clone(&events),
        fail_rollback: false,
        refuse: false,
        ledger: Vec::new(),
    });
    let error = transact(&database, TransactionOptions::new(), |_| {
        Ran::Failed(DriverError::Unique)
    })
    .expect_err("rolled back");
    assert_eq!(error.kind(), ErrorKind::Constraint);
    assert_eq!(
        *events.borrow(),
        vec![
            "begin Adapter read_only=false".to_string(),
            "rollback".to_string(),
        ]
    );
}

#[test]
fn rollback_failure_is_reported_with_the_operation_error() {
    let database = Database::new(DriverPool {
        events: Rc::default(),
        fail_rollback: true,
        refuse: false,
        ledger: Vec::new(),
    });
    let error = transact(&database, TransactionOptions::new(), |_| {
        Ran::Failed(DriverError::Unique)
    })
    .expect_err("rollback failure");
    assert_eq!(error.kind(), ErrorKind::Constraint);
    let FailureSource::RolledBack(failure) = error.source_error() else {
        panic!("expected a preserved rollback failure, got {error:?}");
    };
    assert_eq!(
        failure.operation(),
        &OperationEnd::Failed(DriverError::Unique)
    );
    assert_eq!(failure.rollback(), &DriverError::Busy);
    assert_eq!(
        failure.message("unique constraint violated", "driver is busy"),
        "unique constraint violated; rollback also failed: driver is busy"
    );
}

#[test]
fn panicking_transaction_rolls_back() {
    let events = Rc::new(RefCell::new(Vec::new()));
    let database = Database::new(DriverPool {
        events: Rc::clone(&events),
        fail_rollback: false,
        refuse: false,
        ledger: Vec::new(),
    });
    let error = transact(&database, TransactionOptions::new(), |_| Ran::Panicked)
        .expect_err("rolled back");
    assert_eq!(
        error.source_error(),
        &FailureSource::Panicked(TransactionPanic)
    );
    assert_eq!(
        TransactionPanic.to_string(),
        "database transaction panicked and was rolled back"
    );
    assert_eq!(
        *events.borrow(),
        vec![
            "begin Adapter read_only=false".to_string(),
            "rollback".to_string(),
        ]
    );
}

#[test]
fn migrations_apply_in_order_and_verify() {
    let events = Rc::new(RefCell::new(Vec::new()));
    let database = Database::new(DriverPool {
        events: Rc::clone(&events),
        fail_rollback: false,
        refuse: false,
        ledger: Vec::new(),
    });
    let report = database.migrate(migration_set()).expect("migration run");
    assert_eq!(report.applied, vec![1, 2]);
    assert_eq!(report.current_version, Some(2));
    assert_eq!(
        *events.borrow(),
        vec![
            "ensure_ledger".to_string(),
            "apply 1".to_string(),
            "apply 2".to_string(),
        ]
    );
}

#[test]
fn a_ledger_that_is_up_to_date_has_nothing_pending() {
    let set = migration_set();
    let applied: Vec<AppliedMigration> = set
        .migrations()
        .iter()
        .map(|migration| AppliedMigration {
            version: migration.version(),
            name: migration.name().to_string(),
            checksum: migration.checksum(),
        })
        .collect();
    assert_eq!(set.verify_current(&applied), Ok(()));
    let run = MigrationRun::start(set, &applied).expect("a matching ledger");
    assert!(run.next().is_none());
    let report = run.report();
    assert_eq!(report.applied, Vec::<u64>::new());
    assert_eq!(report.current_version, Some(2));
}

#[test]
fn verification_reports_pending_migrations() {
    let database = Database::new(DriverPool::default());
    let error = database
        .verify_migrations(&migration_set())
        .expect_err("pending migration");
    assert_eq!(
        error.source_error(),
        &FailureSource::Migration(MigrationError::Pending { version: 1 })
    );
    assert_eq!(error.kind(), ErrorKind::Other);
}

#[test]
fn changed_scripts_fail_verification() {
    let set = migration_set();
    let applied = vec![AppliedMigration {
        version: 1,
        name: "create".to_string(),
        checksum: 0,
    }];
    assert_eq!(
        set.verify(&applied),
        Err(MigrationError::ChecksumMismatch { version: 1 })
    );
}

#[test]
fn skipped_and_undefined_versions_fail_verification() {
    let set = migration_set();
    let skipped = vec![AppliedMigration {
        version: 2,
        name: "index".to_string(),
        checksum: set.migrations()[1].checksum(),
    }];
    assert_eq!(
        set.verify(&skipped),
        Err(MigrationError::Pending { version: 1 })
    );
    let undefined = vec![AppliedMigration {
        version: 9,
        name: "ghost".to_string(),
        checksum: 0,
    }];
    assert_eq!(
        set.verify(&undefined),
        Err(MigrationError::Unknown { version: 9 })
    );
}

#[test]
fn migration_sets_reject_repeated_versions() {
    let error = MigrationSet::new(vec![
        Migration::new(1, "create", "create table jobs"),
        Migration::new(1, "again", "create table jobs"),
    ])
    .expect_err("repeated version");
    assert_eq!(error, MigrationError::OutOfOrder { version: 1 });
    assert_eq!(
        error.to_string(),
        "migration 1 does not increase the version"
    );
}

#[test]
fn pending_selects_migrations_after_the_ledger() {
    let set = migration_set();
    assert_eq!(set.pending(None).len(), 2);
    assert_eq!(set.pending(Some(1)).len(), 1);
    assert_eq!(set.pending(Some(2)).len(), 0);
    assert_eq!(set.latest_version(), Some(2));
}

#[test]
fn blocking_failures_keep_their_class() {
    let error: DatabaseError<DriverError> = DatabaseError::from(BlockingError::Saturated);
    assert_eq!(error.kind(), ErrorKind::Saturated);
    assert_eq!(
        error.source_error(),
        &FailureSource::Blocking(BlockingError::Saturated)
    );
    let other: DatabaseError<DriverError> = DatabaseError::from(BlockingError::Panicked);
    assert_eq!(other.kind(), ErrorKind::Other);
}

#[test]
fn a_checksum_follows_the_script() {
    // The offset basis of the sixty-four bit hash, and the hash of one byte.
    assert_eq!(
        Migration::new(1, "empty", "").checksum(),
        0xcbf2_9ce4_8422_2325
    );
    assert_eq!(
        Migration::new(1, "a", "a").checksum(),
        0xaf63_dc4c_8601_ec8c
    );
    assert_eq!(
        Migration::new(1, "one", "create").checksum(),
        Migration::new(2, "two", "create").checksum()
    );
}

#[test]
fn a_pool_is_sized_from_the_machine() {
    let config = BlockingPoolConfig::for_parallelism(8);
    assert_eq!(config.workers(), 8);
    assert_eq!(config.queue_capacity(), 1024);
    assert_eq!(BlockingPoolConfig::for_parallelism(1).workers(), 2);
    assert_eq!(BlockingPoolConfig::new(3, 5).workers(), 3);
    assert_eq!(BlockingPoolConfig::new(3, 5).queue_capacity(), 5);
    assert_eq!(
        BlockingError::Unavailable.to_string(),
        "blocking handler pool is unavailable"
    );
}

fn recorded(migration: &Migration) -> AppliedMigration {
    AppliedMigration {
        version: migration.version(),
        name: migration.name().to_string(),
        checksum: migration.checksum(),
    }
}

#[test]
fn only_what_the_ledger_lacks_is_applied() {
    let set = migration_set();
    let pool = DriverPool {
        ledger: vec![recorded(&set.migrations()[0])],
        ..DriverPool::default()
    };
    let events = Rc::clone(&pool.events);
    let report = Database::new(pool).migrate(set).expect("migration run");
    assert_eq!(report.applied, vec![2]);
    assert_eq!(report.current_version, Some(2));
    assert_eq!(*events.borrow(), ["ensure_ledger", "apply 2"]);
}

#[test]
fn a_ledger_that_disagrees_is_left_alone() {
    let unknown = AppliedMigration {
        version: 9,
        name: "unknown".to_string(),
        checksum: 0,
    };
    let fault = migration_set()
        .verify(&[unknown.clone()])
        .expect_err("an unknown version");
    let pool = DriverPool {
        ledger: vec![unknown],
        ..DriverPool::default()
    };
    let events = Rc::clone(&pool.events);
    let database = Database::new(pool);
    for error in [
        database.migrate(migration_set()).map(|_| ()),
        database.verify_migrations(&migration_set()),
    ] {
        let error = error.expect_err("a ledger that disagrees");
        assert_eq!(error.kind(), ErrorKind::Other);
        assert_eq!(
            error.source_error(),
            &FailureSource::Migration(fault.clone())
        );
    }
    assert_eq!(*events.borrow(), ["ensure_ledger", "ensure_ledger"]);
}

#[test]
fn a_panicked_transaction_is_other_unless_the_pool_says_so() {
    let pool = DriverPool::default();
    assert_eq!(pool.classify_panic(&TransactionPanic), ErrorKind::Other);
}

#[test]
fn a_connection_can_be_migrated_in_place() {
    let pool = DriverPool::default();
    let mut connection = pool.acquire().expect("a connection");
    let database = Database::new(pool);
    assert!(database
        .verify_migrations_on(&mut connection, &migration_set())
        .is_err());
    let report = database
        .migrate_on(&mut connection, migration_set())
        .expect("migration run");
    assert_eq!(report.applied, vec![1, 2]);
    assert_eq!(connection.applied.len(), 2);
    assert!(database
        .verify_migrations_on(&mut connection, &migration_set())
        .is_ok());
}
