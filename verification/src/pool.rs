//! The seam between handlers and a concrete connection pool.
use crate::database::{
    increasing, last_version, law_pending_are_the_newer, ledger_fault, lemma_pending_bounded,
    pending_from, versions, AppliedMigration, DatabaseError, ErrorKind, FailureSource, Migration, MigrationError, MigrationReport,
    MigrationRun, MigrationSet, MigrationView, PoolHealth, TransactionOptions,
    TransactionPanic,
};
use std::sync::Arc;
use std::time::Duration;
use vstd::prelude::*;

verus! {

/// Acquires one owned database or ORM connection.
pub trait ConnectionPool: Sized {
    type Connection;

    type Error;

    /// Acquires an owned connection for one blocking operation.
    fn acquire(&self) -> Result<Self::Connection, Self::Error>;

    /// Acquires an owned connection, giving up once `timeout` elapses.
    ///
    /// The default ignores the deadline and forwards to [`Self::acquire`].
    /// Adapters whose driver supports a bounded wait must override it.
    fn acquire_timeout(&self, timeout: Duration) -> (result: Result<Self::Connection, Self::Error>)
        default_ensures
            call_ensures(Self::acquire, (self,), result),
    {
        self.acquire()
    }

    /// Reports current pool utilization, or `None` when untracked.
    fn health(&self) -> (health: Option<PoolHealth>)
        default_ensures
            health is None,
    {
        None
    }

    /// Classifies an acquisition failure raised by this driver.
    fn classify_acquire(&self, error: &Self::Error) -> (kind: ErrorKind)
        default_ensures
            kind == ErrorKind::Connection,
    {
        ErrorKind::Connection
    }

    /// Classifies an operation failure raised by this driver.
    fn classify(&self, error: &Self::Error) -> (kind: ErrorKind)
        default_ensures
            kind == ErrorKind::Other,
    {
        ErrorKind::Other
    }

    /// Classifies a transaction that panicked and was rolled back.
    fn classify_panic(&self, panic: &TransactionPanic) -> (kind: ErrorKind)
        default_ensures
            kind == ErrorKind::Other,
    {
        ErrorKind::Other
    }
}

/// Connection that can run explicit transactions.
///
/// Begin, the operation, and commit or rollback always share a single
/// connection and a single thread.
pub trait Transactional: Sized {
    type Error;

    /// Begins a transaction with the requested options.
    fn begin(&mut self, options: TransactionOptions) -> Result<(), Self::Error>;

    /// Commits the open transaction.
    fn commit(&mut self) -> Result<(), Self::Error>;

    /// Rolls back the open transaction.
    fn rollback(&mut self) -> Result<(), Self::Error>;
}

/// Version ledger an adapter maintains.
///
/// The adapter owns every statement. `apply` must execute the script and
/// record the version atomically so a crashed run never leaves a half-applied
/// version in the ledger.
pub trait MigrationRunner: Sized {
    type Error;

    /// Creates the version ledger when it does not already exist.
    fn ensure_ledger(&mut self) -> Result<(), Self::Error>;

    /// Returns every recorded migration ordered by ascending version.
    fn applied(&mut self) -> Result<Vec<AppliedMigration>, Self::Error>;

    /// Applies one migration and records it in the ledger atomically.
    fn apply(&mut self, migration: &Migration) -> Result<(), Self::Error>;
}

/// Cloneable dependency wrapper around a concrete connection pool.
pub struct Database<Pool> {
    pool: Arc<Pool>,
    acquire_timeout: Option<Duration>,
}

impl<Pool> Database<Pool> {
    pub closed spec fn spec_pool(self) -> Pool {
        *self.pool
    }

    pub closed spec fn spec_timeout(self) -> Option<Duration> {
        self.acquire_timeout
    }

    #[must_use]
    pub fn new(pool: Pool) -> (database: Self)
        ensures
            database.spec_pool() == pool,
            database.spec_timeout() is None,
    {
        Database { pool: Arc::new(pool), acquire_timeout: None }
    }

    #[must_use]
    pub fn from_shared(pool: Arc<Pool>) -> (database: Self)
        ensures
            database.spec_pool() == *pool,
            database.spec_timeout() is None,
    {
        Database { pool, acquire_timeout: None }
    }

    /// Bounds how long every operation waits for a connection.
    #[must_use]
    pub fn with_acquire_timeout(self, timeout: Duration) -> (database: Self)
        ensures
            database.spec_pool() == self.spec_pool(),
            database.spec_timeout() == Some(timeout),
    {
        Database { pool: self.pool, acquire_timeout: Some(timeout) }
    }

    /// Returns the configured acquisition timeout.
    #[must_use]
    pub fn acquire_timeout(&self) -> (timeout: Option<Duration>)
        ensures
            timeout == self.spec_timeout(),
    {
        self.acquire_timeout
    }

    #[must_use]
    pub fn pool(&self) -> (pool: &Arc<Pool>)
        ensures
            **pool == self.spec_pool(),
    {
        &self.pool
    }
}

impl<Pool: ConnectionPool> Database<Pool> {
    /// Reports current pool utilization, or `None` when untracked.
    #[must_use]
    pub fn health(&self) -> (health: Option<PoolHealth>)
        ensures
            call_ensures(Pool::health, (&self.spec_pool(),), health),
    {
        self.pool.health()
    }

    /// Acquires a connection, within the configured timeout if there is one.
    /// A failure keeps the driver's error under the class the pool gives it.
    pub fn acquire(&self) -> (result: Result<Pool::Connection, DatabaseError<Pool::Error>>)
        ensures
            match result {
                Ok(connection) => acquired(self.spec_pool(), self.spec_timeout(), Ok(connection)),
                Err(failure) => exists|error: Pool::Error|
                    {
                        &&& #[trigger] acquired(
                            self.spec_pool(),
                            self.spec_timeout(),
                            Err(error),
                        )
                        &&& failure.spec_source() == FailureSource::Driver(error)
                        &&& call_ensures(
                            Pool::classify_acquire,
                            (&self.spec_pool(), &error),
                            failure.spec_kind(),
                        )
                    },
            },
    {
        let outcome = match self.acquire_timeout {
            Some(timeout) => self.pool.acquire_timeout(timeout),
            None => self.pool.acquire(),
        };
        match outcome {
            Ok(connection) => Ok(connection),
            Err(error) => {
                let kind = self.pool.classify_acquire(&error);
                assert(acquired(self.spec_pool(), self.spec_timeout(), Err(error)));
                Err(DatabaseError::new(kind, FailureSource::Driver(error)))
            },
        }
    }
}

/// An acquisition that a pool may answer with `result`.
pub open spec fn acquired<Pool: ConnectionPool>(
    pool: Pool,
    timeout: Option<Duration>,
    result: Result<Pool::Connection, Pool::Error>,
) -> bool {
    match timeout {
        Some(timeout) => call_ensures(Pool::acquire_timeout, (&pool, timeout), result),
        None => call_ensures(Pool::acquire, (&pool,), result),
    }
}

/// A failure to acquire a connection, under the class that the pool gives it.
pub open spec fn refused<Pool: ConnectionPool>(
    pool: Pool,
    timeout: Option<Duration>,
    failure: DatabaseError<Pool::Error>,
) -> bool {
    exists|error: Pool::Error|
        {
            &&& #[trigger] acquired(pool, timeout, Err(error))
            &&& failure.spec_source() == FailureSource::Driver(error)
            &&& call_ensures(Pool::classify_acquire, (&pool, &error), failure.spec_kind())
        }
}

/// A failure of an operation, under the class that the pool gives it.
pub open spec fn classified<Pool: ConnectionPool>(
    pool: Pool,
    error: Pool::Error,
    failure: DatabaseError<Pool::Error>,
) -> bool {
    &&& failure.spec_source() == FailureSource::Driver(error)
    &&& call_ensures(Pool::classify, (&pool, &error), failure.spec_kind())
}

/// An operation that ran on a connection of the pool and came to `result`.
pub open spec fn ran<
    Pool: ConnectionPool,
    Output,
    Operation: FnOnce(&mut Pool::Connection) -> Result<Output, Pool::Error>,
>(
    pool: Pool,
    timeout: Option<Duration>,
    operation: Operation,
    result: Result<Output, Pool::Error>,
) -> bool {
    exists|connection: &mut Pool::Connection|
        {
            &&& acquired(pool, timeout, Ok(*connection))
            &&& #[trigger] operation.ensures((connection,), result)
        }
}

impl<Pool: ConnectionPool> Database<Pool> {
    fn operation_error(&self, error: Pool::Error) -> (failure: DatabaseError<Pool::Error>)
        ensures
            classified(self.spec_pool(), error, failure),
    {
        let kind = self.pool.classify(&error);
        let failure = DatabaseError::new(kind, FailureSource::Driver(error));
        assert(classified(self.spec_pool(), error, failure));
        failure
    }

    /// Runs synchronous work on the calling thread, with a connection of its
    /// own.
    pub fn run_sync<
        Output,
        Operation: FnOnce(&mut Pool::Connection) -> Result<Output, Pool::Error>,
    >(
        &self,
        operation: Operation,
    ) -> (result: Result<Output, DatabaseError<Pool::Error>>)
        requires
            forall|connection: &mut Pool::Connection| operation.requires((connection,)),
        ensures
            match result {
                Ok(output) => ran(self.spec_pool(), self.spec_timeout(), operation, Ok(output)),
                Err(failure) => refused(self.spec_pool(), self.spec_timeout(), failure) || exists|
                    error: Pool::Error,
                |
                    #[trigger] ran(
                        self.spec_pool(),
                        self.spec_timeout(),
                        operation,
                        Err(error),
                    ) && classified(self.spec_pool(), error, failure),
            },
    {
        let mut connection = match self.acquire() {
            Ok(connection) => connection,
            Err(failure) => {
                return Err(failure);
            },
        };
        match operation(&mut connection) {
            Ok(output) => Ok(output),
            Err(error) => {
                assert(ran(self.spec_pool(), self.spec_timeout(), operation, Err(error)));
                Err(self.operation_error(error))
            },
        }
    }
}

/// What a connection is asked for on behalf of a migration set, and what it
/// answered.
pub enum MigrationAct<E> {
    /// To make sure of its ledger.
    Ensure(Result<(), E>),
    /// To list its ledger.
    List(Result<Vec<AppliedMigration>, E>),
    /// To apply a migration.
    Apply(MigrationView, Result<(), E>),
}

/// One call on a connection, with the states of the connection before and after
/// it.
pub struct MigrationStep<C, E> {
    pub before: C,
    pub after: C,
    pub act: MigrationAct<E>,
}

/// Calls on one connection, each right behind the other and with nothing in
/// between, from one state to another.
pub open spec fn linked<C, E>(steps: Seq<MigrationStep<C, E>>, first: C, last: C) -> bool {
    &&& steps.len() == 0 ==> first == last
    &&& steps.len() > 0 ==> steps.first().before == first && steps.last().after == last
    &&& forall|i: int, j: int|
        #![trigger steps[i], steps[j]]
        0 <= i && j == i + 1 && j < steps.len() ==> steps[j].before == steps[i].after
}

/// The calls that read a ledger, and no others.
pub open spec fn ledger_read<C, E>(
    steps: Seq<MigrationStep<C, E>>,
    ledger: Seq<AppliedMigration>,
) -> bool {
    &&& steps.len() >= 2
    &&& steps[0].act matches MigrationAct::Ensure(Ok(_))
    &&& steps[1].act matches MigrationAct::List(Ok(records)) && records@ == ledger
}

/// The calls that tried to read a ledger and failed with an error, and no
/// others.
pub open spec fn ledger_unread<C, E>(steps: Seq<MigrationStep<C, E>>, error: E) -> bool {
    ||| steps.len() == 1 && (steps[0].act matches MigrationAct::Ensure(Err(failed)) && failed
        == error)
    ||| {
        &&& steps.len() == 2
        &&& steps[0].act matches MigrationAct::Ensure(Ok(_))
        &&& steps[1].act matches MigrationAct::List(Err(failed)) && failed == error
    }
}

/// What is said of a ledger that could not be read.
pub open spec fn illegible<Pool: ConnectionPool>(
    pool: Pool,
    steps: Seq<MigrationStep<Pool::Connection, Pool::Error>>,
    failure: DatabaseError<Pool::Error>,
) -> bool {
    exists|error: Pool::Error|
        #[trigger] ledger_unread(steps, error) && classified(pool, error, failure)
}

/// The last version that is recorded once everything pending was applied.
pub open spec fn final_version(set: Seq<MigrationView>, applied: Seq<AppliedMigration>) -> Option<
    u64,
> {
    if pending_from(set, last_version(applied)) < set.len() {
        Some(set.last().version)
    } else {
        last_version(applied)
    }
}

/// What a run against a ledger that agrees with a set reports once it handed
/// over everything pending.
pub open spec fn migrated(
    set: Seq<MigrationView>,
    ledger: Seq<AppliedMigration>,
    report: MigrationReport,
) -> bool {
    let first = pending_from(set, last_version(ledger)) as int;
    &&& ledger_fault(set, ledger, 0) is None
    &&& report.applied@ == versions(set.subrange(first, set.len() as int))
    &&& report.current_version == final_version(set, ledger)
}

/// Behind the two calls that read a ledger, the pending migrations were handed
/// over and applied, in order, so many of them.
pub open spec fn handed_over<C, E>(
    set: Seq<MigrationView>,
    ledger: Seq<AppliedMigration>,
    steps: Seq<MigrationStep<C, E>>,
    count: int,
) -> bool {
    let first = pending_from(set, last_version(ledger)) as int;
    &&& 0 <= count <= set.len() - first
    &&& steps.len() >= 2 + count
    &&& forall|k: int|
        2 <= k < 2 + count ==> ((#[trigger] steps[k]).act matches MigrationAct::Apply(
            migration,
            Ok(_),
        ) && migration == set[first + k - 2])
}

/// A failure that names what a ledger and a set disagree on.
pub open spec fn disagrees<E>(
    set: Seq<MigrationView>,
    ledger: Seq<AppliedMigration>,
    failure: DatabaseError<E>,
) -> bool {
    &&& ledger_fault(set, ledger, 0) matches Some(error) && failure.spec_source()
        == FailureSource::<E>::Migration(error)
    &&& failure.spec_kind() == ErrorKind::Other
}

/// A failure that names the first migration of a set that an agreeing ledger
/// lacks.
pub open spec fn lags<E>(
    set: Seq<MigrationView>,
    ledger: Seq<AppliedMigration>,
    failure: DatabaseError<E>,
) -> bool {
    let first = pending_from(set, last_version(ledger)) as int;
    &&& ledger_fault(set, ledger, 0) is None
    &&& first < set.len()
    &&& failure.spec_source() == FailureSource::<E>::Migration(
        MigrationError::Pending { version: set[first].version },
    )
    &&& failure.spec_kind() == ErrorKind::Other
}

/// A run that one of the pending migrations broke off: those before it were
/// applied, it was refused, and nothing was asked for after it.
pub open spec fn broke_off<Pool: ConnectionPool>(
    pool: Pool,
    set: Seq<MigrationView>,
    ledger: Seq<AppliedMigration>,
    steps: Seq<MigrationStep<Pool::Connection, Pool::Error>>,
    failure: DatabaseError<Pool::Error>,
) -> bool {
    let first = pending_from(set, last_version(ledger)) as int;
    let count = steps.len() - 3;
    &&& ledger_fault(set, ledger, 0) is None
    &&& handed_over(set, ledger, steps, count)
    &&& first + count < set.len()
    &&& steps.last().act matches MigrationAct::Apply(migration, Err(error)) && migration
        == set[first + count] && classified(pool, error, failure)
}

/// All the calls of a migration run and what it came to: the ledger is read
/// first, a ledger that disagrees is left alone, and otherwise each pending
/// migration is handed over once, in order, and nothing else is.
pub open spec fn migration_run<Pool: ConnectionPool>(
    pool: Pool,
    set: Seq<MigrationView>,
    steps: Seq<MigrationStep<Pool::Connection, Pool::Error>>,
    result: Result<MigrationReport, DatabaseError<Pool::Error>>,
) -> bool {
    match result {
        Ok(report) => exists|ledger: Seq<AppliedMigration>|
            {
                &&& #[trigger] ledger_read(steps, ledger)
                &&& migrated(set, ledger, report)
                &&& handed_over(set, ledger, steps, steps.len() - 2)
                &&& steps.len() - 2 == report.applied@.len()
            },
        Err(failure) => {
            ||| illegible(pool, steps, failure)
            ||| exists|ledger: Seq<AppliedMigration>|
                {
                    &&& #[trigger] ledger_read(steps, ledger)
                    &&& {
                        ||| steps.len() == 2 && disagrees(set, ledger, failure)
                        ||| broke_off(pool, set, ledger, steps, failure)
                    }
                }
        },
    }
}

/// All the calls of a verification and what it came to: the ledger is read, and
/// nothing is applied.
pub open spec fn verification_run<Pool: ConnectionPool>(
    pool: Pool,
    set: Seq<MigrationView>,
    steps: Seq<MigrationStep<Pool::Connection, Pool::Error>>,
    result: Result<(), DatabaseError<Pool::Error>>,
) -> bool {
    match result {
        Ok(_) => exists|ledger: Seq<AppliedMigration>|
            {
                &&& #[trigger] ledger_read(steps, ledger)
                &&& steps.len() == 2
                &&& ledger_fault(set, ledger, 0) is None
                &&& pending_from(set, last_version(ledger)) == set.len()
            },
        Err(failure) => {
            ||| illegible(pool, steps, failure)
            ||| exists|ledger: Seq<AppliedMigration>|
                {
                    &&& #[trigger] ledger_read(steps, ledger)
                    &&& steps.len() == 2
                    &&& disagrees(set, ledger, failure) || lags(set, ledger, failure)
                }
        },
    }
}

impl<Pool: ConnectionPool> Database<Pool> where
    Pool::Connection: MigrationRunner<Error = Pool::Error>,
 {
    fn read_ledger(&self, connection: &mut Pool::Connection) -> (applied: Result<
        Vec<AppliedMigration>,
        DatabaseError<Pool::Error>,
    >)
        ensures
            exists|steps: Seq<MigrationStep<Pool::Connection, Pool::Error>>|
                {
                    &&& #[trigger] linked(steps, *old(connection), *final(connection))
                    &&& match applied {
                        Ok(ledger) => ledger_read(steps, ledger@) && steps.len() == 2,
                        Err(failure) => illegible(self.spec_pool(), steps, failure),
                    }
                    &&& forall|k: int|
                        0 <= k < steps.len() ==> match (#[trigger] steps[k]).act {
                            MigrationAct::Ensure(outcome) => exists|call: &mut Pool::Connection|
                                {
                                    &&& *call == steps[k].before
                                    &&& *final(call) == steps[k].after
                                    &&& #[trigger] call_ensures(
                                        Pool::Connection::ensure_ledger,
                                        (call,),
                                        outcome,
                                    )
                                },
                            MigrationAct::List(outcome) => exists|call: &mut Pool::Connection|
                                {
                                    &&& *call == steps[k].before
                                    &&& *final(call) == steps[k].after
                                    &&& #[trigger] call_ensures(Pool::Connection::applied, (call,), outcome)
                                },
                            MigrationAct::Apply(migration, outcome) => exists|
                                call: &mut Pool::Connection,
                                script: &Migration,
                            |
                                {
                                    &&& *call == steps[k].before
                                    &&& *final(call) == steps[k].after
                                    &&& script@ == migration
                                    &&& #[trigger] call_ensures(
                                        Pool::Connection::apply,
                                        (call, script),
                                        outcome,
                                    )
                                },
                        }
                },
    {
        let ghost mut steps: Seq<MigrationStep<Pool::Connection, Pool::Error>> = Seq::empty();
        let ghost first = *connection;
        let ensured = connection.ensure_ledger();
        let ghost second = *connection;
        proof {
            assert(exists|call: &mut Pool::Connection|
                {
                    &&& *call == first
                    &&& *final(call) == second
                    &&& #[trigger] call_ensures(Pool::Connection::ensure_ledger, (call,), ensured)
                });
            steps = seq![
                MigrationStep {
                    before: first,
                    after: second,
                    act: MigrationAct::Ensure(ensured),
                },
            ];
        }
        match ensured {
            Ok(()) => {},
            Err(error) => {
                let failure = self.operation_error(error);
                assert(ledger_unread(steps, error));
                assert(linked(steps, first, second));
                return Err(failure);
            },
        }
        let listed = connection.applied();
        let ghost third = *connection;
        let ghost earlier = steps;
        proof {
            assert(exists|call: &mut Pool::Connection|
                {
                    &&& *call == second
                    &&& *final(call) == third
                    &&& #[trigger] call_ensures(Pool::Connection::applied, (call,), listed)
                });
            steps = steps.push(
                MigrationStep { before: second, after: third, act: MigrationAct::List(listed) },
            );
            assert(steps[0] == earlier[0]);
            assert(linked(steps, first, third));
        }
        match listed {
            Ok(applied) => Ok(applied),
            Err(error) => {
                let failure = self.operation_error(error);
                assert(ledger_unread(steps, error));
                Err(failure)
            },
        }
    }

    /// Applies every pending migration on a connection.
    pub fn migrate_on(&self, connection: &mut Pool::Connection, set: MigrationSet) -> (result:
        Result<MigrationReport, DatabaseError<Pool::Error>>)
        ensures
            exists|steps: Seq<MigrationStep<Pool::Connection, Pool::Error>>|
                {
                    &&& #[trigger] linked(steps, *old(connection), *final(connection))
                    &&& migration_run(self.spec_pool(), set@, steps, result)
                    &&& forall|k: int|
                        0 <= k < steps.len() ==> match (#[trigger] steps[k]).act {
                            MigrationAct::Ensure(outcome) => exists|call: &mut Pool::Connection|
                                {
                                    &&& *call == steps[k].before
                                    &&& *final(call) == steps[k].after
                                    &&& #[trigger] call_ensures(
                                        Pool::Connection::ensure_ledger,
                                        (call,),
                                        outcome,
                                    )
                                },
                            MigrationAct::List(outcome) => exists|call: &mut Pool::Connection|
                                {
                                    &&& *call == steps[k].before
                                    &&& *final(call) == steps[k].after
                                    &&& #[trigger] call_ensures(Pool::Connection::applied, (call,), outcome)
                                },
                            MigrationAct::Apply(migration, outcome) => exists|
                                call: &mut Pool::Connection,
                                script: &Migration,
                            |
                                {
                                    &&& *call == steps[k].before
                                    &&& *final(call) == steps[k].after
                                    &&& script@ == migration
                                    &&& #[trigger] call_ensures(
                                        Pool::Connection::apply,
                                        (call, script),
                                        outcome,
                                    )
                                },
                        }
                },
    {
        let ghost all = set@;
        let ghost start = *connection;
        let applied = match self.read_ledger(connection) {
            Ok(applied) => applied,
            Err(failure) => {
                return Err(failure);
            },
        };
        let ghost ledger = applied@;
        let ghost mut steps = choose|steps: Seq<MigrationStep<Pool::Connection, Pool::Error>>|
            {
                &&& #[trigger] linked(steps, start, *connection)
                &&& ledger_read(steps, ledger) && steps.len() == 2
                &&& forall|k: int|
                    0 <= k < steps.len() ==> match (#[trigger] steps[k]).act {
                        MigrationAct::Ensure(outcome) => exists|call: &mut Pool::Connection|
                            {
                                &&& *call == steps[k].before
                                &&& *final(call) == steps[k].after
                                &&& #[trigger] call_ensures(
                                    Pool::Connection::ensure_ledger,
                                    (call,),
                                    outcome,
                                )
                            },
                        MigrationAct::List(outcome) => exists|call: &mut Pool::Connection|
                            {
                                &&& *call == steps[k].before
                                &&& *final(call) == steps[k].after
                                &&& #[trigger] call_ensures(Pool::Connection::applied, (call,), outcome)
                            },
                        MigrationAct::Apply(migration, outcome) => exists|
                            call: &mut Pool::Connection,
                            script: &Migration,
                        |
                            {
                                &&& *call == steps[k].before
                                &&& *final(call) == steps[k].after
                                &&& script@ == migration
                                &&& #[trigger] call_ensures(
                                    Pool::Connection::apply,
                                    (call, script),
                                    outcome,
                                )
                            },
                    }
            };
        proof {
            lemma_pending_bounded(all, last_version(ledger));
        }
        let mut run = match MigrationRun::start(set, applied.as_slice()) {
            Ok(run) => run,
            Err(error) => {
                let failure = DatabaseError::new(ErrorKind::Other, FailureSource::Migration(error));
                assert(ledger_read(steps, ledger) && disagrees(all, ledger, failure));
                return Err(failure);
            },
        };
        loop
            invariant
                all == set@,
                start == *old(connection),
                ledger_read(steps, ledger),
                ledger_fault(all, ledger, 0) is None,
                run.migrations() == all,
                run.first() == pending_from(all, last_version(ledger)),
                run.first() <= run.position() <= all.len(),
                run.current() == if run.position() > run.first() {
                    Some(all[run.position() - 1].version)
                } else {
                    last_version(ledger)
                },
                steps.len() == 2 + run.position() - run.first(),
                handed_over(all, ledger, steps, steps.len() - 2),
                linked(steps, start, *connection),
                forall|k: int|
                    0 <= k < steps.len() ==> match (#[trigger] steps[k]).act {
                        MigrationAct::Ensure(outcome) => exists|call: &mut Pool::Connection|
                            {
                                &&& *call == steps[k].before
                                &&& *final(call) == steps[k].after
                                &&& #[trigger] call_ensures(
                                    Pool::Connection::ensure_ledger,
                                    (call,),
                                    outcome,
                                )
                            },
                        MigrationAct::List(outcome) => exists|call: &mut Pool::Connection|
                            {
                                &&& *call == steps[k].before
                                &&& *final(call) == steps[k].after
                                &&& #[trigger] call_ensures(Pool::Connection::applied, (call,), outcome)
                            },
                        MigrationAct::Apply(migration, outcome) => exists|
                            call: &mut Pool::Connection,
                            script: &Migration,
                        |
                            {
                                &&& *call == steps[k].before
                                &&& *final(call) == steps[k].after
                                &&& script@ == migration
                                &&& #[trigger] call_ensures(
                                    Pool::Connection::apply,
                                    (call, script),
                                    outcome,
                                )
                            },
                    },
            ensures
                run.position() >= all.len(),
            decreases all.len() - run.position(),
        {
            match run.next() {
                Some(migration) => {
                    let ghost before = *connection;
                    let ghost earlier = steps;
                    let outcome = connection.apply(migration);
                    let ghost after = *connection;
                    proof {
                        let wanted = all[run.position() as int];
                        assert(exists|call: &mut Pool::Connection, script: &Migration|
                            {
                                &&& *call == before
                                &&& *final(call) == after
                                &&& script@ == wanted
                                &&& #[trigger] call_ensures(
                                    Pool::Connection::apply,
                                    (call, script),
                                    outcome,
                                )
                            });
                        steps = steps.push(
                            MigrationStep {
                                before,
                                after,
                                act: MigrationAct::Apply(wanted, outcome),
                            },
                        );
                        assert(forall|k: int|
                            0 <= k < earlier.len() ==> #[trigger] steps[k] == earlier[k]);
                        assert(linked(steps, start, after));
                        assert(ledger_read(steps, ledger));
                    }
                    match outcome {
                        Ok(()) => {},
                        Err(error) => {
                            let failure = self.operation_error(error);
                            assert(broke_off(self.spec_pool(), all, ledger, steps, failure));
                            return Err(failure);
                        },
                    }
                },
                None => {
                    break;
                },
            }
            run = run.applied();
        }
        let report = run.report();
        assert(ledger_read(steps, ledger) && migrated(all, ledger, report));
        Ok(report)
    }

    /// Applies every pending migration on the calling thread, on a connection
    /// of its own.
    pub fn migrate(&self, set: MigrationSet) -> (result: Result<
        MigrationReport,
        DatabaseError<Pool::Error>,
    >)
        ensures
            ({
                ||| result matches Err(failure) && refused(
                    self.spec_pool(),
                    self.spec_timeout(),
                    failure,
                )
                ||| exists|
                    first: Pool::Connection,
                    last: Pool::Connection,
                    steps: Seq<MigrationStep<Pool::Connection, Pool::Error>>,
                |
                    {
                        &&& acquired(self.spec_pool(), self.spec_timeout(), Ok(first))
                        &&& #[trigger] linked(steps, first, last)
                        &&& migration_run(self.spec_pool(), set@, steps, result)
                        &&& forall|k: int|
                            0 <= k < steps.len() ==> match (#[trigger] steps[k]).act {
                                MigrationAct::Ensure(outcome) => exists|call: &mut Pool::Connection|
                                    {
                                        &&& *call == steps[k].before
                                        &&& *final(call) == steps[k].after
                                        &&& #[trigger] call_ensures(
                                            Pool::Connection::ensure_ledger,
                                            (call,),
                                            outcome,
                                        )
                                    },
                                MigrationAct::List(outcome) => exists|call: &mut Pool::Connection|
                                    {
                                        &&& *call == steps[k].before
                                        &&& *final(call) == steps[k].after
                                        &&& #[trigger] call_ensures(Pool::Connection::applied, (call,), outcome)
                                    },
                                MigrationAct::Apply(migration, outcome) => exists|
                                    call: &mut Pool::Connection,
                                    script: &Migration,
                                |
                                    {
                                        &&& *call == steps[k].before
                                        &&& *final(call) == steps[k].after
                                        &&& script@ == migration
                                        &&& #[trigger] call_ensures(
                                            Pool::Connection::apply,
                                            (call, script),
                                            outcome,
                                        )
                                    },
                            }
                    }
            }),
    {
        let mut connection = match self.acquire() {
            Ok(connection) => connection,
            Err(failure) => {
                return Err(failure);
            },
        };
        self.migrate_on(&mut connection, set)
    }

    /// Checks that the ledger of a connection matches a set, and applies
    /// nothing.
    pub fn verify_migrations_on(
        &self,
        connection: &mut Pool::Connection,
        set: &MigrationSet,
    ) -> (result: Result<(), DatabaseError<Pool::Error>>)
        ensures
            exists|steps: Seq<MigrationStep<Pool::Connection, Pool::Error>>|
                {
                    &&& #[trigger] linked(steps, *old(connection), *final(connection))
                    &&& verification_run(self.spec_pool(), set@, steps, result)
                    &&& forall|k: int|
                        0 <= k < steps.len() ==> match (#[trigger] steps[k]).act {
                            MigrationAct::Ensure(outcome) => exists|call: &mut Pool::Connection|
                                {
                                    &&& *call == steps[k].before
                                    &&& *final(call) == steps[k].after
                                    &&& #[trigger] call_ensures(
                                        Pool::Connection::ensure_ledger,
                                        (call,),
                                        outcome,
                                    )
                                },
                            MigrationAct::List(outcome) => exists|call: &mut Pool::Connection|
                                {
                                    &&& *call == steps[k].before
                                    &&& *final(call) == steps[k].after
                                    &&& #[trigger] call_ensures(Pool::Connection::applied, (call,), outcome)
                                },
                            MigrationAct::Apply(migration, outcome) => exists|
                                call: &mut Pool::Connection,
                                script: &Migration,
                            |
                                {
                                    &&& *call == steps[k].before
                                    &&& *final(call) == steps[k].after
                                    &&& script@ == migration
                                    &&& #[trigger] call_ensures(
                                        Pool::Connection::apply,
                                        (call, script),
                                        outcome,
                                    )
                                },
                        }
                },
    {
        let ghost start = *connection;
        let applied = match self.read_ledger(connection) {
            Ok(applied) => applied,
            Err(failure) => {
                return Err(failure);
            },
        };
        let ghost ledger = applied@;
        proof {
            lemma_pending_bounded(set@, last_version(ledger));
        }
        match set.verify_current(applied.as_slice()) {
            Ok(()) => Ok(()),
            Err(error) => {
                let failure = DatabaseError::new(ErrorKind::Other, FailureSource::Migration(error));
                assert(disagrees(set@, ledger, failure) || lags(set@, ledger, failure));
                Err(failure)
            },
        }
    }

    /// Checks that the ledger matches a set, on a connection of its own, and
    /// applies nothing.
    pub fn verify_migrations(&self, set: &MigrationSet) -> (result: Result<
        (),
        DatabaseError<Pool::Error>,
    >)
        ensures
            ({
                ||| result matches Err(failure) && refused(
                    self.spec_pool(),
                    self.spec_timeout(),
                    failure,
                )
                ||| exists|
                    first: Pool::Connection,
                    last: Pool::Connection,
                    steps: Seq<MigrationStep<Pool::Connection, Pool::Error>>,
                |
                    {
                        &&& acquired(self.spec_pool(), self.spec_timeout(), Ok(first))
                        &&& #[trigger] linked(steps, first, last)
                        &&& verification_run(self.spec_pool(), set@, steps, result)
                        &&& forall|k: int|
                            0 <= k < steps.len() ==> match (#[trigger] steps[k]).act {
                                MigrationAct::Ensure(outcome) => exists|call: &mut Pool::Connection|
                                    {
                                        &&& *call == steps[k].before
                                        &&& *final(call) == steps[k].after
                                        &&& #[trigger] call_ensures(
                                            Pool::Connection::ensure_ledger,
                                            (call,),
                                            outcome,
                                        )
                                    },
                                MigrationAct::List(outcome) => exists|call: &mut Pool::Connection|
                                    {
                                        &&& *call == steps[k].before
                                        &&& *final(call) == steps[k].after
                                        &&& #[trigger] call_ensures(Pool::Connection::applied, (call,), outcome)
                                    },
                                MigrationAct::Apply(migration, outcome) => exists|
                                    call: &mut Pool::Connection,
                                    script: &Migration,
                                |
                                    {
                                        &&& *call == steps[k].before
                                        &&& *final(call) == steps[k].after
                                        &&& script@ == migration
                                        &&& #[trigger] call_ensures(
                                            Pool::Connection::apply,
                                            (call, script),
                                            outcome,
                                        )
                                    },
                            }
                    }
            }),
    {
        let mut connection = match self.acquire() {
            Ok(connection) => connection,
            Err(failure) => {
                return Err(failure);
            },
        };
        self.verify_migrations_on(&mut connection, set)
    }
}

/// A migration of a set that is in order applies every migration above the recorded
/// version, each with one successful step, and none other; the report lists them in
/// order, and names the version that is reached.
pub proof fn law_migrating_applies_what_is_pending<Pool: ConnectionPool>(
    pool: Pool,
    set: Seq<MigrationView>,
    steps: Seq<MigrationStep<Pool::Connection, Pool::Error>>,
    report: MigrationReport,
)
    requires
        increasing(set),
        migration_run(pool, set, steps, Ok(report)),
    ensures
        exists|ledger: Seq<AppliedMigration>|
            {
                let done = set.len() - report.applied@.len();
                &&& #[trigger] ledger_read(steps, ledger)
                &&& 0 <= done
                &&& steps.len() == 2 + report.applied@.len()
                &&& forall|i: int|
                    0 <= i < set.len() ==> (i >= done <==> (ledger.len() == 0 || (
                    #[trigger] set[i]).version > ledger.last().version))
                &&& forall|k: int|
                    0 <= k < report.applied@.len() ==> #[trigger] report.applied@[k] == set[done
                        + k].version && (steps[2 + k].act matches MigrationAct::Apply(
                        migration,
                        Ok(_),
                    ) && migration == set[done + k])
                &&& report.current_version == if report.applied@.len() > 0 {
                    Some(set.last().version)
                } else if ledger.len() > 0 {
                    Some(ledger.last().version)
                } else {
                    None
                }
            },
{
    let ledger = choose|ledger: Seq<AppliedMigration>|
        {
            &&& #[trigger] ledger_read(steps, ledger)
            &&& migrated(set, ledger, report)
            &&& handed_over(set, ledger, steps, steps.len() - 2)
            &&& steps.len() - 2 == report.applied@.len()
        };
    let first = pending_from(set, last_version(ledger)) as int;
    lemma_pending_bounded(set, last_version(ledger));
    assert(report.applied@.len() == set.len() - first);
    assert forall|i: int| 0 <= i < set.len() implies (i >= first <==> (ledger.len() == 0 || (
    #[trigger] set[i]).version > ledger.last().version)) by {
        law_pending_are_the_newer(set, last_version(ledger), i);
    }
    assert forall|k: int| 0 <= k < report.applied@.len() implies #[trigger] report.applied@[k]
        == set[first + k].version && (steps[2 + k].act matches MigrationAct::Apply(migration, Ok(_))
        && migration == set[first + k]) by {
        assert(set.subrange(first, set.len() as int)[k] == set[first + k]);
        let step = steps[2 + k];
    }
    assert(ledger_read(steps, ledger));
}

/// Verification succeeds only where the ledger was read, agrees with the set, and
/// nothing is left to apply; it never applies anything.
pub proof fn law_verification_applies_nothing<Pool: ConnectionPool>(
    pool: Pool,
    set: Seq<MigrationView>,
    steps: Seq<MigrationStep<Pool::Connection, Pool::Error>>,
    result: Result<(), DatabaseError<Pool::Error>>,
)
    requires
        increasing(set),
        verification_run(pool, set, steps, result),
    ensures
        steps.len() <= 2,
        forall|i: int| 0 <= i < steps.len() ==> !((#[trigger] steps[i]).act is Apply),
        result is Ok ==> exists|ledger: Seq<AppliedMigration>|
            #[trigger] ledger_read(steps, ledger) && ledger_fault(set, ledger, 0) is None
                && forall|i: int|
                0 <= i < set.len() ==> ledger.len() > 0 && (#[trigger] set[i]).version
                    <= ledger.last().version,
{
    match result {
        Ok(_) => {
            let ledger = choose|ledger: Seq<AppliedMigration>|
                {
                    &&& #[trigger] ledger_read(steps, ledger)
                    &&& steps.len() == 2
                    &&& ledger_fault(set, ledger, 0) is None
                    &&& pending_from(set, last_version(ledger)) == set.len()
                };
            assert forall|i: int| 0 <= i < set.len() implies ledger.len() > 0 && (
            #[trigger] set[i]).version <= ledger.last().version by {
                law_pending_are_the_newer(set, last_version(ledger), i);
            }
            assert(ledger_read(steps, ledger));
        },
        Err(failure) => {
            if illegible(pool, steps, failure) {
                let error = choose|error: Pool::Error|
                    #[trigger] ledger_unread(steps, error) && classified(pool, error, failure);
                assert(ledger_unread(steps, error));
            }
        },
    }
}

} // verus!
