//! The rules of the database seam: pool health, transaction control,
//! migration ledgers and failure classes.
use crate::blocking::BlockingError;
use crate::text::{decimal, decimal_text};
use vstd::prelude::*;
use vstd::string::*;
use vstd::utf8::encode_utf8;

verus! {

// ---------------------------------------------------------------------------
// Pool health
// ---------------------------------------------------------------------------

/// Point-in-time connection pool utilization for observability.
#[derive(Clone, Copy, Debug, PartialEq, Eq, Structural)]
pub struct PoolHealth {
    /// Connections currently checked out.
    pub in_use: u32,
    /// Connections currently idle in the pool.
    pub idle: u32,
    /// Callers currently waiting for a connection.
    pub waiting: u32,
    /// Maximum connection count when the adapter caps the pool.
    pub max_size: Option<u32>,
}

impl Default for PoolHealth {
    fn default() -> (health: Self)
        ensures
            health == (PoolHealth { in_use: 0, idle: 0, waiting: 0, max_size: None }),
    {
        PoolHealth { in_use: 0, idle: 0, waiting: 0, max_size: None }
    }
}

impl PoolHealth {
    /// Reports whether no connection is immediately available.
    #[must_use]
    pub fn is_saturated(self) -> (saturated: bool)
        ensures
            saturated == (self.waiting > 0 || (self.max_size matches Some(max) && self.idle == 0
                && self.in_use >= max)),
    {
        if self.waiting > 0 {
            return true;
        }
        match self.max_size {
            Some(max) => self.idle == 0 && self.in_use >= max,
            None => false,
        }
    }
}

// ---------------------------------------------------------------------------
// Transaction options
// ---------------------------------------------------------------------------

/// Isolation requested when a transaction begins.
#[derive(Clone, Copy, Debug, PartialEq, Eq, Structural)]
pub enum IsolationLevel {
    /// Whatever the adapter or server is already configured to use.
    Adapter,
    /// Uncommitted rows written by other transactions are visible.
    ReadUncommitted,
    /// Only committed rows are visible, and may change between statements.
    ReadCommitted,
    /// Rows read once stay stable for the whole transaction.
    RepeatableRead,
    /// The transaction runs as if it were the only one.
    Serializable,
}

impl Default for IsolationLevel {
    fn default() -> (level: Self)
        ensures
            level == IsolationLevel::Adapter,
    {
        IsolationLevel::Adapter
    }
}

/// Options applied when a transaction begins.
#[derive(Clone, Copy, Debug, PartialEq, Eq, Structural)]
pub struct TransactionOptions {
    isolation: IsolationLevel,
    read_only: bool,
}

impl Default for TransactionOptions {
    fn default() -> (options: Self)
        ensures
            options.spec_isolation() == IsolationLevel::Adapter,
            !options.spec_read_only(),
    {
        TransactionOptions::new()
    }
}

impl TransactionOptions {
    pub closed spec fn spec_isolation(self) -> IsolationLevel {
        self.isolation
    }

    pub closed spec fn spec_read_only(self) -> bool {
        self.read_only
    }

    /// Creates options that keep the adapter's default isolation.
    #[must_use]
    pub fn new() -> (options: Self)
        ensures
            options.spec_isolation() == IsolationLevel::Adapter,
            !options.spec_read_only(),
    {
        TransactionOptions { isolation: IsolationLevel::Adapter, read_only: false }
    }

    /// Requests an explicit isolation level.
    #[must_use]
    pub fn with_isolation(self, isolation: IsolationLevel) -> (options: Self)
        ensures
            options.spec_isolation() == isolation,
            options.spec_read_only() == self.spec_read_only(),
    {
        TransactionOptions { isolation, read_only: self.read_only }
    }

    /// Declares the transaction read-only.
    #[must_use]
    pub fn read_only(self) -> (options: Self)
        ensures
            options.spec_isolation() == self.spec_isolation(),
            options.spec_read_only(),
    {
        TransactionOptions { isolation: self.isolation, read_only: true }
    }

    /// Returns the requested isolation level.
    #[must_use]
    pub fn isolation(self) -> (isolation: IsolationLevel)
        ensures
            isolation == self.spec_isolation(),
    {
        self.isolation
    }

    /// Returns whether the transaction was declared read-only.
    #[must_use]
    pub fn is_read_only(self) -> (read_only: bool)
        ensures
            read_only == self.spec_read_only(),
    {
        self.read_only
    }
}

// ---------------------------------------------------------------------------
// Migrations
// ---------------------------------------------------------------------------

/// The FNV-1a hash of a byte string.
pub open spec fn fnv1a(bytes: Seq<u8>) -> u64
    decreases bytes.len(),
{
    if bytes.len() == 0 {
        0xcbf2_9ce4_8422_2325
    } else {
        (fnv1a(bytes.drop_last()) ^ (bytes.last() as u64)).wrapping_mul(0x0000_0100_0000_01b3)
    }
}

fn checksum(script: &str) -> (hash: u64)
    ensures
        hash == fnv1a(encode_utf8(script@)),
{
    let bytes = script.as_bytes();
    let ghost all = encode_utf8(script@);
    let mut hash: u64 = 0xcbf2_9ce4_8422_2325;
    let mut index: usize = 0;
    assert(all.take(0) =~= Seq::empty());
    while index < bytes.len()
        invariant
            index <= bytes@.len(),
            bytes@ == all,
            hash == fnv1a(all.take(index as int)),
        decreases bytes@.len() - index,
    {
        proof {
            assert(all.take(index + 1).drop_last() =~= all.take(index as int));
            assert(all.take(index + 1).last() == all[index as int]);
        }
        hash = (hash ^ (bytes[index] as u64)).wrapping_mul(0x0000_0100_0000_01b3);
        index += 1;
    }
    assert(all.take(all.len() as int) =~= all);
    hash
}

/// One ordered schema change identified by a version.
#[derive(Debug, PartialEq, Eq)]
pub struct Migration {
    version: u64,
    name: String,
    script: String,
    checksum: u64,
}

/// What a migration says.
pub struct MigrationView {
    pub version: u64,
    pub name: Seq<char>,
    pub script: Seq<char>,
    pub checksum: u64,
}

impl View for Migration {
    type V = MigrationView;

    closed spec fn view(&self) -> MigrationView {
        MigrationView {
            version: self.version,
            name: self.name@,
            script: self.script@,
            checksum: self.checksum,
        }
    }
}

impl Migration {
    /// Creates a migration from an adapter-defined script.
    ///
    /// The script is opaque to this library; the adapter decides how to
    /// execute it.
    #[must_use]
    pub fn new(version: u64, name: &str, script: &str) -> (migration: Self)
        ensures
            migration@ == (MigrationView {
                version,
                name: name@,
                script: script@,
                checksum: fnv1a(encode_utf8(script@)),
            }),
    {
        Migration {
            version,
            name: name.to_owned(),
            script: script.to_owned(),
            checksum: checksum(script),
        }
    }

    /// Returns the migration version.
    #[must_use]
    pub fn version(&self) -> (version: u64)
        ensures
            version == self@.version,
    {
        self.version
    }

    /// Returns the migration name.
    #[must_use]
    pub fn name(&self) -> (name: &str)
        ensures
            name@ == self@.name,
    {
        self.name.as_str()
    }

    /// Returns the adapter-defined script.
    #[must_use]
    pub fn script(&self) -> (script: &str)
        ensures
            script@ == self@.script,
    {
        self.script.as_str()
    }

    /// Returns the checksum recorded when the migration is applied.
    #[must_use]
    pub fn checksum(&self) -> (checksum: u64)
        ensures
            checksum == self@.checksum,
    {
        self.checksum
    }
}

impl Clone for Migration {
    fn clone(&self) -> (copy: Self)
        ensures
            copy@ == self@,
    {
        Migration {
            version: self.version,
            name: self.name.clone(),
            script: self.script.clone(),
            checksum: self.checksum,
        }
    }
}

/// A migration the adapter's ledger reports as already applied.
#[derive(Clone, Debug, PartialEq, Eq)]
pub struct AppliedMigration {
    /// Version recorded in the ledger.
    pub version: u64,
    /// Name recorded in the ledger.
    pub name: String,
    /// Checksum recorded when the migration ran.
    pub checksum: u64,
}

/// Disagreement between a migration set and an adapter's ledger.
#[derive(Clone, Copy, Debug, PartialEq, Eq, Structural)]
pub enum MigrationError {
    /// A version repeats or does not increase.
    OutOfOrder { version: u64 },
    /// The ledger records a version the set does not define.
    Unknown { version: u64 },
    /// A recorded script changed after it was applied.
    ChecksumMismatch { version: u64 },
    /// A defined migration has not been applied.
    Pending { version: u64 },
}

/// The message of a migration disagreement.
pub open spec fn migration_message(error: MigrationError) -> Seq<char> {
    match error {
        MigrationError::OutOfOrder { version } => "migration "@ + decimal(version as nat)
            + " does not increase the version"@,
        MigrationError::Unknown { version } => "ledger records undefined migration "@ + decimal(
            version as nat,
        ),
        MigrationError::ChecksumMismatch { version } => "migration "@ + decimal(version as nat)
            + " changed after it was applied"@,
        MigrationError::Pending { version } => "migration "@ + decimal(version as nat)
            + " has not been applied"@,
    }
}

impl MigrationError {
    /// The message shown for the disagreement.
    #[must_use]
    pub fn to_string(&self) -> (text: String)
        ensures
            text@ == migration_message(*self),
    {
        match self {
            MigrationError::OutOfOrder { version } => {
                let mut text = "migration ".to_owned();
                text.append(decimal_text(*version).as_str());
                text.append(" does not increase the version");
                text
            },
            MigrationError::Unknown { version } => {
                let mut text = "ledger records undefined migration ".to_owned();
                text.append(decimal_text(*version).as_str());
                text
            },
            MigrationError::ChecksumMismatch { version } => {
                let mut text = "migration ".to_owned();
                text.append(decimal_text(*version).as_str());
                text.append(" changed after it was applied");
                text
            },
            MigrationError::Pending { version } => {
                let mut text = "migration ".to_owned();
                text.append(decimal_text(*version).as_str());
                text.append(" has not been applied");
                text
            },
        }
    }
}

/// Versions that strictly increase.
pub open spec fn increasing(set: Seq<MigrationView>) -> bool {
    forall|i: int, j: int|
        0 <= i < j < set.len() ==> (#[trigger] set[i]).version < (#[trigger] set[j]).version
}

/// The first position from `at` whose version does not exceed the one before.
pub open spec fn first_disorder(set: Seq<MigrationView>, at: int) -> Option<u64>
    decreases set.len() - at,
{
    if at < 1 || at >= set.len() {
        None
    } else if set[at].version <= set[at - 1].version {
        Some(set[at].version)
    } else {
        first_disorder(set, at + 1)
    }
}

/// What is wrong with the ledger record at one position, if anything.
pub open spec fn record_fault(
    set: Seq<MigrationView>,
    applied: Seq<AppliedMigration>,
    at: int,
) -> Option<MigrationError> {
    let record = applied[at];
    if at >= set.len() {
        Some(MigrationError::Unknown { version: record.version })
    } else if set[at].version != record.version {
        if exists|i: int| 0 <= i < set.len() && (#[trigger] set[i]).version == record.version {
            Some(MigrationError::Pending { version: set[at].version })
        } else {
            Some(MigrationError::Unknown { version: record.version })
        }
    } else if set[at].checksum != record.checksum {
        Some(MigrationError::ChecksumMismatch { version: record.version })
    } else {
        None
    }
}

/// The first fault of the ledger from one position on.
pub open spec fn ledger_fault(
    set: Seq<MigrationView>,
    applied: Seq<AppliedMigration>,
    at: int,
) -> Option<MigrationError>
    decreases applied.len() - at,
{
    if at >= applied.len() {
        None
    } else {
        match record_fault(set, applied, at) {
            Some(error) => Some(error),
            None => ledger_fault(set, applied, at + 1),
        }
    }
}

/// How many leading migrations a recorded version covers.
pub open spec fn covered(set: Seq<MigrationView>, version: u64) -> nat
    decreases set.len(),
{
    if set.len() == 0 || set[0].version > version {
        0
    } else {
        1 + covered(set.drop_first(), version)
    }
}

/// The position of the first migration that is not yet applied.
pub open spec fn pending_from(set: Seq<MigrationView>, applied: Option<u64>) -> nat {
    match applied {
        Some(version) => covered(set, version),
        None => 0,
    }
}

/// An ordered migration set with strictly increasing versions.
#[derive(Debug, PartialEq, Eq)]
pub struct MigrationSet {
    migrations: Vec<Migration>,
}

/// What a list of migrations says.
pub open spec fn migrations_view(list: Seq<Migration>) -> Seq<MigrationView> {
    list.map_values(|migration: Migration| migration@)
}

impl View for MigrationSet {
    type V = Seq<MigrationView>;

    closed spec fn view(&self) -> Seq<MigrationView> {
        migrations_view(self.migrations@)
    }
}

impl Default for MigrationSet {
    fn default() -> (set: Self)
        ensures
            set@ == Seq::<MigrationView>::empty(),
    {
        let set = MigrationSet { migrations: Vec::new() };
        assert(set@ =~= Seq::<MigrationView>::empty());
        set
    }
}

proof fn lemma_ordered_set(set: Seq<MigrationView>, at: int)
    requires
        1 <= at,
        first_disorder(set, at) is None,
    ensures
        forall|i: int| at <= i < set.len() ==> (#[trigger] set[i]).version > set[i - 1].version,
    decreases set.len() - at,
{
    if at < set.len() {
        lemma_ordered_set(set, at + 1);
    }
}

proof fn lemma_increasing(set: Seq<MigrationView>)
    requires
        first_disorder(set, 1) is None,
    ensures
        increasing(set),
{
    lemma_ordered_set(set, 1);
    assert forall|i: int, j: int| 0 <= i < j < set.len() implies (#[trigger] set[i]).version < (
    #[trigger] set[j]).version by {
        lemma_step(set, i, j);
    }
}

proof fn lemma_step(set: Seq<MigrationView>, i: int, j: int)
    requires
        0 <= i < j < set.len(),
        forall|k: int| 1 <= k < set.len() ==> (#[trigger] set[k]).version > set[k - 1].version,
    ensures
        set[i].version < set[j].version,
    decreases j - i,
{
    assert(set[j].version > set[j - 1].version);
    if i < j - 1 {
        lemma_step(set, i, j - 1);
    }
}

proof fn lemma_covered_bounds(set: Seq<MigrationView>, version: u64)
    ensures
        covered(set, version) <= set.len(),
        forall|i: int| 0 <= i < covered(set, version) ==> (#[trigger] set[i]).version <= version,
        covered(set, version) < set.len() ==> set[covered(set, version) as int].version > version,
    decreases set.len(),
{
    if set.len() > 0 && set[0].version <= version {
        let rest = set.drop_first();
        lemma_covered_bounds(rest, version);
        assert forall|i: int| 0 <= i < covered(set, version) implies (#[trigger] set[i]).version
            <= version by {
            if i > 0 {
                assert(set[i] == rest[i - 1]);
            }
        }
    }
}

pub(crate) proof fn lemma_pending_bounded(set: Seq<MigrationView>, applied: Option<u64>)
    ensures
        pending_from(set, applied) <= set.len(),
{
    if let Some(version) = applied {
        lemma_covered_bounds(set, version);
    }
}

/// Exactly the migrations newer than the recorded version are pending.
pub proof fn law_pending_are_the_newer(set: Seq<MigrationView>, applied: Option<u64>, i: int)
    requires
        increasing(set),
        0 <= i < set.len(),
    ensures
        (i >= pending_from(set, applied)) <==> (applied matches Some(version) ==> set[i].version
            > version),
{
    match applied {
        Some(version) => {
            lemma_covered_bounds(set, version);
        },
        None => {},
    }
}

proof fn lemma_no_fault(set: Seq<MigrationView>, applied: Seq<AppliedMigration>, at: int)
    ensures
        ledger_fault(set, applied, at) is None <==> forall|i: int|
            at <= i < applied.len() ==> record_fault(set, applied, i) is None,
    decreases applied.len() - at,
{
    if at < applied.len() {
        lemma_no_fault(set, applied, at + 1);
    }
}

/// A ledger verifies exactly when it is an unmodified prefix of the set.
pub proof fn law_verified_ledgers_are_prefixes(
    set: Seq<MigrationView>,
    applied: Seq<AppliedMigration>,
)
    ensures
        ledger_fault(set, applied, 0) is None <==> (applied.len() <= set.len() && forall|i: int|
            0 <= i < applied.len() ==> (#[trigger] applied[i]).version == set[i].version
                && applied[i].checksum == set[i].checksum),
{
    lemma_no_fault(set, applied, 0);
    if ledger_fault(set, applied, 0) is None {
        assert forall|i: int| 0 <= i < applied.len() implies (#[trigger] applied[i]).version
            == set[i].version && applied[i].checksum == set[i].checksum by {
            assert(record_fault(set, applied, i) is None);
        }
        if applied.len() > set.len() {
            assert(record_fault(set, applied, set.len() as int) is None);
        }
    } else if applied.len() <= set.len() && forall|i: int|
        0 <= i < applied.len() ==> (#[trigger] applied[i]).version == set[i].version
            && applied[i].checksum == set[i].checksum {
        assert forall|i: int| 0 <= i < applied.len() implies record_fault(set, applied, i)
            is None by {
            assert(applied[i].version == set[i].version);
        }
    }
}

impl MigrationSet {
    /// Every set that exists is in version order.
    #[verifier::type_invariant]
    spec fn well_formed(self) -> bool {
        increasing(migrations_view(self.migrations@))
    }

    /// Builds a set after checking versions strictly increase.
    pub fn new(migrations: Vec<Migration>) -> (result: Result<Self, MigrationError>)
        ensures
            match result {
                Ok(set) => first_disorder(migrations_view(migrations@), 1) is None && set@
                    == migrations_view(migrations@) && increasing(set@),
                Err(error) => first_disorder(migrations_view(migrations@), 1) matches Some(version)
                    && error == (MigrationError::OutOfOrder { version }),
            },
    {
        let ghost views = migrations_view(migrations@);
        let mut index: usize = 1;
        while index < migrations.len()
            invariant
                1 <= index,
                views == migrations_view(migrations@),
                first_disorder(views, 1) == first_disorder(views, index as int),
            decreases migrations@.len() - index,
        {
            if migrations[index].version <= migrations[index - 1].version {
                assert(views[index as int].version <= views[index - 1].version);
                return Err(MigrationError::OutOfOrder { version: migrations[index].version });
            }
            assert(views[index as int].version > views[index - 1].version);
            index += 1;
        }
        proof {
            lemma_increasing(views);
        }
        Ok(MigrationSet { migrations })
    }

    /// Returns every defined migration in version order.
    #[must_use]
    pub fn migrations(&self) -> (migrations: &[Migration])
        ensures
            migrations_view(migrations@) == self@,
            increasing(self@),
    {
        proof {
            use_type_invariant(self);
        }
        self.migrations.as_slice()
    }

    /// Returns the highest defined version.
    #[must_use]
    pub fn latest_version(&self) -> (version: Option<u64>)
        ensures
            version == if self@.len() == 0 {
                None
            } else {
                Some(self@.last().version)
            },
    {
        if self.migrations.len() == 0 {
            None
        } else {
            Some(self.migrations[self.migrations.len() - 1].version)
        }
    }

    fn first_pending(&self, applied: Option<u64>) -> (index: usize)
        ensures
            index == pending_from(self@, applied),
            index <= self@.len(),
    {
        let version = match applied {
            None => {
                return 0;
            },
            Some(version) => version,
        };
        let ghost views = self@;
        let mut index: usize = 0;
        assert(views.skip(0) =~= views);
        while index < self.migrations.len() && self.migrations[index].version <= version
            invariant
                index <= self.migrations@.len(),
                views == migrations_view(self.migrations@),
                covered(views, version) == index + covered(views.skip(index as int), version),
            decreases self.migrations@.len() - index,
        {
            proof {
                assert(views.skip(index as int)[0] == views[index as int]);
                assert(views.skip(index as int).drop_first() =~= views.skip(index + 1));
            }
            index += 1;
        }
        proof {
            if index < views.len() {
                assert(views.skip(index as int)[0] == views[index as int]);
            }
        }
        index
    }

    /// Returns the migrations defined after the recorded version.
    #[must_use]
    pub fn pending(&self, applied_version: Option<u64>) -> (pending: &[Migration])
        ensures
            migrations_view(pending@) == self@.skip(pending_from(self@, applied_version) as int),
    {
        let index = self.first_pending(applied_version);
        let pending = vstd::slice::slice_subrange(
            self.migrations.as_slice(),
            index,
            self.migrations.len(),
        );
        assert(migrations_view(pending@) =~= self@.skip(index as int));
        pending
    }

    fn defines(&self, version: u64) -> (defined: bool)
        ensures
            defined == exists|i: int| 0 <= i < self@.len() && (#[trigger] self@[i]).version
                == version,
    {
        let mut index: usize = 0;
        while index < self.migrations.len()
            invariant
                index <= self.migrations@.len(),
                forall|i: int| 0 <= i < index ==> (#[trigger] self@[i]).version != version,
            decreases self.migrations@.len() - index,
        {
            if self.migrations[index].version == version {
                assert(self@[index as int].version == version);
                return true;
            }
            index += 1;
        }
        false
    }

    /// Checks that `applied` is an unmodified prefix of this set.
    ///
    /// A recorded version the set does not define is unknown, a skipped lower
    /// version is pending, and a script that changed after it was applied has
    /// a mismatched checksum.
    pub fn verify(&self, applied: &[AppliedMigration]) -> (result: Result<(), MigrationError>)
        ensures
            result == match ledger_fault(self@, applied@, 0) {
                Some(error) => Err::<(), MigrationError>(error),
                None => Ok(()),
            },
    {
        let mut index: usize = 0;
        while index < applied.len()
            invariant
                index <= applied@.len(),
                ledger_fault(self@, applied@, 0) == ledger_fault(self@, applied@, index as int),
            decreases applied@.len() - index,
        {
            let record = &applied[index];
            if index >= self.migrations.len() {
                return Err(MigrationError::Unknown { version: record.version });
            }
            let migration = &self.migrations[index];
            assert(self@[index as int] == migration@);
            if migration.version != record.version {
                return Err(
                    if self.defines(record.version) {
                        MigrationError::Pending { version: migration.version }
                    } else {
                        MigrationError::Unknown { version: record.version }
                    },
                );
            }
            if migration.checksum != record.checksum {
                return Err(MigrationError::ChecksumMismatch { version: record.version });
            }
            index += 1;
        }
        Ok(())
    }

    /// Checks that the ledger matches the set and that nothing is pending.
    pub fn verify_current(&self, applied: &[AppliedMigration]) -> (result: Result<
        (),
        MigrationError,
    >)
        ensures
            result == match ledger_fault(self@, applied@, 0) {
                Some(error) => Err::<(), MigrationError>(error),
                None => if pending_from(self@, last_version(applied@)) < self@.len() {
                    Err(
                        MigrationError::Pending {
                            version: self@[pending_from(
                                self@,
                                last_version(applied@),
                            ) as int].version,
                        },
                    )
                } else {
                    Ok(())
                },
            },
    {
        match self.verify(applied) {
            Err(error) => {
                return Err(error);
            },
            Ok(()) => {},
        }
        let index = self.first_pending(recorded_version(applied));
        if index < self.migrations.len() {
            assert(self@[index as int] == self.migrations@[index as int]@);
            Err(MigrationError::Pending { version: self.migrations[index].version })
        } else {
            Ok(())
        }
    }
}

impl Clone for MigrationSet {
    fn clone(&self) -> (copy: Self)
        ensures
            copy@ == self@,
    {
        proof {
            use_type_invariant(self);
        }
        let mut migrations: Vec<Migration> = Vec::new();
        let mut index: usize = 0;
        while index < self.migrations.len()
            invariant
                index <= self.migrations@.len(),
                migrations@.len() == index,
                forall|i: int|
                    0 <= i < index ==> (#[trigger] migrations@[i])@ == self.migrations@[i]@,
            decreases self.migrations@.len() - index,
        {
            migrations.push(self.migrations[index].clone());
            index += 1;
        }
        assert(migrations_view(migrations@) =~= migrations_view(self.migrations@));
        MigrationSet { migrations }
    }
}

/// The highest version a ledger records.
pub open spec fn last_version(applied: Seq<AppliedMigration>) -> Option<u64> {
    if applied.len() == 0 {
        None
    } else {
        Some(applied.last().version)
    }
}

fn recorded_version(applied: &[AppliedMigration]) -> (version: Option<u64>)
    ensures
        version == last_version(applied@),
{
    if applied.len() == 0 {
        None
    } else {
        Some(applied[applied.len() - 1].version)
    }
}

/// Result of one migration run.
#[derive(Clone, Debug, PartialEq, Eq)]
pub struct MigrationReport {
    /// Versions applied by this run, in order.
    pub applied: Vec<u64>,
    /// Highest version recorded in the ledger afterwards.
    pub current_version: Option<u64>,
}

impl Default for MigrationReport {
    fn default() -> (report: Self)
        ensures
            report.applied@.len() == 0,
            report.current_version is None,
    {
        MigrationReport { applied: Vec::new(), current_version: None }
    }
}

/// The versions of a list of migrations.
pub open spec fn versions(set: Seq<MigrationView>) -> Seq<u64> {
    set.map_values(|migration: MigrationView| migration.version)
}

/// One run over the pending migrations of a set: the caller applies each
/// migration it is handed and reports back before it is handed the next.
pub struct MigrationRun {
    set: MigrationSet,
    first: usize,
    position: usize,
    report: MigrationReport,
}

impl MigrationRun {
    #[verifier::type_invariant]
    spec fn well_formed(self) -> bool {
        &&& self.first <= self.position <= self.set@.len()
        &&& self.report.applied@ == versions(
            self.set@.subrange(self.first as int, self.position as int),
        )
        &&& self.position > self.first ==> self.report.current_version == Some(
            self.set@[self.position - 1].version,
        )
    }

    /// The set being applied.
    pub closed spec fn migrations(self) -> Seq<MigrationView> {
        self.set@
    }

    /// Where the run began.
    pub closed spec fn first(self) -> nat {
        self.first as nat
    }

    /// Where the run stands.
    pub closed spec fn position(self) -> nat {
        self.position as nat
    }

    /// The highest version known to be recorded.
    pub closed spec fn current(self) -> Option<u64> {
        self.report.current_version
    }

    /// Starts a run against what the ledger already records.
    pub fn start(set: MigrationSet, applied: &[AppliedMigration]) -> (result: Result<
        Self,
        MigrationError,
    >)
        ensures
            match result {
                Ok(run) => {
                    &&& ledger_fault(set@, applied@, 0) is None
                    &&& run.migrations() == set@
                    &&& run.first() == pending_from(set@, last_version(applied@))
                    &&& run.position() == run.first()
                    &&& run.current() == last_version(applied@)
                },
                Err(error) => ledger_fault(set@, applied@, 0) == Some(error),
            },
    {
        match set.verify(applied) {
            Err(error) => {
                return Err(error);
            },
            Ok(()) => {},
        }
        let current_version = recorded_version(applied);
        let first = set.first_pending(current_version);
        let report = MigrationReport { applied: Vec::new(), current_version };
        assert(report.applied@ =~= versions(set@.subrange(first as int, first as int)));
        Ok(MigrationRun { set, first, position: first, report })
    }

    /// The migration to apply next, or nothing when the set is exhausted.
    pub fn next(&self) -> (migration: Option<&Migration>)
        ensures
            match migration {
                Some(migration) => self.position() < self.migrations().len() && migration@
                    == self.migrations()[self.position() as int],
                None => self.position() >= self.migrations().len(),
            },
    {
        if self.position < self.set.migrations.len() {
            assert(self.set@[self.position as int] == self.set.migrations@[self.position as int]@);
            Some(&self.set.migrations[self.position])
        } else {
            None
        }
    }

    /// Records that the migration handed out last was applied.
    pub fn applied(self) -> (run: Self)
        requires
            self.position() < self.migrations().len(),
        ensures
            run.migrations() == self.migrations(),
            run.first() == self.first(),
            run.position() == self.position() + 1,
            run.current() == Some(self.migrations()[self.position() as int].version),
    {
        proof {
            use_type_invariant(&self);
        }
        let count: usize = self.set.migrations.len();
        assert(self.position < count);
        let version = self.set.migrations[self.position].version;
        assert(self.set@[self.position as int].version == version);
        let mut applied = self.report.applied;
        applied.push(version);
        let report = MigrationReport { applied, current_version: Some(version) };
        assert(report.applied@ =~= versions(
            self.set@.subrange(self.first as int, self.position + 1),
        ));
        MigrationRun { set: self.set, first: self.first, position: self.position + 1, report }
    }

    /// What the run has done so far.
    pub fn report(self) -> (report: MigrationReport)
        ensures
            report.applied@ == versions(
                self.migrations().subrange(self.first() as int, self.position() as int),
            ),
            report.current_version == self.current(),
    {
        proof {
            use_type_invariant(&self);
        }
        self.report
    }
}

/// Applying every pending migration brings the ledger up to date: the records
/// that verified before, followed by one record per pending migration, verify
/// again and leave nothing pending.
pub proof fn law_migrating_completes_the_ledger(
    set: Seq<MigrationView>,
    applied: Seq<AppliedMigration>,
    after: Seq<AppliedMigration>,
)
    requires
        increasing(set),
        ledger_fault(set, applied, 0) is None,
        after.len() == set.len(),
        after.take(applied.len() as int) == applied,
        forall|i: int|
            applied.len() <= i < set.len() ==> (#[trigger] after[i]).version == set[i].version
                && after[i].checksum == set[i].checksum,
    ensures
        pending_from(set, last_version(applied)) == applied.len(),
        ledger_fault(set, after, 0) is None,
        pending_from(set, last_version(after)) == set.len(),
{
    law_verified_ledgers_are_prefixes(set, applied);
    assert forall|i: int| 0 <= i < after.len() implies (#[trigger] after[i]).version
        == set[i].version && after[i].checksum == set[i].checksum by {
        if i < applied.len() {
            assert(after.take(applied.len() as int)[i] == applied[i]);
        }
    }
    law_verified_ledgers_are_prefixes(set, after);
    if applied.len() > 0 {
        lemma_covered_prefix(set, applied.last().version, applied.len() as int);
    }
    if after.len() > 0 {
        lemma_covered_prefix(set, after.last().version, after.len() as int);
    }
}

proof fn lemma_covered_prefix(set: Seq<MigrationView>, version: u64, count: int)
    requires
        increasing(set),
        0 < count <= set.len(),
        set[count - 1].version == version,
    ensures
        covered(set, version) == count,
{
    lemma_covered_bounds(set, version);
    let n = covered(set, version);
    if n < count {
        assert(n == count - 1 || set[n as int].version < set[count - 1].version);
    }
    if n > count {
        assert(set[count - 1].version < set[count].version);
        assert(set[count].version <= version);
    }
}

// ---------------------------------------------------------------------------
// Failures
// ---------------------------------------------------------------------------

/// Stable failure classes handlers match without knowing the driver.
#[derive(Clone, Copy, Debug, PartialEq, Eq, Structural)]
pub enum ErrorKind {
    /// A connection could not be acquired or was lost mid-operation.
    Connection,
    /// An acquisition or an operation exceeded its deadline.
    Timeout,
    /// The driver rejected the statement for a constraint violation.
    Constraint,
    /// The connection pool or the blocking pool has no free capacity.
    Saturated,
    /// Any other adapter failure.
    Other,
}

/// The label of a failure class.
pub open spec fn label_of(kind: ErrorKind) -> Seq<char> {
    match kind {
        ErrorKind::Connection => "database connection failed"@,
        ErrorKind::Timeout => "database operation timed out"@,
        ErrorKind::Constraint => "database constraint violated"@,
        ErrorKind::Saturated => "database pool is saturated"@,
        ErrorKind::Other => "database operation failed"@,
    }
}

impl ErrorKind {
    /// Returns a stable label for logs and metrics.
    #[must_use]
    pub fn label(self) -> (label: &'static str)
        ensures
            label@ == label_of(self),
    {
        match self {
            ErrorKind::Connection => "database connection failed",
            ErrorKind::Timeout => "database operation timed out",
            ErrorKind::Constraint => "database constraint violated",
            ErrorKind::Saturated => "database pool is saturated",
            ErrorKind::Other => "database operation failed",
        }
    }
}

/// A transaction operation that panicked and was rolled back.
#[derive(Clone, Copy, Debug, PartialEq, Eq, Structural)]
pub struct TransactionPanic;

impl TransactionPanic {
    /// The message shown for the failure.
    #[must_use]
    pub fn to_string(&self) -> (text: String)
        ensures
            text@ == "database transaction panicked and was rolled back"@,
    {
        "database transaction panicked and was rolled back".to_owned()
    }
}

/// What ended a transaction before it could commit.
#[derive(Clone, Debug, PartialEq, Eq)]
pub enum OperationEnd<E> {
    Failed(E),
    Panicked(TransactionPanic),
}

/// An operation failure plus the rollback failure that followed it.
#[derive(Clone, Debug, PartialEq, Eq)]
pub struct RollbackFailure<E> {
    operation: OperationEnd<E>,
    rollback: E,
}

impl<E> RollbackFailure<E> {
    pub closed spec fn spec_operation(self) -> OperationEnd<E> {
        self.operation
    }

    pub closed spec fn spec_rollback(self) -> E {
        self.rollback
    }

    fn new(operation: OperationEnd<E>, rollback: E) -> (failure: Self)
        ensures
            failure.spec_operation() == operation,
            failure.spec_rollback() == rollback,
    {
        RollbackFailure { operation, rollback }
    }

    /// Borrows the operation error that started the rollback.
    #[must_use]
    pub fn operation(&self) -> (operation: &OperationEnd<E>)
        ensures
            *operation == self.spec_operation(),
    {
        &self.operation
    }

    /// Borrows the failure raised by the rollback itself.
    #[must_use]
    pub fn rollback(&self) -> (rollback: &E)
        ensures
            *rollback == self.spec_rollback(),
    {
        &self.rollback
    }

    /// The failure as shown to people, where `operation` and `rollback` are
    /// the texts of the two errors.
    #[must_use]
    pub fn message(&self, operation: &str, rollback: &str) -> (text: String)
        ensures
            text@ == operation@ + "; rollback also failed: "@ + rollback@,
    {
        let mut text = operation.to_owned();
        text.append("; rollback also failed: ");
        text.append(rollback);
        text
    }
}

/// The preserved cause of a database failure.
#[derive(Clone, Debug, PartialEq, Eq)]
pub enum FailureSource<E> {
    /// The driver's own error.
    Driver(E),
    /// The blocking pool could not run the work.
    Blocking(BlockingError),
    /// The ledger disagrees with the migration set.
    Migration(MigrationError),
    /// The transaction panicked.
    Panicked(TransactionPanic),
    /// The rollback after a failed operation failed too.
    RolledBack(RollbackFailure<E>),
}

/// A database failure carrying a stable class and the preserved cause.
///
/// The cause is preserved rather than turned into text, so an adapter's own
/// error is recoverable while handlers keep matching on the class.
#[derive(Clone, Debug, PartialEq, Eq)]
pub struct DatabaseError<E> {
    kind: ErrorKind,
    source: FailureSource<E>,
}

/// The class of a blocking-pool failure.
pub open spec fn blocking_kind(error: BlockingError) -> ErrorKind {
    match error {
        BlockingError::Saturated => ErrorKind::Saturated,
        _ => ErrorKind::Other,
    }
}

impl<E> DatabaseError<E> {
    pub closed spec fn spec_kind(self) -> ErrorKind {
        self.kind
    }

    pub closed spec fn spec_source(self) -> FailureSource<E> {
        self.source
    }

    /// Wraps a cause under a stable class.
    #[must_use]
    pub fn new(kind: ErrorKind, source: FailureSource<E>) -> (error: Self)
        ensures
            error.spec_kind() == kind,
            error.spec_source() == source,
    {
        DatabaseError { kind, source }
    }

    /// Classifies a blocking-pool failure.
    #[must_use]
    pub fn blocking(error: BlockingError) -> (failure: Self)
        ensures
            failure.spec_kind() == blocking_kind(error),
            failure.spec_source() == FailureSource::<E>::Blocking(error),
    {
        let kind = match error {
            BlockingError::Saturated => ErrorKind::Saturated,
            BlockingError::Unavailable
            | BlockingError::Panicked
            | BlockingError::AlreadyConfigured => ErrorKind::Other,
        };
        DatabaseError { kind, source: FailureSource::Blocking(error) }
    }

    /// Returns the stable failure class.
    #[must_use]
    pub fn kind(&self) -> (kind: ErrorKind)
        ensures
            kind == self.spec_kind(),
    {
        self.kind
    }

    /// Borrows the preserved cause.
    #[must_use]
    pub fn source_error(&self) -> (source: &FailureSource<E>)
        ensures
            *source == self.spec_source(),
    {
        &self.source
    }

    /// Borrows the preserved driver error, where the driver is the cause.
    #[must_use]
    pub fn downcast_ref(&self) -> (driver: Option<&E>)
        ensures
            match driver {
                Some(error) => self.spec_source() == FailureSource::Driver(*error),
                None => !(self.spec_source() is Driver),
            },
    {
        match &self.source {
            FailureSource::Driver(error) => Some(error),
            _ => None,
        }
    }

    /// Takes ownership of the preserved cause.
    #[must_use]
    pub fn into_source(self) -> (source: FailureSource<E>)
        ensures
            source == self.spec_source(),
    {
        self.source
    }

    /// The failure as shown to people, where `source` is the text of its
    /// cause.
    #[must_use]
    pub fn message(&self, source: &str) -> (text: String)
        ensures
            text@ == label_of(self.spec_kind()) + ": "@ + source@,
    {
        let mut text = self.kind.label().to_owned();
        text.append(": ");
        text.append(source);
        text
    }
}

impl<E> From<BlockingError> for DatabaseError<E> {
    fn from(error: BlockingError) -> (failure: Self)
        ensures
            failure.spec_kind() == blocking_kind(error),
            failure.spec_source() == FailureSource::<E>::Blocking(error),
    {
        DatabaseError::blocking(error)
    }
}

impl<E> vstd::std_specs::convert::FromSpecImpl<BlockingError> for DatabaseError<E> {
    open spec fn obeys_from_spec() -> bool {
        true
    }

    closed spec fn from_spec(error: BlockingError) -> Self {
        DatabaseError { kind: blocking_kind(error), source: FailureSource::Blocking(error) }
    }
}

// ---------------------------------------------------------------------------
// Transaction control
// ---------------------------------------------------------------------------

/// What the caller does next on behalf of a transaction.
pub enum TransactionAction<T, E> {
    /// Acquire a connection.
    Acquire,
    /// Begin the transaction with the requested options.
    Begin,
    /// Run the operation.
    Run,
    /// Commit the transaction.
    Commit,
    /// Roll the transaction back.
    Rollback,
    /// Return to the caller.
    Return(Result<T, DatabaseError<E>>),
}

/// What came of the last action. Failures carry the class the pool gave them.
pub enum TransactionEvent<T, E> {
    /// The last acquisition, begin, commit or rollback succeeded.
    Done,
    /// The operation returned a value.
    Succeeded(T),
    /// The last step failed in the driver.
    Failed { kind: ErrorKind, error: E },
    /// The operation panicked.
    Panicked { kind: ErrorKind },
}

/// Where a transaction stands.
pub enum TransactionPhase<T, E> {
    Acquiring,
    Beginning,
    Running,
    /// The operation succeeded with a value that is returned after the commit.
    Committing(T),
    /// The operation ended badly and is reported after the rollback.
    RollingBack { kind: ErrorKind, end: OperationEnd<E> },
    Finished,
}

/// Whether an event can follow in a phase: only the operation succeeds with a
/// value or panics.
pub open spec fn expected<T, E>(
    phase: TransactionPhase<T, E>,
    event: TransactionEvent<T, E>,
) -> bool {
    match phase {
        TransactionPhase::Finished => false,
        TransactionPhase::Running => !(event is Done),
        _ => event is Done || event is Failed,
    }
}

/// The next phase and action.
pub open spec fn transaction_step<T, E>(
    phase: TransactionPhase<T, E>,
    event: TransactionEvent<T, E>,
    next: TransactionPhase<T, E>,
    action: TransactionAction<T, E>,
) -> bool {
    match (phase, event) {
        (TransactionPhase::Acquiring, TransactionEvent::Done) => next
            is Beginning && action is Begin,
        (TransactionPhase::Beginning, TransactionEvent::Done) => next is Running && action is Run,
        (
            TransactionPhase::Acquiring | TransactionPhase::Beginning
            | TransactionPhase::Committing(_),
            TransactionEvent::Failed { kind, error },
        ) => next is Finished && (action matches TransactionAction::Return(Err(failure))
            && failure.spec_kind() == kind && failure.spec_source() == FailureSource::Driver(error)),
        (TransactionPhase::Running, TransactionEvent::Succeeded(value)) => next
            == TransactionPhase::<T, E>::Committing(value) && action is Commit,
        (TransactionPhase::Running, TransactionEvent::Failed { kind, error }) => next
            == TransactionPhase::<T, E>::RollingBack { kind, end: OperationEnd::Failed(error) }
            && action is Rollback,
        (TransactionPhase::Running, TransactionEvent::Panicked { kind }) => next
            == TransactionPhase::<T, E>::RollingBack {
            kind,
            end: OperationEnd::Panicked(TransactionPanic),
        } && action is Rollback,
        (TransactionPhase::Committing(value), TransactionEvent::Done) => next is Finished && action
            == TransactionAction::<T, E>::Return(Ok(value)),
        (TransactionPhase::RollingBack { kind, end }, TransactionEvent::Done) => next
            is Finished && (action matches TransactionAction::Return(Err(failure))
            && failure.spec_kind() == kind && failure.spec_source() == (match end {
            OperationEnd::Failed(error) => FailureSource::Driver(error),
            OperationEnd::Panicked(panic) => FailureSource::Panicked(panic),
        })),
        (
            TransactionPhase::RollingBack { kind, end },
            TransactionEvent::Failed { kind: _, error },
        ) => next is Finished && (action matches TransactionAction::Return(Err(failure))
            && failure.spec_kind() == kind && (failure.spec_source() matches FailureSource::RolledBack(
            both,
        ) && both.spec_operation() == end && both.spec_rollback() == error)),
        _ => false,
    }
}

/// Decides what follows an event. A transaction is committed when its
/// operation succeeded and rolled back when it failed or panicked; a rollback
/// that fails too is reported under the class of the operation.
pub fn advance_transaction<T, E>(
    phase: TransactionPhase<T, E>,
    event: TransactionEvent<T, E>,
) -> (step: (TransactionPhase<T, E>, TransactionAction<T, E>))
    requires
        expected(phase, event),
    ensures
        transaction_step(phase, event, step.0, step.1),
{
    match (phase, event) {
        (TransactionPhase::Acquiring, TransactionEvent::Done) => {
            (TransactionPhase::Beginning, TransactionAction::Begin)
        },
        (TransactionPhase::Beginning, TransactionEvent::Done) => {
            (TransactionPhase::Running, TransactionAction::Run)
        },
        (TransactionPhase::Running, TransactionEvent::Succeeded(value)) => {
            (TransactionPhase::Committing(value), TransactionAction::Commit)
        },
        (TransactionPhase::Running, TransactionEvent::Failed { kind, error }) => {
            (
                TransactionPhase::RollingBack { kind, end: OperationEnd::Failed(error) },
                TransactionAction::Rollback,
            )
        },
        (TransactionPhase::Running, TransactionEvent::Panicked { kind }) => {
            (
                TransactionPhase::RollingBack {
                    kind,
                    end: OperationEnd::Panicked(TransactionPanic),
                },
                TransactionAction::Rollback,
            )
        },
        (TransactionPhase::Committing(value), TransactionEvent::Done) => {
            (TransactionPhase::Finished, TransactionAction::Return(Ok(value)))
        },
        (TransactionPhase::RollingBack { kind, end }, TransactionEvent::Done) => {
            let source = match end {
                OperationEnd::Failed(error) => FailureSource::Driver(error),
                OperationEnd::Panicked(panic) => FailureSource::Panicked(panic),
            };
            (
                TransactionPhase::Finished,
                TransactionAction::Return(Err(DatabaseError::new(kind, source))),
            )
        },
        (
            TransactionPhase::RollingBack { kind, end },
            TransactionEvent::Failed { kind: _, error },
        ) => {
            let source = FailureSource::RolledBack(RollbackFailure::new(end, error));
            (
                TransactionPhase::Finished,
                TransactionAction::Return(Err(DatabaseError::new(kind, source))),
            )
        },
        (_, TransactionEvent::Failed { kind, error }) => {
            (
                TransactionPhase::Finished,
                TransactionAction::Return(
                    Err(DatabaseError::new(kind, FailureSource::Driver(error))),
                ),
            )
        },
        (_, _) => {
            (TransactionPhase::Finished, TransactionAction::Acquire)
        },
    }
}

/// A transaction that began is closed exactly once: it commits only after its
/// operation succeeded, rolls back only after it failed or panicked, and
/// reports success only after the commit.
pub proof fn law_transactions_close_once<T, E>(
    phase: TransactionPhase<T, E>,
    event: TransactionEvent<T, E>,
    next: TransactionPhase<T, E>,
    action: TransactionAction<T, E>,
)
    requires
        expected(phase, event),
        transaction_step(phase, event, next, action),
    ensures
        action is Commit <==> phase is Running && event is Succeeded,
        action is Rollback <==> phase is Running && !(event is Succeeded),
        action is Return <==> next is Finished,
        (action matches TransactionAction::Return(Ok(_))) ==> phase is Committing && event is Done,
        next is Committing <==> action is Commit,
        next is RollingBack <==> action is Rollback,
        next is Running ==> phase is Beginning,
{
}

/// A set is in order if and only if every version is above the one before it; a
/// version that is reported as out of order does not rise above its predecessor.
pub proof fn law_disorder_is_what_it_says(set: Seq<MigrationView>)
    ensures
        first_disorder(set, 1) is None <==> forall|i: int, j: int|
            0 <= i < j < set.len() ==> (#[trigger] set[i]).version < (#[trigger] set[j]).version,
        first_disorder(set, 1) matches Some(version) ==> exists|i: int|
            0 < i < set.len() && (#[trigger] set[i]).version == version && version <= set[i
                - 1].version,
{
    lemma_disorder(set, 1);
    if first_disorder(set, 1) is None {
        lemma_ordered_set(set, 1);
        lemma_increasing(set);
    }
}

proof fn lemma_disorder(set: Seq<MigrationView>, at: int)
    requires
        1 <= at,
    ensures
        first_disorder(set, at) matches Some(version) ==> exists|i: int|
            at <= i < set.len() && (#[trigger] set[i]).version == version && version <= set[i
                - 1].version,
    decreases set.len() - at,
{
    if at < set.len() {
        if set[at].version <= set[at - 1].version {
            assert(set[at].version == set[at].version);
        } else {
            lemma_disorder(set, at + 1);
        }
    }
}

/// What is reported of a ledger is so: an unknown migration is defined nowhere or
/// is recorded behind the last one, a changed migration was recorded with another
/// checksum than it has, and a pending one was skipped by a later record.
pub proof fn law_ledger_faults_are_what_they_say(
    set: Seq<MigrationView>,
    applied: Seq<AppliedMigration>,
)
    ensures
        match ledger_fault(set, applied, 0) {
            Some(MigrationError::Unknown { version }) => exists|i: int|
                0 <= i < applied.len() && (#[trigger] applied[i]).version == version && (i
                    >= set.len() || forall|k: int|
                    0 <= k < set.len() ==> (#[trigger] set[k]).version != version),
            Some(MigrationError::ChecksumMismatch { version }) => exists|i: int|
                0 <= i < applied.len() && i < set.len() && (#[trigger] applied[i]).version
                    == version && set[i].version == version && applied[i].checksum
                    != set[i].checksum,
            Some(MigrationError::Pending { version }) => exists|i: int|
                0 <= i < applied.len() && i < set.len() && set[i].version == version && (
                #[trigger] applied[i]).version != version,
            Some(MigrationError::OutOfOrder { .. }) => false,
            None => true,
        },
{
    lemma_ledger_told(set, applied, 0);
}

proof fn lemma_ledger_told(set: Seq<MigrationView>, applied: Seq<AppliedMigration>, at: int)
    requires
        0 <= at,
    ensures
        match ledger_fault(set, applied, at) {
            Some(MigrationError::Unknown { version }) => exists|i: int|
                0 <= i < applied.len() && (#[trigger] applied[i]).version == version && (i
                    >= set.len() || forall|k: int|
                    0 <= k < set.len() ==> (#[trigger] set[k]).version != version),
            Some(MigrationError::ChecksumMismatch { version }) => exists|i: int|
                0 <= i < applied.len() && i < set.len() && (#[trigger] applied[i]).version
                    == version && set[i].version == version && applied[i].checksum
                    != set[i].checksum,
            Some(MigrationError::Pending { version }) => exists|i: int|
                0 <= i < applied.len() && i < set.len() && set[i].version == version && (
                #[trigger] applied[i]).version != version,
            Some(MigrationError::OutOfOrder { .. }) => false,
            None => true,
        },
    decreases applied.len() - at,
{
    if at < applied.len() {
        lemma_ledger_told(set, applied, at + 1);
        assert(applied[at].version == applied[at].version);
    }
}

/// A transaction reports what happened: the value of its operation once that is
/// committed, and otherwise the error that ended it. A failed operation keeps its
/// own error and kind, also where the rollback fails too.
pub proof fn law_transactions_report_what_happened<T, E>(
    phase: TransactionPhase<T, E>,
    event: TransactionEvent<T, E>,
    next: TransactionPhase<T, E>,
    action: TransactionAction<T, E>,
)
    requires
        transaction_step(phase, event, next, action),
    ensures
        action matches TransactionAction::Return(Ok(value)) ==> phase == TransactionPhase::<
            T,
            E,
        >::Committing(value),
        next matches TransactionPhase::Committing(value) ==> event == TransactionEvent::<
            T,
            E,
        >::Succeeded(value),
        next matches TransactionPhase::RollingBack { kind, end: OperationEnd::Failed(error) }
            ==> event == (TransactionEvent::<T, E>::Failed { kind, error }),
        next matches TransactionPhase::RollingBack { end: OperationEnd::Panicked(_), .. }
            ==> event is Panicked,
        phase matches TransactionPhase::RollingBack { kind, end: OperationEnd::Failed(error) } ==> (
        action matches TransactionAction::Return(Err(failure)) && failure.spec_kind() == kind && (
        failure.spec_source() == FailureSource::Driver(error) || (
        failure.spec_source() matches FailureSource::RolledBack(both) && both.spec_operation()
            == OperationEnd::Failed(error)))),
        phase is Acquiring && event is Done ==> action is Begin,
        phase is Beginning && event is Done ==> action is Run,
{
}

/// A saturated blocking pool is reported as saturation, and nothing else of it is.
pub proof fn law_only_saturation_is_saturation(error: BlockingError)
    ensures
        blocking_kind(error) is Saturated <==> error is Saturated,
        !(error is Saturated) ==> blocking_kind(error) is Other,
{
}

} // verus!
