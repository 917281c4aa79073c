//! Client: manages multiple named databases for a single tenant.
//!
//! A client is the unit of isolation — each client has their own databases
//! and cannot access databases belonging to other clients.

use vstd::prelude::*;
use vstd::string::*;

use crate::assoc::{assoc_sorted, assoc_value, lemma_assoc_rank, lemma_with_assoc, with_assoc};
use crate::database::tables::same_content;
use crate::database::versions::HistoryM;
use crate::database::{
    file_opened, files_error, files_stored, law_reopened_tables, CollectionFiles, Database,
};
use crate::error::{GrumpyError, Result};
use crate::naming::{name_error, valid_name, validate_name};
use crate::server::registry::{lemma_without_assoc, without_assoc, Registry};
use crate::text::owned;
use crate::uid::{is_random_kind, Uuid};
use crate::wal::applied_set::AppliedSet;
use crate::wal::hlc::{HlcClock, DEFAULT_MAX_SKEW_MS};
use crate::wal::record::{wal_header, WAL_VERSION_CURRENT};
use crate::wal::writer::tick_failed;

verus! {

/// A client containing multiple named databases.
pub struct Client {
    /// Client name.
    pub name: String,
    /// Open databases.
    pub databases: Registry<Database>,
}

/// `e` reports that there is no database `name`.
pub open spec fn no_database(e: GrumpyError, name: Seq<char>) -> bool {
    e is DatabaseNotFound && (e->DatabaseNotFound_0)@ == name
}

/// A database without collections.
pub open spec fn new_database(db: Database) -> bool {
    &&& db.wf()
    &&& db.saved()
    &&& db.tables().len() == 0
    &&& db.wal.node_id == db.node_id
    &&& db.wal_room()
    &&& db.applied_set.marks() == Seq::<(u128, u64)>::empty()
    &&& db.wal.log@ == wal_header(WAL_VERSION_CURRENT)
    &&& db.consistency() == (None::<u16>, None::<u16>)
}

/// From `a` to `b` a database was closed: its documents are the same and all in
/// its files, its log is cut, and its settings are as they were.
pub open spec fn closed_database(a: Database, b: Database) -> bool {
    &&& b.wf()
    &&& b.tables() == a.tables()
    &&& b.saved()
    &&& b.node_id == a.node_id
    &&& b.applied_set == a.applied_set
    &&& b.consistency() == a.consistency()
    &&& same_content(a.collections@, b.collections@)
    &&& b.wal.log@ == wal_header(WAL_VERSION_CURRENT)
}

impl Client {
    /// The client is in order.
    pub open spec fn wf(&self) -> bool {
        &&& self.databases.wf()
        &&& forall|i: int|
            0 <= i < self.databases.model().len() ==> (#[trigger] self.databases.model()[i]).1.wf()
    }

    /// The databases with their names.
    pub open spec fn model(&self) -> Seq<(Seq<char>, Database)> {
        self.databases.model()
    }

    /// There are sequence numbers left in all logs.
    pub open spec fn wal_room(&self) -> bool {
        forall|i: int|
            0 <= i < self.model().len() ==> (#[trigger] self.model()[i]).1.wal.next_lsn < u64::MAX
    }

    /// Creates a client without databases.
    pub fn open(name: &str) -> (r: Self)
        ensures
            r.wf(),
            r.name@ == name@,
            r.model() == Seq::<(Seq<char>, Database)>::empty(),
    {
        Client { name: owned(name), databases: Registry::new() }
    }

    /// Adds a database that was opened from its files.
    pub fn attach_database(&mut self, name: &str, db: Database)
        requires
            old(self).wf(),
            db.wf(),
        ensures
            final(self).wf(),
            final(self).name == old(self).name,
            final(self).model() == with_assoc(old(self).model(), name@, db),
    {
        proof {
            lemma_databases_with(self.model(), name@, db);
        }
        self.databases.put(name, db);
    }

    /// Creates a new database with a random identity.
    pub fn create_database(&mut self, name: &str) -> (r: Result<()>)
        requires
            old(self).wf(),
        ensures
            final(self).wf(),
            final(self).name == old(self).name,
            r is Ok == (valid_name(name@) && old(self).databases.value(name@) is None),
            match r {
                Ok(_) => exists|db: Database|
                    new_database(db) && is_random_kind(db.node_id) && db.wal.clock.max_skew_ms
                        == DEFAULT_MAX_SKEW_MS && db.wal.clock.state.log() == 0 && final(
                        self).model() == #[trigger] with_assoc(old(self).model(), name@, db),
                Err(e) => {
                    &&& *final(self) == *old(self)
                    &&& if !valid_name(name@) {
                        e is InvalidName && (e->InvalidName_0)@ == name_error(name@)
                    } else {
                        no_database(e, "database '"@ + name@ + "' already exists"@)
                    }
                },
            },
    {
        let id: Uuid = Uuid::new_v4();
        self.create_database_with(name, id.as_u128(), HlcClock::new())
    }

    /// Creates a new database with a given identity and clock.
    pub fn create_database_with(&mut self, name: &str, node_id: u128, clock: HlcClock) -> (r: Result<
        (),
    >)
        requires
            old(self).wf(),
        ensures
            final(self).wf(),
            final(self).name == old(self).name,
            r is Ok == (valid_name(name@) && old(self).databases.value(name@) is None),
            match r {
                Ok(_) => exists|db: Database|
                    new_database(db) && db.node_id == node_id && db.wal.clock == clock && final(
                        self).model() == #[trigger] with_assoc(old(self).model(), name@, db),
                Err(e) => {
                    &&& *final(self) == *old(self)
                    &&& if !valid_name(name@) {
                        e is InvalidName && (e->InvalidName_0)@ == name_error(name@)
                    } else {
                        no_database(e, "database '"@ + name@ + "' already exists"@)
                    }
                },
            },
    {
        match validate_name(name) {
            Ok(_) => {},
            Err(e) => {
                return Err(e);
            },
        }
        if self.databases.contains(name) {
            let mut m: String = owned("database '");
            m.append(name);
            m.append("' already exists");
            return Err(GrumpyError::DatabaseNotFound(m));
        }
        match Database::open_with(
            node_id,
            clock,
            &[],
            Vec::new(),
            AppliedSet::default(),
            None,
            None,
        ) {
            Ok(db) => {
                let ghost fresh = db;
                proof {
                    assert(db.tables().len() == 0);
                    lemma_databases_with(self.model(), name@, db);
                }
                self.databases.put(name, db);
                assert(new_database(fresh));
                Ok(())
            },
            Err(e) => Err(e),
        }
    }

    /// Drops a database.
    pub fn drop_database(&mut self, name: &str) -> (r: Result<()>)
        requires
            old(self).wf(),
        ensures
            final(self).wf(),
            final(self).name == old(self).name,
            final(self).model() == without_assoc(old(self).model(), name@),
            r is Ok == (old(self).databases.value(name@) is Some),
            r matches Err(e) ==> no_database(e, name@),
    {
        let ghost l = self.model();
        proof {
            lemma_databases_without(l, name@);
        }
        match self.databases.take(name) {
            Some(_) => Ok(()),
            None => Err(GrumpyError::DatabaseNotFound(owned(name))),
        }
    }

    /// Returns a mutable reference to a database.
    pub fn database(&mut self, name: &str) -> (r: Result<&mut Database>)
        ensures
            final(self).name == old(self).name,
            match old(self).databases.value(name@) {
                Some(db) => {
                    &&& r is Ok
                    &&& *(r->Ok_0) == db
                    &&& final(self).model() == with_assoc(
                        old(self).model(),
                        name@,
                        *final(r->Ok_0),
                    )
                },
                None => r is Err && no_database(r->Err_0, name@) && *final(self) == *old(self),
            },
    {
        match self.databases.get_mut(name) {
            Some(db) => Ok(db),
            None => Err(GrumpyError::DatabaseNotFound(owned(name))),
        }
    }

    /// Lists all database names, in ascending order.
    pub fn list_databases(&self) -> (r: Vec<String>)
        ensures
            r@.len() == self.model().len(),
            forall|i: int| 0 <= i < r@.len() ==> (#[trigger] r@[i])@ == self.model()[i].0,
    {
        self.databases.names()
    }

    /// Returns the client name.
    pub fn name(&self) -> (r: &str)
        ensures
            r@ == self.name@,
    {
        self.name.as_str()
    }

    /// Closes the client, flushing all databases. Gives the client back, with
    /// the databases whose files are then complete.
    pub fn close(self) -> (r: Result<Self>)
        requires
            self.wf(),
            self.wal_room(),
        ensures
            match r {
                Ok(c) => closed_client(self, c),
                Err(e) => exists|i: int|
                    0 <= i < self.model().len() && tick_failed(
                        (#[trigger] self.model()[i]).1.wal.clock.state,
                        e,
                    ),
            },
    {
        let ghost c0 = self;
        let mut c: Client = self;
        let mut i: usize = 0;
        while i < c.databases.entries.len()
            invariant
                c0 == self,
                c0.wf(),
                c0.wal_room(),
                c.name == c0.name,
                i <= c.databases.entries@.len(),
                c.databases.entries@.len() == c0.databases.entries@.len(),
                forall|j: int|
                    0 <= j < c0.model().len() ==> (#[trigger] c.model()[j]).0 == c0.model()[j].0,
                forall|j: int|
                    0 <= j < i ==> closed_database(c0.model()[j].1, (#[trigger] c.model()[j]).1),
                forall|j: int|
                    i <= j < c0.model().len() ==> (#[trigger] c.model()[j]).1 == c0.model()[j].1,
            decreases c.databases.entries@.len() - i,
        {
            let ghost before = c.model();
            assert(before[i as int].1 == c0.model()[i as int].1);
            assert(c0.model()[i as int].1.wf());
            let slot: &mut (String, Database) = &mut c.databases.entries[i];
            match slot.1.flush() {
                Ok(_) => {},
                Err(e) => {
                    assert(tick_failed(c0.model()[i as int].1.wal.clock.state, e));
                    return Err(e);
                },
            }
            proof {
                assert forall|j: int| 0 <= j < c0.model().len() && j != i implies (
                #[trigger] c.model()[j]) == before[j] by {
                }
                assert(c.model()[i as int].0 == before[i as int].0);
            }
            i = i + 1;
        }
        proof {
            let m = c.model();
            assert(assoc_sorted(m)) by {
                assert forall|x: int, y: int| 0 <= x < y < m.len() implies crate::text::text_lt(
                    (#[trigger] m[x]).0,
                    (#[trigger] m[y]).0,
                ) by {
                    assert(crate::text::text_lt(c0.model()[x].0, c0.model()[y].0));
                }
            }
        }
        Ok(c)
    }
}

/// From `a` to `b` a client was closed.
pub open spec fn closed_client(a: Client, b: Client) -> bool {
    &&& b.wf()
    &&& b.name == a.name
    &&& b.model().len() == a.model().len()
    &&& forall|i: int|
        0 <= i < a.model().len() ==> (#[trigger] b.model()[i]).0 == a.model()[i].0
            && closed_database(a.model()[i].1, b.model()[i].1)
}

proof fn lemma_databases_with(l: Seq<(Seq<char>, Database)>, k: Seq<char>, db: Database)
    requires
        assoc_sorted(l),
        forall|i: int| 0 <= i < l.len() ==> (#[trigger] l[i]).1.wf(),
        db.wf(),
    ensures
        forall|i: int|
            0 <= i < with_assoc(l, k, db).len() ==> (#[trigger] with_assoc(l, k, db)[i]).1.wf(),
{
    lemma_assoc_rank(l, k);
}

proof fn lemma_databases_without(l: Seq<(Seq<char>, Database)>, k: Seq<char>)
    requires
        assoc_sorted(l),
        forall|i: int| 0 <= i < l.len() ==> (#[trigger] l[i]).1.wf(),
    ensures
        forall|i: int|
            0 <= i < without_assoc(l, k).len() ==> (#[trigger] without_assoc(l, k)[i]).1.wf(),
{
    lemma_assoc_rank(l, k);
}

/// A client in order stays so when one of its databases changes and is in order.
pub proof fn law_changed_database(a: Client, b: Client, name: Seq<char>, db: Database)
    requires
        a.wf(),
        db.wf(),
        b.model() == with_assoc(a.model(), name, db),
    ensures
        b.wf(),
{
    lemma_with_assoc(a.model(), name, db, name);
    lemma_databases_with(a.model(), name, db);
}

/// What was closed can be opened: the files of every database of a closed client
/// can be opened again, and hold the documents that were there.
pub proof fn law_closed_client_reopens(
    a: Client,
    b: Client,
    i: int,
    files: Seq<CollectionFiles>,
    opened: Database,
)
    requires
        closed_client(a, b),
        0 <= i < a.model().len(),
        files_stored(b.model()[i].1, files),
        opened.versions.wf(),
        opened.versions.model() == Seq::<HistoryM>::empty(),
        opened.writes_since_checkpoint == 0,
        opened.collections@.len() == files.len(),
        forall|j: int|
            0 <= j < files.len() ==> file_opened(#[trigger] opened.collections@[j], files[j]),
    ensures
        b.model()[i].0 == a.model()[i].0,
        files_error(files) is None,
        opened.wf(),
        opened.tables() == a.model()[i].1.tables(),
{
    assert(closed_database(a.model()[i].1, b.model()[i].1));
    law_reopened_tables(b.model()[i].1, files, opened);
}

/// Databases do not touch each other: creating or changing one leaves the
/// others as they were, and so does dropping one.
pub proof fn law_databases_apart(
    l: Seq<(Seq<char>, Database)>,
    name: Seq<char>,
    db: Database,
    other: Seq<char>,
)
    requires
        assoc_sorted(l),
        other != name,
    ensures
        assoc_value(with_assoc(l, name, db), name) == Some(db),
        assoc_value(with_assoc(l, name, db), other) == assoc_value(l, other),
        assoc_value(without_assoc(l, name), name) is None,
        assoc_value(without_assoc(l, name), other) == assoc_value(l, other),
{
    lemma_with_assoc(l, name, db, other);
    lemma_without_assoc(l, name, other);
}

} // verus!
