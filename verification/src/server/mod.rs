//! Server: multi-tenant management of clients and databases.
//!
//! A [`GrumpyServer`] is the top-level entry point for multi-tenant use. Each
//! server manages multiple [`Client`]s, each client owns multiple
//! [`Database`](crate::database::Database)s.

use vstd::prelude::*;
use vstd::string::*;

use crate::assoc::{assoc_value, lemma_assoc_rank, lemma_with_assoc, with_assoc};
use crate::error::{GrumpyError, Result};
use crate::naming::{name_error, valid_name, validate_name};
use crate::server::client::{closed_client, Client};
use crate::server::registry::{lemma_without_assoc, without_assoc, Registry};
use crate::text::owned;
use crate::wal::writer::tick_failed;

pub mod client;
pub mod registry;

verus! {

/// A multi-tenant GrumpyDB server managing clients and their databases.
pub struct GrumpyServer {
    /// Named clients.
    pub clients: Registry<Client>,
}

/// `e` reports that there is no client `name`.
pub open spec fn no_client(e: GrumpyError, name: Seq<char>) -> bool {
    e is ClientNotFound && (e->ClientNotFound_0)@ == name
}

/// The key under which a shared handle to a database is kept.
pub fn handle_key(client: &str, database: &str) -> (r: String)
    ensures
        r@ == client@ + "/"@ + database@,
{
    let mut m: String = owned(client);
    m.append("/");
    m.append(database);
    m
}

/// Whether a handle is for a database of a client.
pub fn is_handle_of(key: &str, client: &str) -> (r: bool)
    ensures
        r == (client@ + "/"@).is_prefix_of(key@),
{
    let mut prefix: String = owned(client);
    prefix.append("/");
    let n: usize = prefix.as_str().unicode_len();
    if key.unicode_len() < n {
        return false;
    }
    let front: &str = key.substring_char(0, n);
    let r: bool = crate::text::str_eq(front, prefix.as_str());
    assert(key@.subrange(0, n as int) =~= key@.take(n as int));
    r
}

impl GrumpyServer {
    /// The clients with their names.
    pub open spec fn model(&self) -> Seq<(Seq<char>, Client)> {
        self.clients.model()
    }

    /// The server is in order.
    pub open spec fn wf(&self) -> bool {
        &&& self.clients.wf()
        &&& forall|i: int| 0 <= i < self.model().len() ==> (#[trigger] self.model()[i]).1.wf()
    }

    /// There are sequence numbers left in all logs.
    pub open spec fn wal_room(&self) -> bool {
        forall|i: int| 0 <= i < self.model().len() ==> (#[trigger] self.model()[i]).1.wal_room()
    }

    /// Creates a server without clients.
    pub fn open() -> (r: Self)
        ensures
            r.wf(),
            r.model() == Seq::<(Seq<char>, Client)>::empty(),
    {
        GrumpyServer { clients: Registry::new() }
    }

    /// Adds a client whose databases were opened from their files.
    pub fn attach_client(&mut self, name: &str, client: Client)
        requires
            old(self).wf(),
            client.wf(),
        ensures
            final(self).wf(),
            final(self).model() == with_assoc(old(self).model(), name@, client),
    {
        proof {
            lemma_assoc_rank(self.model(), name@);
        }
        self.clients.put(name, client);
    }

    /// Creates a new client.
    pub fn create_client(&mut self, name: &str) -> (r: Result<()>)
        requires
            old(self).wf(),
        ensures
            final(self).wf(),
            r is Ok == (valid_name(name@) && old(self).clients.value(name@) is None),
            match r {
                Ok(_) => exists|c: Client|
                    c.name@ == name@ && c.model().len() == 0 && final(self).model()
                        == #[trigger] with_assoc(old(self).model(), name@, c),
                Err(e) => {
                    &&& *final(self) == *old(self)
                    &&& if !valid_name(name@) {
                        e is InvalidName && (e->InvalidName_0)@ == name_error(name@)
                    } else {
                        no_client(e, "client '"@ + name@ + "' already exists"@)
                    }
                },
            },
    {
        match validate_name(name) {
            Ok(_) => {},
            Err(e) => {
                return Err(e);
            },
        }
        if self.clients.contains(name) {
            let mut m: String = owned("client '");
            m.append(name);
            m.append("' already exists");
            return Err(GrumpyError::ClientNotFound(m));
        }
        self.attach_client(name, Client::open(name));
        Ok(())
    }

    /// Drops a client with all its databases.
    pub fn drop_client(&mut self, name: &str) -> (r: Result<()>)
        requires
            old(self).wf(),
        ensures
            final(self).wf(),
            final(self).model() == without_assoc(old(self).model(), name@),
            r is Ok == (old(self).clients.value(name@) is Some),
            r matches Err(e) ==> no_client(e, name@),
    {
        proof {
            lemma_assoc_rank(self.model(), name@);
        }
        match self.clients.take(name) {
            Some(_) => Ok(()),
            None => Err(GrumpyError::ClientNotFound(owned(name))),
        }
    }

    /// Returns a mutable reference to a client.
    pub fn client(&mut self, name: &str) -> (r: Result<&mut Client>)
        ensures
            match old(self).clients.value(name@) {
                Some(c) => {
                    &&& r is Ok
                    &&& *(r->Ok_0) == c
                    &&& final(self).model() == with_assoc(
                        old(self).model(),
                        name@,
                        *final(r->Ok_0),
                    )
                },
                None => r is Err && no_client(r->Err_0, name@) && *final(self) == *old(self),
            },
    {
        match self.clients.get_mut(name) {
            Some(c) => Ok(c),
            None => Err(GrumpyError::ClientNotFound(owned(name))),
        }
    }

    /// Lists all client names, in ascending order.
    pub fn list_clients(&self) -> (r: Vec<String>)
        ensures
            r@.len() == self.model().len(),
            forall|i: int| 0 <= i < r@.len() ==> (#[trigger] r@[i])@ == self.model()[i].0,
    {
        self.clients.names()
    }

    /// Closes the server, flushing all clients and databases. Gives the closed
    /// clients back.
    pub fn close(self) -> (r: Result<Vec<(String, Client)>>)
        requires
            self.wf(),
            self.wal_room(),
        ensures
            match r {
                Ok(v) => v@.len() == self.model().len() && (forall|i: int|
                    0 <= i < v@.len() ==> (#[trigger] v@[i]).0@ == self.model()[i].0
                        && closed_client(self.model()[i].1, v@[i].1)),
                Err(e) => exists|i: int, j: int|
                    0 <= i < self.model().len() && 0 <= j < self.model()[i].1.model().len()
                        && tick_failed(
                        (#[trigger] self.model()[i].1.model()[j]).1.wal.clock.state,
                        e,
                    ),
            },
    {
        let ghost s0 = self;
        let mut pending: Vec<(String, Client)> = self.clients.entries;
        let mut out: Vec<(String, Client)> = Vec::new();
        let n: usize = pending.len();
        let mut i: usize = 0;
        while i < n
            invariant
                s0 == self,
                s0.wf(),
                s0.wal_room(),
                i <= n,
                n == s0.clients.entries@.len(),
                pending@ == s0.clients.entries@.skip(i as int),
                out@.len() == i,
                forall|j: int|
                    0 <= j < i ==> (#[trigger] out@[j]).0@ == s0.model()[j].0 && closed_client(
                        s0.model()[j].1,
                        out@[j].1,
                    ),
            decreases n - i,
        {
            let e = pending.remove(0);
            proof {
                assert(e == s0.clients.entries@[i as int]);
                assert(s0.model()[i as int].1.wf());
                assert(s0.model()[i as int].1.wal_room());
                assert(pending@ =~= s0.clients.entries@.skip(i + 1));
            }
            match e.1.close() {
                Ok(c) => {
                    out.push((e.0, c));
                },
                Err(err) => {
                    proof {
                        let m = s0.model()[i as int].1.model();
                        let j = choose|j: int|
                            0 <= j < m.len() && tick_failed((#[trigger] m[j]).1.wal.clock.state, err);
                        assert(tick_failed(
                            s0.model()[i as int].1.model()[j].1.wal.clock.state,
                            err,
                        ));
                    }
                    return Err(err);
                },
            }
            i = i + 1;
        }
        Ok(out)
    }
}

/// A server in order stays so when one of its clients changes and is in order.
pub proof fn law_changed_client(a: GrumpyServer, b: GrumpyServer, name: Seq<char>, c: Client)
    requires
        a.wf(),
        c.wf(),
        b.model() == with_assoc(a.model(), name, c),
    ensures
        b.wf(),
{
    lemma_with_assoc(a.model(), name, c, name);
    lemma_assoc_rank(a.model(), name);
}

/// Clients are isolated: whatever is done to one client, its databases and
/// their documents, the other clients are as they were; and so they are when a
/// client is dropped.
pub proof fn law_client_isolation(
    s: GrumpyServer,
    name: Seq<char>,
    changed: Client,
    other: Seq<char>,
)
    requires
        s.wf(),
        other != name,
    ensures
        assoc_value(with_assoc(s.model(), name, changed), name) == Some(changed),
        assoc_value(with_assoc(s.model(), name, changed), other) == s.clients.value(other),
        assoc_value(without_assoc(s.model(), name), name) is None,
        assoc_value(without_assoc(s.model(), name), other) == s.clients.value(other),
{
    lemma_with_assoc(s.model(), name, changed, other);
    lemma_without_assoc(s.model(), name, other);
}

/// A handle belongs to the client it was made for, and to no other one with a
/// valid name.
pub proof fn law_handles_apart(client: Seq<char>, database: Seq<char>, other: Seq<char>)
    requires
        valid_name(client),
        valid_name(other),
    ensures
        (other + "/"@).is_prefix_of(client + "/"@ + database) == (other == client),
{
    reveal_strlit("/");
    let key = client + "/"@ + database;
    let p = other + "/"@;
    assert(key[client.len() as int] == '/');
    assert(p[other.len() as int] == '/');
    if other == client {
        assert(key.take(p.len() as int) =~= p);
    } else if p.is_prefix_of(key) {
        assert(key.take(p.len() as int) == p);
        assert(key[other.len() as int] == key.take(p.len() as int)[other.len() as int]);
        if other.len() < client.len() {
            assert(crate::naming::name_char(client[other.len() as int]));
        } else if client.len() < other.len() {
            assert(key.take(p.len() as int)[client.len() as int] == p[client.len() as int]);
            assert(crate::naming::name_char(other[client.len() as int]));
        } else {
            assert forall|i: int| 0 <= i < client.len() implies client[i] == other[i] by {
                assert(key.take(p.len() as int)[i] == p[i]);
            }
            assert(client =~= other);
        }
    }
}

} // verus!
