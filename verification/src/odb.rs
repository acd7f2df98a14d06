//! The object database, as the lookup capability the resolver consumes:
//! given an identity, its kind and raw bytes, or nothing.
//!
//! A store chains one primary database with the databases its alternate
//! links name; lookups walk the chain in order.

use vstd::prelude::*;
use crate::hash::ObjectId;
use crate::objects::Kind;

verus! {

/// One stored object.
#[derive(Debug, Clone)]
pub struct StoredObject {
    /// The object's identity.
    pub id: ObjectId,
    /// Its kind.
    pub kind: Kind,
    /// Its raw bytes.
    pub data: Vec<u8>,
}

/// The mathematical value of a [`StoredObject`].
pub struct StoredObjectView {
    /// The identity bytes.
    pub id: Seq<u8>,
    /// The kind.
    pub kind: Kind,
    /// The raw bytes.
    pub data: Seq<u8>,
}

impl View for StoredObject {
    type V = StoredObjectView;

    open spec fn view(&self) -> StoredObjectView {
        StoredObjectView { id: self.id@, kind: self.kind, data: self.data@ }
    }
}

/// One compound database: a set of objects.
#[derive(Debug, Clone)]
pub struct Db {
    /// The objects it holds.
    pub objects: Vec<StoredObject>,
}

/// The views of a database's objects.
pub open spec fn objects_of(objects: Seq<StoredObject>) -> Seq<StoredObjectView> {
    objects.map_values(|o: StoredObject| o@)
}

/// The error returned by [`Store::at`]: nothing can fail in this model,
/// but callers match on the same cases as with a database read from disk.
#[derive(Debug, Clone)]
pub enum Error {
    /// The primary database could not be opened.
    CompoundDbInit,
    /// An alternate link could not be resolved.
    AlternateResolve,
}

/// A store of object databases: one primary and the chain of databases
/// its alternate links name.
#[derive(Debug, Clone)]
pub struct Store {
    /// The databases, primary first.
    pub dbs: Vec<Db>,
}

/// The first object with identity `id` in `objs`, scanned in order.
pub open spec fn spec_db_find(objs: Seq<StoredObjectView>, id: Seq<u8>) -> Option<StoredObjectView>
    decreases objs.len(),
{
    if objs.len() == 0 {
        None
    } else if objs[0].id == id {
        Some(objs[0])
    } else {
        spec_db_find(objs.skip(1), id)
    }
}

/// The first hit across the database chain, primary first.
pub open spec fn spec_store_find(dbs: Seq<Db>, id: Seq<u8>) -> Option<StoredObjectView>
    decreases dbs.len(),
{
    if dbs.len() == 0 {
        None
    } else {
        match spec_db_find(objects_of(dbs[0].objects@), id) {
            Some(o) => Some(o),
            None => spec_store_find(dbs.skip(1), id),
        }
    }
}

impl Db {
    /// Looks up an object by identity.
    pub fn find(&self, id: &ObjectId) -> (r: Option<&StoredObject>)
        ensures
            match r {
                Some(o) => spec_db_find(objects_of(self.objects@), id@) == Some(o@),
                None => spec_db_find(objects_of(self.objects@), id@) is None,
            },
    {
        let ghost objs = objects_of(self.objects@);
        let n: usize = self.objects.len();
        proof {
            assert(objs.skip(0) =~= objs);
        }
        let mut i: usize = 0;
        while i < n
            invariant
                n == self.objects@.len(),
                objs == objects_of(self.objects@),
                objs.len() == n,
                i <= n,
                spec_db_find(objs, id@) == spec_db_find(objs.skip(i as int), id@),
            decreases n - i,
        {
            proof {
                assert(objs.skip(i as int)[0] == objs[i as int]);
                assert(objs.skip(i as int).skip(1) =~= objs.skip(i + 1));
                assert(objs[i as int] == self.objects@[i as int]@);
            }
            if crate::bytestr::bytes_eq(self.objects[i].id.as_bytes(), id.as_bytes()) {
                return Some(&self.objects[i]);
            }
            i += 1;
        }
        proof {
            assert(objs.skip(n as int) =~= Seq::<StoredObjectView>::empty());
        }
        None
    }
}

impl Store {
    /// Builds the chain from the primary database and the databases its
    /// alternate links named, in that order; at least the primary is
    /// always present.
    pub fn at(primary: Db, alternates: Vec<Db>) -> (r: Result<Store, Error>)
        ensures
            r is Ok,
            r->Ok_0.dbs@.len() == 1 + alternates@.len(),
            r->Ok_0.dbs@[0] == primary,
            forall|t: int|
                0 <= t < alternates@.len() ==> r->Ok_0.dbs@[t + 1] == #[trigger] alternates@[t],
    {
        let ghost alts = alternates@;
        let mut rest = alternates;
        let mut dbs: Vec<Db> = Vec::new();
        dbs.push(primary);
        let n: usize = rest.len();
        let mut i: usize = 0;
        while i < n
            invariant
                n == alts.len(),
                i <= n,
                rest@ =~= alts.skip(i as int),
                dbs@.len() == i + 1,
                dbs@[0] == primary,
                forall|t: int| 0 <= t < i ==> #[trigger] dbs@[t + 1] == alts[t],
            decreases n - i,
        {
            let next = rest.remove(0);
            proof {
                assert(alts.skip(i as int)[0] == alts[i as int]);
                assert(alts.skip(i as int).remove(0) =~= alts.skip(i + 1));
            }
            dbs.push(next);
            i += 1;
        }
        Ok(Store { dbs })
    }

    /// Looks up an object across the chain, primary first.
    pub fn find(&self, id: &ObjectId) -> (r: Option<&StoredObject>)
        ensures
            match r {
                Some(o) => spec_store_find(self.dbs@, id@) == Some(o@),
                None => spec_store_find(self.dbs@, id@) is None,
            },
    {
        let n: usize = self.dbs.len();
        proof {
            assert(self.dbs@.skip(0) =~= self.dbs@);
        }
        let mut i: usize = 0;
        while i < n
            invariant
                n == self.dbs@.len(),
                i <= n,
                spec_store_find(self.dbs@, id@) == spec_store_find(self.dbs@.skip(i as int), id@),
            decreases n - i,
        {
            proof {
                assert(self.dbs@.skip(i as int)[0] == self.dbs@[i as int]);
                assert(self.dbs@.skip(i as int).skip(1) =~= self.dbs@.skip(i + 1));
            }
            match self.dbs[i].find(id) {
                Some(o) => {
                    return Some(o);
                },
                None => {},
            }
            i += 1;
        }
        proof {
            assert(self.dbs@.skip(n as int) =~= Seq::<Db>::empty());
        }
        None
    }
}

} // verus!
