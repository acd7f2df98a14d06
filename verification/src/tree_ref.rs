//! Walking a path of file names through nested trees: each component is
//! looked up in the current tree's raw bytes, and all but the last must
//! name a subtree that the object lookup can produce.

use vstd::prelude::*;
use crate::hash::ObjectId;
use crate::name::views_of_bytes;
use crate::objects::{spec_tree_find, tree_find_entry, Entry, EntryV, Kind};
use crate::odb::{spec_store_find, Store};

verus! {

/// A subtree object could not be found.
#[derive(Debug)]
pub struct ObjectMissing {
    /// The identity that could not be found.
    pub id: ObjectId,
}

/// A tree, as raw bytes handed out by the object store.
#[derive(Debug, Clone)]
pub struct TreeRef {
    /// The tree's raw bytes.
    pub data: Vec<u8>,
}

/// The walk from position `k` of the path: nothing when a component is
/// absent, the tree unreadable, the path empty, or an inner component no
/// tree; the entry itself for the last component; missing subtree objects
/// are an error carrying their identity.
pub open spec fn spec_lookup_path(
    dbs: Seq<crate::odb::Db>,
    data: Seq<u8>,
    path: Seq<Seq<u8>>,
    k: int,
) -> Result<Option<EntryV>, Seq<u8>>
    decreases path.len() - k,
{
    if k < 0 || k >= path.len() {
        Ok(None)
    } else {
        match spec_tree_find(data, path[k]) {
            None => Ok(None),
            Some(e) => {
                if k == path.len() - 1 {
                    Ok(Some(e))
                } else {
                    match spec_store_find(dbs, e.oid) {
                        None => Err(e.oid),
                        Some(o) => {
                            if o.kind == Kind::Tree {
                                spec_lookup_path(dbs, o.data, path, k + 1)
                            } else {
                                Ok(None)
                            }
                        },
                    }
                }
            },
        }
    }
}

fn lookup_path_at(odb: &Store, data: &Vec<u8>, path: &Vec<Vec<u8>>, k: usize) -> (r: Result<
    Option<Entry>,
    ObjectMissing,
>)
    requires
        k <= path@.len(),
    ensures
        match r {
            Ok(Some(e)) => spec_lookup_path(odb.dbs@, data@, views_of_bytes(path@), k as int)
                == Ok::<Option<EntryV>, Seq<u8>>(Some(e@)),
            Ok(None) => spec_lookup_path(odb.dbs@, data@, views_of_bytes(path@), k as int) == Ok::<
                Option<EntryV>,
                Seq<u8>,
            >(None),
            Err(m) => spec_lookup_path(odb.dbs@, data@, views_of_bytes(path@), k as int) == Err::<
                Option<EntryV>,
                Seq<u8>,
            >(m.id@),
        },
    decreases path@.len() - k,
{
    let ghost paths = views_of_bytes(path@);
    if k == path.len() {
        return Ok(None);
    }
    proof {
        assert(paths[k as int] == path@[k as int]@);
    }
    let entry = match tree_find_entry(data, &path[k]) {
        Some(e) => e,
        None => {
            return Ok(None);
        },
    };
    if k + 1 == path.len() {
        return Ok(Some(entry));
    }
    match odb.find(&entry.oid) {
        None => Err(ObjectMissing { id: entry.oid }),
        Some(o) => {
            if o.kind == Kind::Tree {
                let sub = crate::bytestr::bytes_clone(&o.data);
                lookup_path_at(odb, &sub, path, k + 1)
            } else {
                Ok(None)
            }
        },
    }
}

impl TreeRef {
    /// Walks `path` component by component: the entry the last component
    /// names, nothing when any component is absent along the way or an
    /// inner component is no tree, and an error carrying the identity of
    /// a subtree object the lookup cannot produce.
    pub fn lookup_path(self, odb: &Store, path: &Vec<Vec<u8>>) -> (r: Result<
        Option<Entry>,
        ObjectMissing,
    >)
        ensures
            match r {
                Ok(Some(e)) => spec_lookup_path(odb.dbs@, self.data@, views_of_bytes(path@), 0)
                    == Ok::<Option<EntryV>, Seq<u8>>(Some(e@)),
                Ok(None) => spec_lookup_path(odb.dbs@, self.data@, views_of_bytes(path@), 0)
                    == Ok::<Option<EntryV>, Seq<u8>>(None),
                Err(m) => spec_lookup_path(odb.dbs@, self.data@, views_of_bytes(path@), 0) == Err::<
                    Option<EntryV>,
                    Seq<u8>,
                >(m.id@),
            },
    {
        lookup_path_at(odb, &self.data, path, 0)
    }
}

} // verus!
