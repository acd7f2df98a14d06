//! The object model consumed by the reference layer: object kinds, the
//! mutable object variants, tree entries with their serialization, and
//! the little parsing the resolver needs (a tree's entry list, a tag's
//! target line).

use vstd::prelude::*;
use crate::bytestr::{ascii_of, bytes_eq, bytes_extend};
use crate::hash::{hex_decoded, is_hex_seq, ObjectId, ID_LEN};

verus! {

broadcast use vstd::string::is_ascii_spec_bytes;

/// The kind of a stored object.
#[derive(Debug, Clone, Copy, PartialEq, Eq, Structural, Hash)]
pub enum Kind {
    /// A directory listing.
    Tree,
    /// File content.
    Blob,
    /// A commit.
    Commit,
    /// An annotated tag.
    Tag,
}

/// File content, kept as raw bytes.
#[derive(Debug, Clone)]
pub struct Blob {
    /// The raw bytes of the blob.
    pub data: Vec<u8>,
}

/// A commit; its encoding is handled elsewhere, so the payload is kept
/// opaque.
#[derive(Debug, Clone)]
pub struct Commit {
    /// The serialized commit payload.
    pub data: Vec<u8>,
}

/// An annotated tag; the payload is kept opaque but for the leading
/// `object <hex-id>` line the resolver reads.
#[derive(Debug, Clone)]
pub struct Tag {
    /// The serialized tag payload.
    pub data: Vec<u8>,
}

/// The modes a tree entry can carry.
#[derive(Debug, Clone, Copy, PartialEq, Eq, Structural, Hash)]
pub enum EntryMode {
    /// A subdirectory.
    Tree,
    /// An ordinary file.
    Blob,
    /// An executable file.
    BlobExecutable,
    /// A symbolic link.
    Link,
    /// A submodule commit.
    Commit,
}

/// The mode's representation in the internal format.
pub open spec fn spec_mode_bytes(m: EntryMode) -> Seq<u8> {
    match m {
        EntryMode::Tree => ascii_of("40000"@),
        EntryMode::Blob => ascii_of("100644"@),
        EntryMode::BlobExecutable => ascii_of("100755"@),
        EntryMode::Link => ascii_of("120000"@),
        EntryMode::Commit => ascii_of("160000"@),
    }
}

impl EntryMode {
    /// The representation as used in the internal format.
    pub fn as_bytes(&self) -> (r: Vec<u8>)
        ensures
            r@ == spec_mode_bytes(*self),
    {
        proof {
            reveal_strlit("40000");
            reveal_strlit("100644");
            reveal_strlit("100755");
            reveal_strlit("120000");
            reveal_strlit("160000");
            assert(vstd::string::is_ascii("40000"));
            assert(vstd::string::is_ascii("100644"));
            assert(vstd::string::is_ascii("100755"));
            assert(vstd::string::is_ascii("120000"));
            assert(vstd::string::is_ascii("160000"));
        }
        match self {
            EntryMode::Tree => crate::bytestr::str_bytes("40000"),
            EntryMode::Blob => crate::bytestr::str_bytes("100644"),
            EntryMode::BlobExecutable => crate::bytestr::str_bytes("100755"),
            EntryMode::Link => crate::bytestr::str_bytes("120000"),
            EntryMode::Commit => crate::bytestr::str_bytes("160000"),
        }
    }
}

/// An entry in a tree: the mode, the name within the parent tree, and the
/// identity of the object entered.
#[derive(Debug, Clone)]
pub struct Entry {
    /// The kind of object `oid` points to.
    pub mode: EntryMode,
    /// The name of the file in the parent tree.
    pub filename: Vec<u8>,
    /// The identity of the object representing the entry.
    pub oid: ObjectId,
}

/// The mathematical value of an [`Entry`].
pub struct EntryV {
    /// The mode.
    pub mode: EntryMode,
    /// The file name bytes.
    pub filename: Seq<u8>,
    /// The identity bytes.
    pub oid: Seq<u8>,
}

impl View for Entry {
    type V = EntryV;

    open spec fn view(&self) -> EntryV {
        EntryV { mode: self.mode, filename: self.filename@, oid: self.oid@ }
    }
}

/// A tree, containing other trees, blobs or commits. Entries must be and
/// remain sorted by file name.
#[derive(Debug, Clone)]
pub struct Tree {
    /// The entries of this tree.
    pub entries: Vec<Entry>,
}

/// The serialization of one entry: mode, blank, file name, a zero byte,
/// and the raw identity.
pub open spec fn spec_tree_entry_bytes(e: EntryV) -> Seq<u8> {
    spec_mode_bytes(e.mode) + seq![32u8] + e.filename + seq![0u8] + e.oid
}

/// The serialization of a list of entries.
pub open spec fn spec_tree_bytes(entries: Seq<EntryV>) -> Seq<u8>
    decreases entries.len(),
{
    if entries.len() == 0 {
        Seq::empty()
    } else {
        spec_tree_entry_bytes(entries[0]) + spec_tree_bytes(entries.skip(1))
    }
}

proof fn lemma_tree_bytes_snoc(entries: Seq<EntryV>, e: EntryV)
    ensures
        spec_tree_bytes(entries.push(e)) == spec_tree_bytes(entries) + spec_tree_entry_bytes(e),
    decreases entries.len(),
{
    if entries.len() == 0 {
        assert(entries.push(e)[0] == e);
        assert(entries.push(e).skip(1) =~= Seq::<EntryV>::empty());
        assert(spec_tree_bytes(entries.push(e).skip(1)) == Seq::<u8>::empty());
        assert(spec_tree_bytes(entries.push(e)) =~= spec_tree_bytes(entries)
            + spec_tree_entry_bytes(e));
    } else {
        assert(entries.push(e)[0] == entries[0]);
        assert(entries.push(e).skip(1) =~= entries.skip(1).push(e));
        lemma_tree_bytes_snoc(entries.skip(1), e);
        assert(spec_tree_entry_bytes(entries[0]) + (spec_tree_bytes(entries.skip(1))
            + spec_tree_entry_bytes(e)) =~= (spec_tree_entry_bytes(entries[0]) + spec_tree_bytes(
            entries.skip(1),
        )) + spec_tree_entry_bytes(e));
    }
}

/// The views of an entry list.
pub open spec fn entries_of(entries: Seq<Entry>) -> Seq<EntryV> {
    entries.map_values(|e: Entry| e@)
}

/// A file name holds a newline, which the format cannot carry.
#[derive(Debug, Clone)]
pub struct NewlineInFilename {
    /// The offending file name.
    pub name: Vec<u8>,
}

/// Does the byte sequence hold a newline?
pub open spec fn has_newline(s: Seq<u8>) -> bool {
    exists|i: int| 0 <= i < s.len() && s[i] == 10
}

/// Decides whether `s` holds a newline.
pub fn contains_newline(s: &Vec<u8>) -> (r: bool)
    ensures
        r == has_newline(s@),
{
    let n: usize = s.len();
    let mut i: usize = 0;
    while i < n
        invariant
            n == s@.len(),
            i <= n,
            forall|t: int| 0 <= t < i ==> s@[t] != 10,
        decreases n - i,
    {
        if s[i] == 10 {
            return true;
        }
        i += 1;
    }
    false
}

impl Tree {
    /// Serializes this tree in the internal format, appending to `out`;
    /// a file name holding a newline is rejected and nothing further is
    /// appended.
    pub fn write_to(&self, out: &mut Vec<u8>) -> (r: Result<(), NewlineInFilename>)
        ensures
            r is Ok <==> forall|t: int|
                0 <= t < entries_of(self.entries@).len() ==> !has_newline(
                    #[trigger] entries_of(self.entries@)[t].filename,
                ),
            r is Ok ==> final(out)@ == old(out)@ + spec_tree_bytes(entries_of(self.entries@)),
    {
        let ghost evs = entries_of(self.entries@);
        let n: usize = self.entries.len();
        let mut i: usize = 0;
        proof {
            assert(spec_tree_bytes(evs.take(0)) =~= Seq::<u8>::empty());
            assert(out@ =~= old(out)@ + spec_tree_bytes(evs.take(0)));
        }
        while i < n
            invariant
                n == self.entries@.len(),
                evs == entries_of(self.entries@),
                evs.len() == n,
                i <= n,
                forall|t: int| 0 <= t < i ==> !has_newline(#[trigger] evs[t].filename),
                out@ == old(out)@ + spec_tree_bytes(evs.take(i as int)),
            decreases n - i,
        {
            let e = &self.entries[i];
            proof {
                assert(evs[i as int] == self.entries@[i as int]@);
            }
            if contains_newline(&e.filename) {
                proof {
                    assert(has_newline(entries_of(self.entries@)[i as int].filename));
                }
                return Err(NewlineInFilename { name: crate::bytestr::bytes_clone(&e.filename) });
            }
            let mode = e.mode.as_bytes();
            bytes_extend(out, &mode);
            out.push(32);
            bytes_extend(out, &e.filename);
            out.push(0);
            bytes_extend(out, e.oid.as_bytes());
            proof {
                lemma_tree_bytes_snoc(evs.take(i as int), evs[i as int]);
                assert(evs.take(i + 1) =~= evs.take(i as int).push(evs[i as int]));
                assert(out@ =~= old(out)@ + spec_tree_bytes(evs.take(i + 1)));
            }
            i += 1;
        }
        proof {
            assert(evs.take(n as int) =~= evs);
        }
        Ok(())
    }
}

/// A mutable object: a tree, blob, commit or tag.
#[derive(Debug, Clone)]
pub enum Object {
    /// A directory listing.
    Tree(Tree),
    /// File content.
    Blob(Blob),
    /// A commit.
    Commit(Commit),
    /// An annotated tag.
    Tag(Tag),
}

impl Object {
    /// Returns the blob, if it is one.
    pub fn as_blob(&self) -> (r: Option<&Blob>)
        ensures
            r is Some <==> self is Blob,
            r is Some ==> r->0 == self->Blob_0,
    {
        match self {
            Object::Blob(v) => Some(v),
            _ => None,
        }
    }

    /// Returns the commit, if it is one.
    pub fn as_commit(&self) -> (r: Option<&Commit>)
        ensures
            r is Some <==> self is Commit,
            r is Some ==> r->0 == self->Commit_0,
    {
        match self {
            Object::Commit(v) => Some(v),
            _ => None,
        }
    }

    /// Returns the tree, if it is one.
    pub fn as_tree(&self) -> (r: Option<&Tree>)
        ensures
            r is Some <==> self is Tree,
            r is Some ==> r->0 == self->Tree_0,
    {
        match self {
            Object::Tree(v) => Some(v),
            _ => None,
        }
    }

    /// Returns the tag, if it is one.
    pub fn as_tag(&self) -> (r: Option<&Tag>)
        ensures
            r is Some <==> self is Tag,
            r is Some ==> r->0 == self->Tag_0,
    {
        match self {
            Object::Tag(v) => Some(v),
            _ => None,
        }
    }

    /// The kind of object stored in this instance.
    pub fn kind(&self) -> (r: Kind)
        ensures
            r == Kind::Tree <==> self is Tree,
            r == Kind::Blob <==> self is Blob,
            r == Kind::Commit <==> self is Commit,
            r == Kind::Tag <==> self is Tag,
    {
        match self {
            Object::Tree(_) => Kind::Tree,
            Object::Blob(_) => Kind::Blob,
            Object::Commit(_) => Kind::Commit,
            Object::Tag(_) => Kind::Tag,
        }
    }

    /// Writes the contained object in the serialization format, appending
    /// to `out`; payloads held opaquely are appended as they are.
    pub fn write_to(&self, out: &mut Vec<u8>) -> (r: Result<(), NewlineInFilename>)
        ensures
            match self {
                Object::Tree(t) => {
                    &&& (r is Ok <==> forall|u: int|
                        0 <= u < entries_of(t.entries@).len() ==> !has_newline(
                            #[trigger] entries_of(t.entries@)[u].filename,
                        ))
                    &&& r is Ok ==> final(out)@ == old(out)@ + spec_tree_bytes(
                        entries_of(t.entries@),
                    )
                },
                Object::Blob(b) => r is Ok && final(out)@ == old(out)@ + b.data@,
                Object::Commit(c) => r is Ok && final(out)@ == old(out)@ + c.data@,
                Object::Tag(t) => r is Ok && final(out)@ == old(out)@ + t.data@,
            },
    {
        match self {
            Object::Tree(v) => v.write_to(out),
            Object::Blob(v) => {
                bytes_extend(out, &v.data);
                Ok(())
            },
            Object::Commit(v) => {
                bytes_extend(out, &v.data);
                Ok(())
            },
            Object::Tag(v) => {
                bytes_extend(out, &v.data);
                Ok(())
            },
        }
    }

    /// Gives up the object as a tree, or hands it back unchanged.
    pub fn try_into_tree(self) -> (r: Result<Tree, Object>)
        ensures
            r is Ok <==> self is Tree,
            r is Ok ==> r->Ok_0 == self->Tree_0,
            r is Err ==> r->Err_0 == self,
    {
        match self {
            Object::Tree(v) => Ok(v),
            other => Err(other),
        }
    }
}

/// The identity named on a tag's leading `object <hex-id>` line, if the
/// payload starts with one.
pub open spec fn spec_tag_target(data: Seq<u8>) -> Option<Seq<u8>> {
    if data.len() >= 7 + 2 * ID_LEN + 1 && data.take(7) == ascii_of("object "@) && is_hex_seq(
        data.subrange(7, 7 + 2 * ID_LEN as int),
    ) && data[7 + 2 * ID_LEN as int] == 10 {
        Some(hex_decoded(data.subrange(7, 7 + 2 * ID_LEN as int)))
    } else {
        None
    }
}

/// Reads the target identity from a tag payload.
pub fn tag_target(data: &Vec<u8>) -> (r: Option<ObjectId>)
    ensures
        r is Some <==> spec_tag_target(data@) is Some,
        r is Some ==> Some(r->0@) == spec_tag_target(data@) && crate::hash::id_wf(r->0),
{
    proof {
        reveal_strlit("object ");
        assert(vstd::string::is_ascii("object "));
    }
    let lead = crate::bytestr::str_bytes("object ");
    if data.len() < 7 + 2 * ID_LEN + 1 {
        return None;
    }
    let head = crate::bytestr::bytes_range(data, 0, 7);
    if !bytes_eq(&head, &lead) {
        proof {
            assert(data@.take(7) != ascii_of("object "@));
        }
        return None;
    }
    let hexpart = crate::bytestr::bytes_range(data, 7, 7 + 2 * ID_LEN);
    if data[7 + 2 * ID_LEN] != 10 {
        return None;
    }
    match ObjectId::from_hex(&hexpart) {
        Some(id) => Some(id),
        None => {
            proof {
                assert(!is_hex_seq(data@.subrange(7, 7 + 2 * ID_LEN as int)));
            }
            None
        },
    }
}

} // verus!

verus! {

/// The first position at or after `i` holding byte `b`, or the length.
pub open spec fn spec_scan(data: Seq<u8>, i: int, b: u8) -> int
    decreases data.len() - i,
{
    if i < data.len() {
        if data[i] == b {
            i
        } else {
            spec_scan(data, i + 1, b)
        }
    } else {
        data.len() as int
    }
}

proof fn lemma_scan(data: Seq<u8>, i: int, b: u8)
    requires
        0 <= i <= data.len(),
    ensures
        i <= spec_scan(data, i, b) <= data.len(),
    decreases data.len() - i,
{
    if i < data.len() && data[i] != b {
        lemma_scan(data, i + 1, b);
    }
}

/// The mode a mode-field's bytes denote, if any.
pub open spec fn spec_mode_of(s: Seq<u8>) -> Option<EntryMode> {
    if s == spec_mode_bytes(EntryMode::Tree) {
        Some(EntryMode::Tree)
    } else if s == spec_mode_bytes(EntryMode::Blob) {
        Some(EntryMode::Blob)
    } else if s == spec_mode_bytes(EntryMode::BlobExecutable) {
        Some(EntryMode::BlobExecutable)
    } else if s == spec_mode_bytes(EntryMode::Link) {
        Some(EntryMode::Link)
    } else if s == spec_mode_bytes(EntryMode::Commit) {
        Some(EntryMode::Commit)
    } else {
        None
    }
}

/// The entries a tree's raw bytes denote from position `i` on: each entry
/// is a known mode, a blank, a non-empty file name, a zero byte, and the
/// raw identity; or nothing when the format is broken.
pub open spec fn spec_parse_tree(data: Seq<u8>, i: int) -> Option<Seq<EntryV>>
    decreases data.len() - i,
    when 0 <= i <= data.len()
    via spec_parse_tree_dec
{
    if i >= data.len() {
        Some(Seq::empty())
    } else {
        let sp = spec_scan(data, i, 32);
        if sp >= data.len() || spec_mode_of(data.subrange(i, sp)) is None {
            None
        } else {
            let nul = spec_scan(data, sp + 1, 0);
            if nul >= data.len() || nul == sp + 1 || nul + 1 + ID_LEN > data.len() {
                None
            } else {
                let entry = EntryV {
                    mode: spec_mode_of(data.subrange(i, sp))->0,
                    filename: data.subrange(sp + 1, nul),
                    oid: data.subrange(nul + 1, nul + 1 + ID_LEN as int),
                };
                match spec_parse_tree(data, nul + 1 + ID_LEN as int) {
                    Some(rest) => Some(seq![entry] + rest),
                    None => None,
                }
            }
        }
    }
}

#[via_fn]
proof fn spec_parse_tree_dec(data: Seq<u8>, i: int) {
    if 0 <= i < data.len() {
        lemma_scan(data, i, 32);
        let sp = spec_scan(data, i, 32);
        if sp < data.len() {
            lemma_scan(data, sp + 1, 0);
        }
    }
}

/// Finds the end of the field starting at `i`.
fn scan_byte(data: &Vec<u8>, i: usize, b: u8) -> (r: usize)
    requires
        i <= data@.len(),
    ensures
        r == spec_scan(data@, i as int, b),
        i <= r <= data@.len(),
        r < data@.len() ==> data@[r as int] == b,
    decreases data@.len() - i,
{
    let n: usize = data.len();
    let mut j: usize = i;
    while j < n && data[j] != b
        invariant
            i <= j <= n == data@.len(),
            spec_scan(data@, i as int, b) == spec_scan(data@, j as int, b),
        decreases n - j,
    {
        j += 1;
    }
    j
}

/// Reads the mode a field's bytes denote.
fn mode_of(s: &Vec<u8>) -> (r: Option<EntryMode>)
    ensures
        r == spec_mode_of(s@),
{
    proof {
        reveal_strlit("40000");
        reveal_strlit("100644");
        reveal_strlit("100755");
        reveal_strlit("120000");
        reveal_strlit("160000");
        assert(vstd::string::is_ascii("40000"));
        assert(vstd::string::is_ascii("100644"));
        assert(vstd::string::is_ascii("100755"));
        assert(vstd::string::is_ascii("120000"));
        assert(vstd::string::is_ascii("160000"));
    }
    if bytes_eq(s, &crate::bytestr::str_bytes("40000")) {
        Some(EntryMode::Tree)
    } else if bytes_eq(s, &crate::bytestr::str_bytes("100644")) {
        Some(EntryMode::Blob)
    } else if bytes_eq(s, &crate::bytestr::str_bytes("100755")) {
        Some(EntryMode::BlobExecutable)
    } else if bytes_eq(s, &crate::bytestr::str_bytes("120000")) {
        Some(EntryMode::Link)
    } else if bytes_eq(s, &crate::bytestr::str_bytes("160000")) {
        Some(EntryMode::Commit)
    } else {
        None
    }
}

/// Parses a tree's raw bytes into its entries.
pub fn parse_tree(data: &Vec<u8>) -> (r: Option<Vec<Entry>>)
    ensures
        match r {
            Some(v) => spec_parse_tree(data@, 0) == Some(entries_of(v@)),
            None => spec_parse_tree(data@, 0) is None,
        },
{
    let n: usize = data.len();
    let mut out: Vec<Entry> = Vec::new();
    let mut i: usize = 0;
    proof {
        assert(entries_of(out@) =~= Seq::<EntryV>::empty());
    }
    #[verifier::loop_isolation(false)]
    while i < n
        invariant
            i <= n,
            spec_parse_tree(data@, 0) == (match spec_parse_tree(data@, i as int) {
                Some(rest) => Some(entries_of(out@) + rest),
                None => None::<Seq<EntryV>>,
            }),
        decreases n - i,
    {
        let sp = scan_byte(data, i, 32);
        if sp >= n {
            return None;
        }
        let modefield = crate::bytestr::bytes_range(data, i, sp);
        proof {
            assert(modefield@ =~= data@.subrange(i as int, sp as int));
        }
        let mode = match mode_of(&modefield) {
            Some(m) => m,
            None => {
                return None;
            },
        };
        let nul = scan_byte(data, sp + 1, 0);
        if nul >= n || nul == sp + 1 || n - nul <= ID_LEN {
            return None;
        }
        let filename = crate::bytestr::bytes_range(data, sp + 1, nul);
        let oid_bytes = crate::bytestr::bytes_range(data, nul + 1, nul + 1 + ID_LEN);
        let oid = ObjectId::from_bytes(oid_bytes);
        let ghost entry = EntryV {
            mode: spec_mode_of(data@.subrange(i as int, sp as int))->0,
            filename: data@.subrange(sp as int + 1, nul as int),
            oid: data@.subrange(nul as int + 1, nul as int + 1 + ID_LEN as int),
        };
        let ghost old_out = out@;
        out.push(Entry { mode, filename, oid });
        proof {
            entries_facts(old_out);
            entries_facts(out@);
            assert(entries_of(out@) =~= entries_of(old_out).push(entry));
            match spec_parse_tree(data@, nul as int + 1 + ID_LEN as int) {
                Some(rest) => {
                    assert(entries_of(old_out) + (seq![entry] + rest) =~= entries_of(out@) + rest);
                },
                None => {},
            }
        }
        i = nul + 1 + ID_LEN;
    }
    proof {
        assert(entries_of(out@) + Seq::<EntryV>::empty() =~= entries_of(out@));
    }
    Some(out)
}

proof fn entries_facts(s: Seq<Entry>)
    ensures
        entries_of(s).len() == s.len(),
        forall|u: int| 0 <= u < s.len() ==> #[trigger] entries_of(s)[u] == s[u]@,
{
}

/// The first entry of the given file name, in a readable tree; an
/// unreadable tree holds nothing.
pub open spec fn spec_tree_find(data: Seq<u8>, name: Seq<u8>) -> Option<EntryV> {
    match spec_parse_tree(data, 0) {
        Some(es) => spec_entry_named(es, name),
        None => None,
    }
}

/// The first entry of the given file name.
pub open spec fn spec_entry_named(es: Seq<EntryV>, name: Seq<u8>) -> Option<EntryV>
    decreases es.len(),
{
    if es.len() == 0 {
        None
    } else if es[0].filename == name {
        Some(es[0])
    } else {
        spec_entry_named(es.skip(1), name)
    }
}

/// Looks up the entry of one file name in a tree's raw bytes.
pub fn tree_find_entry(data: &Vec<u8>, name: &Vec<u8>) -> (r: Option<Entry>)
    ensures
        match r {
            Some(e) => spec_tree_find(data@, name@) == Some(e@),
            None => spec_tree_find(data@, name@) is None,
        },
{
    let entries = match parse_tree(data) {
        Some(v) => v,
        None => {
            return None;
        },
    };
    let ghost es = entries_of(entries@);
    let n: usize = entries.len();
    let mut i: usize = 0;
    proof {
        entries_facts(entries@);
        assert(es.skip(0) =~= es);
    }
    #[verifier::loop_isolation(false)]
    while i < n
        invariant
            i <= n,
            spec_entry_named(es, name@) == spec_entry_named(es.skip(i as int), name@),
        decreases n - i,
    {
        proof {
            assert(es.skip(i as int)[0] == es[i as int]);
            assert(es.skip(i as int).skip(1) =~= es.skip(i as int + 1));
        }
        if bytes_eq(&entries[i].filename, name) {
            let e = &entries[i];
            return Some(
                Entry {
                    mode: e.mode,
                    filename: crate::bytestr::bytes_clone(&e.filename),
                    oid: e.oid.duplicate(),
                },
            );
        }
        i += 1;
    }
    proof {
        assert(es.skip(n as int) =~= Seq::<EntryV>::empty());
    }
    None
}

} // verus!
