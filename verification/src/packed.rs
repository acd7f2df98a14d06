//! Packed references: many references held as sorted lines of one file.
//!
//! Each line is `<hex-id> <name>`, optionally followed by a line
//! `^<hex-id>` that records the peeled annotation of the entry before it;
//! lines starting with `#` are headers and skipped. Entries must appear in
//! strictly ascending name order, which the loader checks and the
//! binary-search lookup relies on.

use vstd::prelude::*;
use crate::bytestr::{bytes_lt, bytes_range, lemma_lex_total, lemma_lex_trans, lex_lt};
use crate::hash::{hex_decoded, hex_encoded, is_hex_seq, ObjectId, ID_LEN};
use crate::name::{name_valid, FullName};

verus! {

/// The mathematical value of one packed entry.
pub struct EntryView {
    /// The entry's name bytes.
    pub name: Seq<u8>,
    /// The identity the line carries.
    pub target: Seq<u8>,
    /// The peeled annotation, if an annotation line follows.
    pub object: Option<Seq<u8>>,
}

/// One reference parsed out of the packed file. Packed references are
/// always peeled: the line carries an identity, never another name.
#[derive(Debug, Clone)]
pub struct Reference {
    /// The full name of the reference.
    pub name: FullName,
    /// The identity the entry's line carries.
    pub target: ObjectId,
    /// The peeled annotation: for a tag entry, the identity the tag
    /// object ultimately points at.
    pub object: Option<ObjectId>,
}

impl View for Reference {
    type V = EntryView;

    open spec fn view(&self) -> EntryView {
        EntryView {
            name: self.name@,
            target: self.target@,
            object: match self.object {
                Some(id) => Some(id@),
                None => None,
            },
        }
    }
}

/// A well-formed entry value.
pub open spec fn entry_view_wf(e: EntryView) -> bool {
    &&& name_valid(e.name)
    &&& e.target.len() == ID_LEN
    &&& e.object is Some ==> e.object->0.len() == ID_LEN
}

impl Reference {
    /// The identity the entry's line carries.
    pub fn target(&self) -> (r: ObjectId)
        ensures
            r@ == self@.target,
    {
        self.target.duplicate()
    }

    /// The identity of the object the entry names: the peeled annotation
    /// when present, the line's identity otherwise.
    pub fn object(&self) -> (r: ObjectId)
        ensures
            r@ == match self@.object {
                Some(id) => id,
                None => self@.target,
            },
    {
        match &self.object {
            Some(id) => id.duplicate(),
            None => self.target.duplicate(),
        }
    }

    /// A copy of this entry.
    pub fn duplicate(&self) -> (r: Reference)
        ensures
            r@ == self@,
    {
        Reference {
            name: self.name.duplicate(),
            target: self.target.duplicate(),
            object: match &self.object {
                Some(id) => Some(id.duplicate()),
                None => None,
            },
        }
    }
}

/// The views of a record list.
pub open spec fn views_of(records: Seq<Reference>) -> Seq<EntryView> {
    records.map_values(|r: Reference| r@)
}

/// Entry names strictly ascend.
pub open spec fn sorted_names(entries: Seq<EntryView>) -> bool {
    forall|i: int, j: int|
        0 <= i < j < entries.len() ==> lex_lt(#[trigger] entries[i].name, #[trigger] entries[j].name)
}

/// The first position at or after `i` holding a newline, or the length.
pub open spec fn spec_line_end(c: Seq<u8>, i: int) -> int
    decreases c.len() - i,
{
    if i < c.len() {
        if c[i] == 10 {
            i
        } else {
            spec_line_end(c, i + 1)
        }
    } else {
        c.len() as int
    }
}

proof fn lemma_line_end(c: Seq<u8>, i: int)
    requires
        0 <= i <= c.len(),
    ensures
        i <= spec_line_end(c, i) <= c.len(),
    decreases c.len() - i,
{
    if i < c.len() && c[i] != 10 {
        lemma_line_end(c, i + 1);
    }
}

/// The entries denoted by the packed file bytes from position `i` on, or
/// nothing if the format is broken. Order is not checked here.
pub open spec fn spec_parse_packed(c: Seq<u8>, i: int) -> Option<Seq<EntryView>>
    decreases c.len() - i,
    when 0 <= i <= c.len()
    via spec_parse_packed_dec
{
    if i >= c.len() {
        Some(Seq::empty())
    } else {
        let e = spec_line_end(c, i);
        let line = c.subrange(i, e);
        if line.len() > 0 && line[0] == '#' as u8 {
            if e >= c.len() {
                Some(Seq::empty())
            } else {
                spec_parse_packed(c, e + 1)
            }
        } else if line.len() >= 42 && is_hex_seq(line.take(40)) && line[40] == 32 && name_valid(
            line.skip(41),
        ) {
            let entry0 = EntryView {
                name: line.skip(41),
                target: hex_decoded(line.take(40)),
                object: None,
            };
            if e >= c.len() {
                Some(seq![entry0])
            } else {
                let i2 = e + 1;
                let e2 = spec_line_end(c, i2);
                let line2 = c.subrange(i2, e2);
                if line2.len() == 41 && line2[0] == '^' as u8 && is_hex_seq(line2.skip(1)) {
                    let entry = EntryView {
                        name: entry0.name,
                        target: entry0.target,
                        object: Some(hex_decoded(line2.skip(1))),
                    };
                    if e2 >= c.len() {
                        Some(seq![entry])
                    } else {
                        match spec_parse_packed(c, e2 + 1) {
                            Some(rest) => Some(seq![entry] + rest),
                            None => None,
                        }
                    }
                } else {
                    match spec_parse_packed(c, i2) {
                        Some(rest) => Some(seq![entry0] + rest),
                        None => None,
                    }
                }
            }
        } else {
            None
        }
    }
}

#[via_fn]
proof fn spec_parse_packed_dec(c: Seq<u8>, i: int) {
    if 0 <= i < c.len() {
        lemma_line_end(c, i);
        let e = spec_line_end(c, i);
        if e < c.len() {
            lemma_line_end(c, e + 1);
        }
    }
}

/// Every entry a successful parse yields is well formed.
pub proof fn lemma_parse_packed_wf(c: Seq<u8>, i: int)
    requires
        0 <= i <= c.len(),
        spec_parse_packed(c, i) is Some,
    ensures
        forall|k: int|
            0 <= k < spec_parse_packed(c, i)->0.len() ==> entry_view_wf(
                #[trigger] spec_parse_packed(c, i)->0[k],
            ),
    decreases c.len() - i,
{
    if i >= c.len() {
    } else {
        let e = spec_line_end(c, i);
        lemma_line_end(c, i);
        let line = c.subrange(i, e);
        if line.len() > 0 && line[0] == '#' as u8 {
            if e < c.len() {
                lemma_parse_packed_wf(c, e + 1);
            }
        } else {
            let entry0 = EntryView {
                name: line.skip(41),
                target: hex_decoded(line.take(40)),
                object: None,
            };
            assert(entry0.target.len() == ID_LEN);
            if e >= c.len() {
            } else {
                let i2 = e + 1;
                let e2 = spec_line_end(c, i2);
                lemma_line_end(c, i2);
                let line2 = c.subrange(i2, e2);
                if line2.len() == 41 && line2[0] == '^' as u8 && is_hex_seq(line2.skip(1)) {
                    if e2 < c.len() {
                        lemma_parse_packed_wf(c, e2 + 1);
                    }
                } else {
                    lemma_parse_packed_wf(c, i2);
                }
            }
        }
    }
}

/// The packed file could not be understood, or its entries were out of
/// order.
#[derive(Debug, Clone, Copy, PartialEq, Eq, Structural)]
pub enum BufferError {
    /// A line was neither header, entry nor annotation.
    Malformed,
    /// Entries were not in strictly ascending name order.
    Unsorted,
}

/// An immutable, fully-loaded snapshot of the packed file: a sorted
/// sequence of peeled entries.
#[derive(Debug, Clone)]
pub struct Buffer {
    /// The entries, in strictly ascending name order.
    pub records: Vec<Reference>,
}

impl View for Buffer {
    type V = Seq<EntryView>;

    open spec fn view(&self) -> Seq<EntryView> {
        views_of(self.records@)
    }
}

/// A well-formed snapshot: entries well formed and strictly sorted.
pub open spec fn buffer_wf(b: Buffer) -> bool {
    &&& sorted_names(b@)
    &&& forall|k: int| 0 <= k < b@.len() ==> entry_view_wf(#[trigger] b@[k])
}

/// Finds the end of the line starting at `i`.
fn line_end(c: &Vec<u8>, i: usize) -> (r: usize)
    requires
        i <= c@.len(),
    ensures
        r == spec_line_end(c@, i as int),
        i <= r <= c@.len(),
        r < c@.len() ==> c@[r as int] == 10,
{
    let n: usize = c.len();
    let mut j: usize = i;
    while j < n && c[j] != 10
        invariant
            i <= j <= n == c@.len(),
            spec_line_end(c@, i as int) == spec_line_end(c@, j as int),
        decreases n - j,
    {
        j += 1;
    }
    j
}

/// The entry with the given name, by linear scan of the entry values.
pub open spec fn spec_find_name(entries: Seq<EntryView>, name: Seq<u8>) -> Option<EntryView>
    decreases entries.len(),
{
    if entries.len() == 0 {
        None
    } else if entries[0].name == name {
        Some(entries[0])
    } else {
        spec_find_name(entries.skip(1), name)
    }
}

/// In a sorted list, an entry at position `k` with the sought name is what
/// the scan yields.
proof fn lemma_find_name_hit(entries: Seq<EntryView>, name: Seq<u8>, k: int)
    requires
        sorted_names(entries),
        0 <= k < entries.len(),
        entries[k].name == name,
    ensures
        spec_find_name(entries, name) == Some(entries[k]),
    decreases entries.len(),
{
    if k == 0 {
    } else {
        lemma_lex_total(entries[0].name, name);
        assert(lex_lt(entries[0].name, entries[k].name));
        assert(entries.skip(1)[k - 1] == entries[k]);
        assert(sorted_names(entries.skip(1))) by {
            assert(forall|i: int, j: int|
                0 <= i < j < entries.skip(1).len() ==> #[trigger] entries.skip(1)[i]
                    == entries[i + 1] && #[trigger] entries.skip(1)[j] == entries[j + 1]);
        }
        lemma_find_name_hit(entries.skip(1), name, k - 1);
    }
}

/// If no position holds the sought name, the scan yields nothing.
proof fn lemma_find_name_miss(entries: Seq<EntryView>, name: Seq<u8>)
    requires
        forall|k: int| 0 <= k < entries.len() ==> (#[trigger] entries[k].name) != name,
    ensures
        spec_find_name(entries, name) is None,
    decreases entries.len(),
{
    if entries.len() > 0 {
        assert(forall|k: int|
            0 <= k < entries.skip(1).len() ==> #[trigger] entries.skip(1)[k] == entries[k + 1]);
        lemma_find_name_miss(entries.skip(1), name);
    }
}

impl Buffer {
    /// Loads a snapshot from the packed file's bytes: parses every line
    /// and checks that entry names strictly ascend.
    pub fn from_bytes(c: &Vec<u8>) -> (r: Result<Buffer, BufferError>)
        ensures
            r is Ok <==> spec_parse_packed(c@, 0) is Some && sorted_names(
                spec_parse_packed(c@, 0)->0,
            ),
            r is Ok ==> r->Ok_0@ == spec_parse_packed(c@, 0)->0 && buffer_wf(r->Ok_0),
    {
        let n: usize = c.len();
        let mut records: Vec<Reference> = Vec::new();
        let mut i: usize = 0;
        while i < n
            invariant
                i <= n == c@.len(),
                spec_parse_packed(c@, 0) == match spec_parse_packed(c@, i as int) {
                    Some(rest) => Some(views_of(records@) + rest),
                    None => None::<Seq<EntryView>>,
                },
            decreases n - i,
        {
            let e = line_end(c, i);
            let ghost line = c@.subrange(i as int, e as int);
            if e > i && c[i] == '#' as u8 {
                proof {
                    assert(line[0] == '#' as u8);
                }
                if e >= n {
                    proof {
                        assert(spec_parse_packed(c@, i as int) == Some(Seq::<EntryView>::empty()));
                        assert(views_of(records@) + Seq::<EntryView>::empty() =~= views_of(
                            records@,
                        ));
                    }
                    i = n;
                } else {
                    proof {
                        assert(spec_parse_packed(c@, i as int) == spec_parse_packed(c@, e + 1));
                    }
                    i = e + 1;
                }
            } else {
                proof {
                    assert(!(line.len() > 0 && line[0] == '#' as u8));
                }
                if e - i < 42 {
                    proof {
                        assert(line.len() < 42);
                        assert(spec_parse_packed(c@, i as int) is None);
                    }
                    return Err(BufferError::Malformed);
                }
                proof {
                    assert(line.len() >= 42);
                    assert(line.take(40) =~= c@.subrange(i as int, i + 40));
                    assert(line[40] == c@[i + 40]);
                    assert(line.skip(41) =~= c@.subrange(i + 41, e as int));
                }
                let hexpart = bytes_range(c, i, i + 40);
                let id = match ObjectId::from_hex(&hexpart) {
                    Some(id) => id,
                    None => {
                        proof {
                            assert(!is_hex_seq(line.take(40)));
                            assert(spec_parse_packed(c@, i as int) is None);
                        }
                        return Err(BufferError::Malformed);
                    },
                };
                if c[i + 40] != 32 {
                    proof {
                        assert(spec_parse_packed(c@, i as int) is None);
                    }
                    return Err(BufferError::Malformed);
                }
                let namepart = bytes_range(c, i + 41, e);
                let name = match FullName::try_from(namepart) {
                    Ok(name) => name,
                    Err(_) => {
                        proof {
                            assert(!name_valid(line.skip(41)));
                            assert(spec_parse_packed(c@, i as int) is None);
                        }
                        return Err(BufferError::Malformed);
                    },
                };
                let mut rec = Reference { name, target: id, object: None };
                let ghost entry0 = EntryView {
                    name: line.skip(41),
                    target: hex_decoded(line.take(40)),
                    object: None,
                };
                proof {
                    assert(rec@ == entry0);
                }
                let mut next: usize = n;
                let ghost mut tail: int = n as int;
                if e >= n {
                    proof {
                        assert(spec_parse_packed(c@, i as int) == Some(seq![entry0]));
                    }
                } else {
                    let i2 = e + 1;
                    let e2 = line_end(c, i2);
                    let ghost line2 = c@.subrange(i2 as int, e2 as int);
                    let mut annotated: bool = false;
                    if e2 - i2 == 41 && c[i2] == '^' as u8 {
                        proof {
                            assert(line2.len() == 41 && line2[0] == '^' as u8);
                            assert(line2.skip(1) =~= c@.subrange(i2 + 1, e2 as int));
                        }
                        let hexpart2 = bytes_range(c, i2 + 1, e2);
                        match ObjectId::from_hex(&hexpart2) {
                            Some(id2) => {
                                rec.object = Some(id2);
                                annotated = true;
                            },
                            None => {},
                        }
                    }
                    if annotated {
                        proof {
                            assert(rec@ == EntryView {
                                name: entry0.name,
                                target: entry0.target,
                                object: Some(hex_decoded(line2.skip(1))),
                            });
                        }
                        if e2 >= n {
                            next = n;
                            proof {
                                assert(spec_parse_packed(c@, i as int) == Some(seq![rec@]));
                            }
                        } else {
                            next = e2 + 1;
                            proof {
                                tail = e2 + 1;
                                assert(spec_parse_packed(c@, i as int) == (
                                match spec_parse_packed(c@, e2 + 1) {
                                    Some(rest) => Some(seq![rec@] + rest),
                                    None => None::<Seq<EntryView>>,
                                }));
                            }
                        }
                    } else {
                        next = i2;
                        proof {
                            tail = i2 as int;
                            assert(!(line2.len() == 41 && line2[0] == '^' as u8 && is_hex_seq(
                                line2.skip(1),
                            )));
                            assert(spec_parse_packed(c@, i as int) == (match spec_parse_packed(
                                c@,
                                i2 as int,
                            ) {
                                Some(rest) => Some(seq![rec@] + rest),
                                None => None::<Seq<EntryView>>,
                            }));
                        }
                    }
                }
                let ghost entry = rec@;
                let ghost old_records = records@;
                records.push(rec);
                proof {
                    assert(views_of(records@) =~= views_of(old_records) + seq![entry]);
                    if next == n && tail == n as int {
                        if spec_parse_packed(c@, i as int) == Some(seq![entry]) {
                            assert(views_of(old_records) + seq![entry] =~= views_of(records@)
                                + Seq::<EntryView>::empty());
                        }
                    } else {
                        match spec_parse_packed(c@, tail) {
                            Some(rest) => {
                                assert(views_of(old_records) + (seq![entry] + rest) =~= views_of(
                                    records@,
                                ) + rest);
                            },
                            None => {},
                        }
                    }
                }
                i = next;
            }
        }
        proof {
            assert(spec_parse_packed(c@, n as int) == Some(Seq::<EntryView>::empty()));
            assert(views_of(records@) + Seq::<EntryView>::empty() =~= views_of(records@));
            assert(spec_parse_packed(c@, 0) == Some(views_of(records@)));
        }
        // names must strictly ascend
        let m: usize = records.len();
        let mut k: usize = 1;
        while k < m
            invariant
                m == 0 || 1 <= k <= m,
                m == records@.len(),
                spec_parse_packed(c@, 0) == Some(views_of(records@)),
                forall|t: int|
                    1 <= t < k ==> lex_lt(
                        #[trigger] views_of(records@)[t - 1].name,
                        views_of(records@)[t].name,
                    ),
            decreases m - k,
        {
            proof {
                assert(views_of(records@)[k - 1] == records@[k - 1]@);
                assert(views_of(records@)[k as int] == records@[k as int]@);
            }
            if !bytes_lt(records[k - 1].name.as_bytes(), records[k].name.as_bytes()) {
                proof {
                    assert(!lex_lt(
                        views_of(records@)[k - 1].name,
                        views_of(records@)[k as int].name,
                    ));
                    assert(!sorted_names(views_of(records@)));
                }
                return Err(BufferError::Unsorted);
            }
            k += 1;
        }
        proof {
            lemma_sorted_from_adjacent(views_of(records@));
            lemma_parse_packed_wf(c@, 0);
        }
        Ok(Buffer { records })
    }

    /// The number of entries.
    pub fn len(&self) -> (r: usize)
        ensures
            r == self@.len(),
    {
        self.records.len()
    }

    /// The entries, in their sorted order.
    pub fn iter(&self) -> (r: &Vec<Reference>)
        ensures
            views_of(r@) == self@,
    {
        &self.records
    }

    /// Looks up the entry of an exact full name by binary search.
    pub fn find_full_name(&self, name: &Vec<u8>) -> (r: Option<&Reference>)
        requires
            buffer_wf(*self),
        ensures
            match r {
                Some(rec) => spec_find_name(self@, name@) == Some(rec@),
                None => spec_find_name(self@, name@) is None,
            },
    {
        let mut lo: usize = 0;
        let mut hi: usize = self.records.len();
        while lo < hi
            invariant
                buffer_wf(*self),
                lo <= hi <= self@.len(),
                forall|t: int| 0 <= t < lo ==> lex_lt(#[trigger] self@[t].name, name@),
                forall|t: int| hi <= t < self@.len() ==> lex_lt(name@, #[trigger] self@[t].name),
            decreases hi - lo,
        {
            let mid: usize = lo + (hi - lo) / 2;
            let rec = &self.records[mid];
            proof {
                assert(rec@ == self@[mid as int]);
            }
            if bytes_lt(rec.name.as_bytes(), name) {
                proof {
                    assert forall|t: int| 0 <= t < mid + 1 implies lex_lt(
                        #[trigger] self@[t].name,
                        name@,
                    ) by {
                        if t < mid {
                            lemma_lex_trans(self@[t].name, self@[mid as int].name, name@);
                        }
                    }
                }
                lo = mid + 1;
            } else if bytes_lt(name, rec.name.as_bytes()) {
                proof {
                    assert forall|t: int| mid <= t < self@.len() implies lex_lt(
                        name@,
                        #[trigger] self@[t].name,
                    ) by {
                        if t > mid {
                            lemma_lex_trans(name@, self@[mid as int].name, self@[t].name);
                        }
                    }
                }
                hi = mid;
            } else {
                proof {
                    lemma_lex_total(rec@.name, name@);
                    lemma_find_name_hit(self@, name@, mid as int);
                }
                return Some(rec);
            }
        }
        proof {
            assert forall|t: int| 0 <= t < self@.len() implies (#[trigger] self@[t].name)
                != name@ by {
                lemma_lex_total(self@[t].name, name@);
            }
            lemma_find_name_miss(self@, name@);
        }
        None
    }
}

/// The file line (or two lines) of one entry.
pub open spec fn spec_entry_bytes(e: EntryView) -> Seq<u8> {
    hex_encoded(e.target) + seq![32u8] + e.name + seq![10u8] + (match e.object {
        Some(o) => seq!['^' as u8] + hex_encoded(o) + seq![10u8],
        None => Seq::<u8>::empty(),
    })
}

/// The file bytes of a whole entry list.
pub open spec fn spec_serialize(entries: Seq<EntryView>) -> Seq<u8>
    decreases entries.len(),
{
    if entries.len() == 0 {
        Seq::empty()
    } else {
        spec_entry_bytes(entries[0]) + spec_serialize(entries.skip(1))
    }
}

proof fn lemma_serialize_snoc(entries: Seq<EntryView>, e: EntryView)
    ensures
        spec_serialize(entries.push(e)) == spec_serialize(entries) + spec_entry_bytes(e),
    decreases entries.len(),
{
    if entries.len() == 0 {
        assert(entries.push(e)[0] == e);
        assert(entries.push(e).skip(1) =~= Seq::<EntryView>::empty());
        assert(spec_serialize(entries.push(e).skip(1)) == Seq::<u8>::empty());
        assert(spec_serialize(entries.push(e)) =~= spec_serialize(entries) + spec_entry_bytes(e));
    } else {
        assert(entries.push(e)[0] == entries[0]);
        assert(entries.push(e).skip(1) =~= entries.skip(1).push(e));
        lemma_serialize_snoc(entries.skip(1), e);
        assert(spec_serialize(entries.push(e)) == spec_entry_bytes(entries[0]) + spec_serialize(
            entries.skip(1).push(e),
        ));
        assert(spec_serialize(entries) == spec_entry_bytes(entries[0]) + spec_serialize(
            entries.skip(1),
        ));
        assert(spec_entry_bytes(entries[0]) + (spec_serialize(entries.skip(1))
            + spec_entry_bytes(e)) =~= (spec_entry_bytes(entries[0]) + spec_serialize(
            entries.skip(1),
        )) + spec_entry_bytes(e));
    }
}

/// Does `n` occur among `names`?
pub open spec fn name_in(names: Seq<Seq<u8>>, n: Seq<u8>) -> bool {
    exists|k: int| 0 <= k < names.len() && names[k] == n
}

/// The entries that survive deleting every name in `names`, in order.
pub open spec fn spec_kept(entries: Seq<EntryView>, names: Seq<Seq<u8>>) -> Seq<EntryView>
    decreases entries.len(),
{
    if entries.len() == 0 {
        Seq::empty()
    } else if name_in(names, entries[0].name) {
        spec_kept(entries.skip(1), names)
    } else {
        seq![entries[0]] + spec_kept(entries.skip(1), names)
    }
}

proof fn lemma_kept_snoc(entries: Seq<EntryView>, names: Seq<Seq<u8>>, e: EntryView)
    ensures
        spec_kept(entries.push(e), names) == spec_kept(entries, names) + (if name_in(names, e.name) {
            Seq::<EntryView>::empty()
        } else {
            seq![e]
        }),
    decreases entries.len(),
{
    let tail = if name_in(names, e.name) {
        Seq::<EntryView>::empty()
    } else {
        seq![e]
    };
    if entries.len() == 0 {
        assert(entries.push(e)[0] == e);
        assert(entries.push(e).skip(1) =~= Seq::<EntryView>::empty());
        assert(spec_kept(entries.push(e).skip(1), names) == Seq::<EntryView>::empty());
        assert(spec_kept(entries.push(e), names) =~= spec_kept(entries, names) + tail);
    } else {
        assert(entries.push(e)[0] == entries[0]);
        assert(entries.push(e).skip(1) =~= entries.skip(1).push(e));
        lemma_kept_snoc(entries.skip(1), names, e);
        if name_in(names, entries[0].name) {
            assert(spec_kept(entries.push(e), names) == spec_kept(entries.skip(1).push(e), names));
            assert(spec_kept(entries.push(e), names) =~= spec_kept(entries, names) + tail);
        } else {
            assert(spec_kept(entries.push(e), names) == seq![entries[0]] + spec_kept(
                entries.skip(1).push(e),
                names,
            ));
            assert(seq![entries[0]] + (spec_kept(entries.skip(1), names) + tail) =~= (seq![
                entries[0],
            ] + spec_kept(entries.skip(1), names)) + tail);
        }
    }
}

/// The views of a list of names.
pub open spec fn names_of(s: Seq<FullName>) -> Seq<Seq<u8>> {
    s.map_values(|f: FullName| f@)
}

/// Does `n` occur among the names of `names`?
pub fn name_in_list(names: &Vec<FullName>, n: &Vec<u8>) -> (r: bool)
    ensures
        r == name_in(names_of(names@), n@),
{
    let m: usize = names.len();
    let mut k: usize = 0;
    while k < m
        invariant
            m == names@.len(),
            k <= m,
            forall|t: int| 0 <= t < k ==> names_of(names@)[t] != n@,
        decreases m - k,
    {
        if crate::bytestr::bytes_eq(names[k].as_bytes(), n) {
            proof {
                assert(names_of(names@)[k as int] == n@);
            }
            return true;
        }
        k += 1;
    }
    false
}

impl Buffer {
    /// Produces the file bytes left after removing every entry whose name
    /// is among `deletions`, or nothing when no entry survives — the file
    /// itself is then deleted rather than written empty. Entries are only
    /// ever removed or kept as they are; none is added.
    pub fn rewrite(&self, deletions: &Vec<FullName>) -> (r: Option<Vec<u8>>)
        ensures
            r is Some <==> spec_kept(self@, names_of(deletions@)).len() > 0,
            r is Some ==> r->0@ == spec_serialize(spec_kept(self@, names_of(deletions@))),
    {
        let ghost names = names_of(deletions@);
        let mut out: Vec<u8> = Vec::new();
        let mut kept_count: usize = 0;
        let ghost mut keptg: Seq<EntryView> = Seq::empty();
        let n: usize = self.records.len();
        let mut i: usize = 0;
        proof {
            assert(spec_kept(self@.take(0), names) =~= Seq::<EntryView>::empty());
        }
        while i < n
            invariant
                n == self@.len(),
                i <= n,
                names == names_of(deletions@),
                keptg == spec_kept(self@.take(i as int), names),
                kept_count == keptg.len(),
                kept_count <= i,
                out@ == spec_serialize(keptg),
            decreases n - i,
        {
            let rec = &self.records[i];
            proof {
                assert(rec@ == self@[i as int]);
                assert(self@.take(i + 1) =~= self@.take(i as int).push(self@[i as int]));
                lemma_kept_snoc(self@.take(i as int), names, self@[i as int]);
            }
            if !name_in_list(deletions, rec.name.as_bytes()) {
                let hex = rec.target.to_hex();
                crate::bytestr::bytes_extend(&mut out, &hex);
                out.push(32);
                crate::bytestr::bytes_extend(&mut out, rec.name.as_bytes());
                out.push(10);
                match &rec.object {
                    Some(o) => {
                        out.push('^' as u8);
                        let ohex = o.to_hex();
                        crate::bytestr::bytes_extend(&mut out, &ohex);
                        out.push(10);
                    },
                    None => {},
                }
                proof {
                    lemma_serialize_snoc(keptg, rec@);
                    keptg = keptg.push(rec@);
                    assert(keptg =~= spec_kept(self@.take(i + 1), names));
                    assert(out@ =~= spec_serialize(keptg));
                }
                kept_count += 1;
            } else {
                proof {
                    assert(keptg =~= spec_kept(self@.take(i + 1), names));
                }
            }
            i += 1;
        }
        proof {
            assert(self@.take(n as int) =~= self@);
        }
        if kept_count == 0 {
            None
        } else {
            Some(out)
        }
    }

    /// Looks up a partial name: the first of its candidate full names
    /// that an entry carries wins.
    pub fn find(&self, partial: &Vec<u8>) -> (r: Option<Reference>)
        requires
            buffer_wf(*self),
        ensures
            match r {
                Some(rec) => spec_find_partial(self@, crate::name::spec_candidates(partial@))
                    == Some(rec@),
                None => spec_find_partial(self@, crate::name::spec_candidates(partial@)) is None,
            },
    {
        let cands = crate::name::candidate_names(partial);
        let m: usize = cands.len();
        let ghost cviews = crate::name::views_of_bytes(cands@);
        proof {
            assert(cviews.skip(0) =~= cviews);
        }
        let mut k: usize = 0;
        while k < m
            invariant
                buffer_wf(*self),
                m == cands@.len() == cviews.len(),
                cviews == crate::name::views_of_bytes(cands@),
                cviews == crate::name::spec_candidates(partial@),
                k <= m,
                spec_find_partial(self@, cviews) == spec_find_partial(
                    self@,
                    cviews.skip(k as int),
                ),
            decreases m - k,
        {
            proof {
                assert(cviews[k as int] == cands@[k as int]@);
                assert(cviews.skip(k as int)[0] == cviews[k as int]);
            }
            match self.find_full_name(&cands[k]) {
                Some(rec) => {
                    proof {
                        assert(spec_find_partial(self@, cviews.skip(k as int)) == Some(rec@));
                    }
                    return Some(rec.duplicate());
                },
                None => {},
            }
            proof {
                assert(cviews.skip(k as int).skip(1) =~= cviews.skip(k as int + 1));
            }
            k += 1;
        }
        proof {
            assert(cviews.skip(m as int) =~= Seq::<Seq<u8>>::empty());
        }
        None
    }
}

/// What the scan finds is one of the entries.
pub proof fn lemma_find_name_member(entries: Seq<EntryView>, name: Seq<u8>)
    requires
        spec_find_name(entries, name) is Some,
    ensures
        exists|k: int|
            0 <= k < entries.len() && entries[k] == spec_find_name(entries, name)->0,
    decreases entries.len(),
{
    if entries.len() > 0 && entries[0].name != name {
        lemma_find_name_member(entries.skip(1), name);
        let k = choose|k: int|
            0 <= k < entries.skip(1).len() && entries.skip(1)[k] == spec_find_name(
                entries.skip(1),
                name,
            )->0;
        assert(entries[k + 1] == spec_find_name(entries, name)->0);
    }
}

/// Among no entries, nothing is found.
pub proof fn lemma_find_name_empty(name: Seq<u8>)
    ensures
        spec_find_name(Seq::empty(), name) is None,
{
}

/// The first candidate name an entry carries, scanned in candidate order.
pub open spec fn spec_find_partial(entries: Seq<EntryView>, cands: Seq<Seq<u8>>) -> Option<
    EntryView,
>
    decreases cands.len(),
{
    if cands.len() == 0 {
        None
    } else {
        match spec_find_name(entries, cands[0]) {
            Some(e) => Some(e),
            None => spec_find_partial(entries, cands.skip(1)),
        }
    }
}

/// Strict ascent of every adjacent pair gives strict ascent overall.
proof fn lemma_sorted_from_adjacent(entries: Seq<EntryView>)
    requires
        forall|t: int|
            1 <= t < entries.len() ==> lex_lt(#[trigger] entries[t - 1].name, entries[t].name),
    ensures
        sorted_names(entries),
{
    assert forall|i: int, j: int| 0 <= i < j < entries.len() implies lex_lt(
        #[trigger] entries[i].name,
        #[trigger] entries[j].name,
    ) by {
        lemma_lex_chain(entries, i, j);
    }
}

proof fn lemma_lex_chain(entries: Seq<EntryView>, i: int, j: int)
    requires
        forall|t: int|
            1 <= t < entries.len() ==> lex_lt(#[trigger] entries[t - 1].name, entries[t].name),
        0 <= i < j < entries.len(),
    ensures
        lex_lt(entries[i].name, entries[j].name),
    decreases j - i,
{
    if j == i + 1 {
    } else {
        lemma_lex_chain(entries, i, j - 1);
        lemma_lex_trans(entries[i].name, entries[j - 1].name, entries[j].name);
    }
}

} // verus!
