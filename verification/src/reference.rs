//! References as found in the store — loose or packed — with symbolic
//! resolution: one hop at a time, or all the way to a direct identity
//! with exact cycle detection over the names visited.

use vstd::prelude::*;
use crate::bytestr::{bytes_clone, bytes_eq, is_prefix};
use crate::hash::ObjectId;
use crate::log::Line;
use crate::loose::{spec_parse_target, ParseError};
use crate::mutable::{target_wf, Kind, Target, TargetView};
use crate::name::{name_valid, spec_candidates, FullName, Namespace};
use crate::odb::{spec_store_find, Db};
use crate::packed::{name_in, spec_find_name, Buffer, EntryView};
use crate::store::{spec_file_at, spec_log_at, LooseFileView, Store};

verus! {

/// What a lookup of one exact name found.
pub enum LookupView {
    /// A loose file: its name and raw content.
    Loose(Seq<u8>, Seq<u8>),
    /// A packed entry.
    Packed(EntryView),
    /// Nothing.
    Missing,
}

/// The entries of an optional packed snapshot.
pub open spec fn packed_entries(packed: Option<&Buffer>) -> Seq<EntryView> {
    match packed {
        Some(b) => b@,
        None => Seq::empty(),
    }
}

/// An optional packed snapshot is well formed when present.
pub open spec fn packed_wf(packed: Option<&Buffer>) -> bool {
    match packed {
        Some(b) => crate::packed::buffer_wf(*b),
        None => true,
    }
}

/// Looks up one exact name: a loose file shadows a packed entry.
pub open spec fn spec_lookup(
    files: Seq<LooseFileView>,
    entries: Seq<EntryView>,
    name: Seq<u8>,
) -> LookupView {
    match spec_file_at(files, name) {
        Some(c) => LookupView::Loose(name, c),
        None => match spec_find_name(entries, name) {
            Some(e) => LookupView::Packed(e),
            None => LookupView::Missing,
        },
    }
}

/// The first candidate name that a lookup finds, in candidate order.
pub open spec fn spec_find_first(
    files: Seq<LooseFileView>,
    entries: Seq<EntryView>,
    cands: Seq<Seq<u8>>,
) -> LookupView
    decreases cands.len(),
{
    if cands.len() == 0 {
        LookupView::Missing
    } else {
        match spec_lookup(files, entries, cands[0]) {
            LookupView::Missing => spec_find_first(files, entries, cands.skip(1)),
            hit => hit,
        }
    }
}

/// Why a reference could not be resolved.
#[derive(Debug)]
pub enum PeelError {
    /// A name on the symbolic chain does not exist.
    NotFound {
        /// The missing name.
        name: FullName,
    },
    /// Content on the chain could not be parsed.
    Parse(ParseError),
    /// The chain revisited a name before reaching a direct identity.
    Cycle {
        /// The repeated name.
        name: FullName,
    },
    /// A tag object's payload did not carry a readable target line.
    TagDecode,
}

/// Either a loose or packed reference, depending on where it was found.
#[derive(Debug, Clone)]
pub enum Reference {
    /// A reference originating in the packed file.
    Packed(crate::packed::Reference),
    /// A reference from its own file.
    Loose(crate::loose::Reference),
}

/// The name of a reference.
pub open spec fn ref_name(r: Reference) -> Seq<u8> {
    match r {
        Reference::Packed(p) => p.name@,
        Reference::Loose(l) => l.name@,
    }
}

/// The target a reference shows: a packed entry shows its line's identity.
pub open spec fn ref_target(r: Reference) -> TargetView {
    match r {
        Reference::Packed(p) => TargetView::Peeled(p.target@),
        Reference::Loose(l) => l.target@,
    }
}

/// A well-formed reference.
pub open spec fn ref_wf(r: Reference) -> bool {
    match r {
        Reference::Packed(p) => crate::packed::entry_view_wf(p@),
        Reference::Loose(l) => crate::loose::loose_ref_wf(l),
    }
}

impl Reference {
    /// Does a reflog exist for this reference's name?
    pub fn log_exists(&self, store: &Store) -> (r: bool)
        ensures
            r == (spec_log_at(store.logs(), ref_name(*self)) is Some),
    {
        match self {
            Reference::Loose(l) => store.reflog_exists(l.name.as_bytes()),
            Reference::Packed(p) => store.reflog_exists(p.name.as_bytes()),
        }
    }

    /// The recorded history of this reference, oldest line first.
    pub fn log_iter(&self, store: &Store) -> (r: Option<Vec<Line>>)
        ensures
            match r {
                Some(lines) => spec_log_at(store.logs(), ref_name(*self)) == Some(
                    crate::log::lines_of(lines@),
                ),
                None => spec_log_at(store.logs(), ref_name(*self)) is None,
            },
    {
        match self {
            Reference::Loose(l) => store.reflog_iter(l.name.as_bytes()),
            Reference::Packed(p) => store.reflog_iter(p.name.as_bytes()),
        }
    }

    /// The recorded history of this reference, newest line first.
    pub fn log_iter_rev(&self, store: &Store) -> (r: Option<Vec<Line>>)
        ensures
            match r {
                Some(lines) => spec_log_at(store.logs(), ref_name(*self)) == Some(
                    crate::log::lines_of(lines@).reverse(),
                ),
                None => spec_log_at(store.logs(), ref_name(*self)) is None,
            },
    {
        match self {
            Reference::Loose(l) => store.reflog_iter_rev(l.name.as_bytes()),
            Reference::Packed(p) => store.reflog_iter_rev(p.name.as_bytes()),
        }
    }

    /// The kind of reference: packed entries are always peeled.
    pub fn kind(&self) -> (r: Kind)
        ensures
            r == Kind::Peeled <==> ref_target(*self) is Peeled,
            r == Kind::Symbolic <==> ref_target(*self) is Symbolic,
    {
        match self {
            Reference::Loose(l) => l.kind(),
            Reference::Packed(_) => Kind::Peeled,
        }
    }

    /// Gives up the reference as an owned target; a packed entry yields
    /// the identity of the object it names, preferring its peeled
    /// annotation.
    pub fn into_target(self) -> (r: Target)
        ensures
            match self {
                Reference::Packed(p) => r@ == TargetView::Peeled(
                    match p@.object {
                        Some(o) => o,
                        None => p@.target,
                    },
                ),
                Reference::Loose(l) => r@ == l.target@,
            },
    {
        match self {
            Reference::Packed(p) => Target::Peeled(p.object()),
            Reference::Loose(l) => l.target,
        }
    }

    /// Is this reference held in the packed file?
    pub fn is_packed(&self) -> (r: bool)
        ensures
            r == (self is Packed),
    {
        match self {
            Reference::Packed(_) => true,
            Reference::Loose(_) => false,
        }
    }

    /// The full validated name, which may include a namespace.
    pub fn name(&self) -> (r: &FullName)
        ensures
            r@ == ref_name(*self),
    {
        match self {
            Reference::Packed(p) => &p.name,
            Reference::Loose(l) => &l.name,
        }
    }

    /// The name with `namespace` stripped, or nothing when the name does
    /// not lie within it or what is left is no valid name.
    pub fn name_without_namespace(&self, namespace: &Namespace) -> (r: Option<FullName>)
        ensures
            r is Some <==> is_prefix(namespace@, ref_name(*self)) && name_valid(
                ref_name(*self).skip(namespace@.len() as int),
            ),
            r is Some ==> r->0@ == ref_name(*self).skip(namespace@.len() as int),
    {
        let stripped = match self {
            Reference::Packed(p) => namespace.strip_from(p.name.as_bytes()),
            Reference::Loose(l) => namespace.strip_from(l.name.as_bytes()),
        };
        match stripped {
            Some(rest) => match FullName::try_from(rest) {
                Ok(name) => Some(name),
                Err(_) => None,
            },
            None => None,
        }
    }

    /// The target the reference points to; a packed entry shows its
    /// line's identity.
    pub fn target(&self) -> (r: Target)
        ensures
            r@ == ref_target(*self),
    {
        match self {
            Reference::Packed(p) => Target::Peeled(p.target()),
            Reference::Loose(l) => l.target.duplicate(),
        }
    }
}

impl Store {
    /// Looks up one exact, valid name: the loose file wins over a packed
    /// entry; unreadable loose content is an error.
    pub fn try_find_exact(&self, packed: Option<&Buffer>, name: &Vec<u8>) -> (r: Result<
        Option<Reference>,
        ParseError,
    >)
        requires
            name_valid(name@),
            packed_wf(packed),
        ensures
            match spec_lookup(self.files(), packed_entries(packed), name@) {
                LookupView::Loose(_, c) => match spec_parse_target(c) {
                    Some(t) => r is Ok && r->Ok_0 is Some && (r->Ok_0->0 matches Reference::Loose(
                        l,
                    ) && l.name@ == name@ && l.target@ == t && target_wf(l.target)),
                    None => r is Err && r->Err_0.content@ == c,
                },
                LookupView::Packed(e) => r is Ok && r->Ok_0 is Some && (r->Ok_0->0
                    matches Reference::Packed(p) && p@ == e),
                LookupView::Missing => r is Ok && r->Ok_0 is None,
            },
    {
        match self.loose_file_content(name) {
            Some(content) => {
                let owned = bytes_clone(content);
                match crate::loose::Reference::try_from_path(
                    FullName::from_valid(bytes_clone(name)),
                    &owned,
                ) {
                    Ok(l) => Ok(Some(Reference::Loose(l))),
                    Err(e) => Err(e),
                }
            },
            None => match packed {
                Some(buf) => match buf.find_full_name(name) {
                    Some(p) => Ok(Some(Reference::Packed(p.duplicate()))),
                    None => Ok(None),
                },
                None => Ok(None),
            },
        }
    }

    /// Looks up a partial name across both backends: for each candidate
    /// full name in order, the loose file wins over a packed entry; the
    /// first hit is returned, and nothing when no candidate exists.
    pub fn find(&self, partial: &Vec<u8>, packed: Option<&Buffer>) -> (r: Result<
        Option<Reference>,
        ParseError,
    >)
        requires
            name_valid(partial@),
            packed_wf(packed),
        ensures
            match spec_find_first(
                self.files(),
                packed_entries(packed),
                spec_candidates(partial@),
            ) {
                LookupView::Loose(nm, c) => match spec_parse_target(c) {
                    Some(t) => r is Ok && r->Ok_0 is Some && (r->Ok_0->0 matches Reference::Loose(
                        l,
                    ) && l.name@ == nm && l.target@ == t && target_wf(l.target)),
                    None => r is Err && r->Err_0.content@ == c,
                },
                LookupView::Packed(e) => r is Ok && r->Ok_0 is Some && (r->Ok_0->0
                    matches Reference::Packed(p) && p@ == e),
                LookupView::Missing => r is Ok && r->Ok_0 is None,
            },
    {
        proof {
            crate::name::lemma_candidates_valid(partial@);
        }
        let cands = crate::name::candidate_names(partial);
        let ghost cviews = crate::name::views_of_bytes(cands@);
        let m: usize = cands.len();
        proof {
            assert(cviews.skip(0) =~= cviews);
        }
        let mut k: usize = 0;
        while k < m
            invariant
                name_valid(partial@),
                packed_wf(packed),
                m == cands@.len() == cviews.len(),
                cviews == crate::name::views_of_bytes(cands@),
                cviews == spec_candidates(partial@),
                k <= m,
                forall|t: int| 0 <= t < cviews.len() ==> name_valid(#[trigger] cviews[t]),
                spec_find_first(self.files(), packed_entries(packed), cviews) == spec_find_first(
                    self.files(),
                    packed_entries(packed),
                    cviews.skip(k as int),
                ),
            decreases m - k,
        {
            proof {
                assert(cviews[k as int] == cands@[k as int]@);
                assert(cviews.skip(k as int)[0] == cviews[k as int]);
                assert(cviews.skip(k as int).skip(1) =~= cviews.skip(k as int + 1));
            }
            match self.try_find_exact(packed, &cands[k]) {
                Err(e) => {
                    return Err(e);
                },
                Ok(Some(found)) => {
                    return Ok(Some(found));
                },
                Ok(None) => {},
            }
            k += 1;
        }
        proof {
            assert(cviews.skip(m as int) =~= Seq::<Seq<u8>>::empty());
        }
        Ok(None)
    }

    /// Looks up a partial name among the loose files alone.
    pub fn loose_find(&self, partial: &Vec<u8>) -> (r: Result<
        Option<crate::loose::Reference>,
        ParseError,
    >)
        requires
            name_valid(partial@),
        ensures
            match spec_find_first(self.files(), Seq::empty(), spec_candidates(partial@)) {
                LookupView::Loose(nm, c) => match spec_parse_target(c) {
                    Some(t) => r is Ok && r->Ok_0 is Some && r->Ok_0->0.name@ == nm
                        && r->Ok_0->0.target@ == t && target_wf(r->Ok_0->0.target),
                    None => r is Err && r->Err_0.content@ == c,
                },
                LookupView::Packed(_) => false,
                LookupView::Missing => r is Ok && r->Ok_0 is None,
            },
    {
        match self.find(partial, None) {
            Ok(Some(Reference::Loose(l))) => Ok(Some(l)),
            Ok(Some(Reference::Packed(_))) => {
                proof {
                    lemma_find_first_no_entries(self.files(), spec_candidates(partial@));
                    assert(false);
                }
                Err(ParseError { content: Vec::new() })
            },
            Ok(None) => Ok(None),
            Err(e) => Err(e),
        }
    }

    /// Looks up a partial name among the loose files; absence is an
    /// error naming the partial name.
    pub fn loose_find_existing(&self, partial: &Vec<u8>) -> (r: Result<
        crate::loose::Reference,
        FindError,
    >)
        requires
            name_valid(partial@),
        ensures
            match spec_find_first(self.files(), Seq::empty(), spec_candidates(partial@)) {
                LookupView::Loose(nm, c) => match spec_parse_target(c) {
                    Some(t) => r is Ok && r->Ok_0.name@ == nm && r->Ok_0.target@ == t && target_wf(
                        r->Ok_0.target,
                    ),
                    None => r matches Err(FindError::Parse(p)) && p.content@ == c,
                },
                LookupView::Packed(_) => false,
                LookupView::Missing => r matches Err(FindError::NotFound),
            },
    {
        match self.loose_find(partial) {
            Ok(Some(l)) => Ok(l),
            Ok(None) => Err(FindError::NotFound),
            Err(e) => Err(FindError::Parse(e)),
        }
    }

    /// Looks up a partial name across both backends; absence is an
    /// error.
    pub fn find_existing(&self, partial: &Vec<u8>, packed: Option<&Buffer>) -> (r: Result<
        Reference,
        FindError,
    >)
        requires
            name_valid(partial@),
            packed_wf(packed),
        ensures
            match spec_find_first(
                self.files(),
                packed_entries(packed),
                spec_candidates(partial@),
            ) {
                LookupView::Loose(nm, c) => match spec_parse_target(c) {
                    Some(t) => r is Ok && (r->Ok_0 matches Reference::Loose(l) && l.name@ == nm
                        && l.target@ == t && target_wf(l.target)),
                    None => r matches Err(FindError::Parse(p)) && p.content@ == c,
                },
                LookupView::Packed(e) => r is Ok && (r->Ok_0 matches Reference::Packed(p) && p@
                    == e),
                LookupView::Missing => r matches Err(FindError::NotFound),
            },
    {
        match self.find(partial, packed) {
            Ok(Some(found)) => Ok(found),
            Ok(None) => Err(FindError::NotFound),
            Err(e) => Err(FindError::Parse(e)),
        }
    }
}

/// Why a required reference could not be produced.
#[derive(Debug)]
pub enum FindError {
    /// No reference of that name exists.
    NotFound,
    /// The reference exists but could not be parsed.
    Parse(ParseError),
}

/// Without packed entries a lookup never yields a packed hit.
proof fn lemma_lookup_no_entries(files: Seq<LooseFileView>, name: Seq<u8>)
    ensures
        !(spec_lookup(files, Seq::empty(), name) is Packed),
{
}

/// Without packed entries a candidate scan never yields a packed hit.
proof fn lemma_find_first_no_entries(files: Seq<LooseFileView>, cands: Seq<Seq<u8>>)
    ensures
        !(spec_find_first(files, Seq::empty(), cands) is Packed),
    decreases cands.len(),
{
    if cands.len() > 0 {
        lemma_lookup_no_entries(files, cands[0]);
        lemma_find_first_no_entries(files, cands.skip(1));
    }
}

impl crate::loose::Reference {
    /// Follows exactly one symbolic hop: nothing when the reference is
    /// already direct; otherwise the reference the target name denotes,
    /// or why it could not be produced.
    pub fn follow_symbolic(&self, store: &Store, packed: Option<&Buffer>) -> (r: Option<
        Result<Reference, PeelError>,
    >)
        requires
            crate::loose::loose_ref_wf(*self),
            packed_wf(packed),
        ensures
            match self.target@ {
                TargetView::Peeled(_) => r is None,
                TargetView::Symbolic(next) => r is Some && (match spec_lookup(
                    store.files(),
                    packed_entries(packed),
                    next,
                ) {
                    LookupView::Loose(_, c) => match spec_parse_target(c) {
                        Some(t) => r->0 is Ok && (r->0->Ok_0 matches Reference::Loose(l) && l.name@
                            == next && l.target@ == t && target_wf(l.target)),
                        None => r->0 matches Err(PeelError::Parse(p)) && p.content@ == c,
                    },
                    LookupView::Packed(e) => r->0 is Ok && (r->0->Ok_0 matches Reference::Packed(p)
                        && p@ == e),
                    LookupView::Missing => r->0 matches Err(PeelError::NotFound { name }) && name@
                        == next,
                }),
            },
    {
        match &self.target {
            Target::Peeled(_) => None,
            Target::Symbolic(next) => {
                match store.try_find_exact(packed, next.as_bytes()) {
                    Ok(Some(found)) => Some(Ok(found)),
                    Ok(None) => Some(Err(PeelError::NotFound { name: next.duplicate() })),
                    Err(e) => Some(Err(PeelError::Parse(e))),
                }
            },
        }
    }
}

impl Reference {
    /// Follows exactly one level of indirection: a loose symbolic
    /// reference hops to the reference it names; a packed entry with a
    /// peeled annotation steps to that annotation; anything else is
    /// already terminal.
    pub fn peel_one_level(&self, store: &Store, packed: Option<&Buffer>) -> (r: Option<
        Result<Reference, PeelError>,
    >)
        requires
            ref_wf(*self),
            packed_wf(packed),
        ensures
            match self {
                Reference::Loose(l) => match l.target@ {
                    TargetView::Peeled(_) => r is None,
                    TargetView::Symbolic(next) => r is Some && (match spec_lookup(
                        store.files(),
                        packed_entries(packed),
                        next,
                    ) {
                        LookupView::Loose(_, c) => match spec_parse_target(c) {
                            Some(t) => r->0 is Ok && (r->0->Ok_0 matches Reference::Loose(l2)
                                && l2.name@ == next && l2.target@ == t),
                            None => r->0 matches Err(PeelError::Parse(p)) && p.content@ == c,
                        },
                        LookupView::Packed(e) => r->0 is Ok && (r->0->Ok_0
                            matches Reference::Packed(p) && p@ == e),
                        LookupView::Missing => r->0 matches Err(PeelError::NotFound { name })
                            && name@ == next,
                    }),
                },
                Reference::Packed(p) => {
                    let hop = match spec_find_name(packed_entries(packed), p.name@) {
                        Some(np) => p@.object is Some && np.object is Some,
                        None => false,
                    };
                    &&& r is Some <==> hop
                    &&& r is Some ==> (r->0 is Ok && (r->0->Ok_0 matches Reference::Packed(q) && q@
                        == EntryView {
                        name: spec_find_name(packed_entries(packed), p.name@)->0.name,
                        target: spec_find_name(packed_entries(packed), p.name@)->0.object->0,
                        object: None,
                    }))
                },
            },
    {
        match self {
            Reference::Loose(l) => l.follow_symbolic(store, packed),
            Reference::Packed(p) => match packed {
                Some(buf) => match buf.find_full_name(p.name.as_bytes()) {
                    Some(np) => match (&p.object, &np.object) {
                        (Some(_), Some(peeled)) => Some(
                            Ok(
                                Reference::Packed(
                                    crate::packed::Reference {
                                        name: np.name.duplicate(),
                                        target: peeled.duplicate(),
                                        object: None,
                                    },
                                ),
                            ),
                        ),
                        _ => None,
                    },
                    None => None,
                },
                None => {
                    proof {
                        assert(packed_entries(packed) =~= Seq::<EntryView>::empty());
                        crate::packed::lemma_find_name_empty(p.name@);
                    }
                    None
                },
            },
        }
    }
}

} // verus!

use crate::objects::{spec_tag_target, Kind as ObjectKind};

verus! {

/// The outcome of following a symbolic chain to a direct identity.
pub enum PeelOutcome {
    /// The chain ended: the terminal name and the identity it shows.
    Resolved(Seq<u8>, Seq<u8>),
    /// The chain revisited this name.
    CycleAt(Seq<u8>),
    /// This name on the chain does not exist.
    MissingAt(Seq<u8>),
    /// The file of this name holds this unreadable content.
    UnreadableAt(Seq<u8>, Seq<u8>),
}

/// Follows symbolic hops from `name` with target `target`, keeping the
/// set of names already visited; a packed entry resolves directly,
/// preferring its peeled annotation.
pub open spec fn spec_follow(
    files: Seq<LooseFileView>,
    entries: Seq<EntryView>,
    name: Seq<u8>,
    target: TargetView,
    visited: Seq<Seq<u8>>,
    fuel: nat,
) -> PeelOutcome
    decreases fuel,
{
    match target {
        TargetView::Peeled(id) => PeelOutcome::Resolved(name, id),
        TargetView::Symbolic(next) => {
            if name_in(visited, next) || fuel == 0 {
                PeelOutcome::CycleAt(next)
            } else {
                match spec_lookup(files, entries, next) {
                    LookupView::Loose(_, c) => match spec_parse_target(c) {
                        Some(t) => spec_follow(
                            files,
                            entries,
                            next,
                            t,
                            visited.push(next),
                            (fuel - 1) as nat,
                        ),
                        None => PeelOutcome::UnreadableAt(next, c),
                    },
                    LookupView::Packed(e) => PeelOutcome::Resolved(
                        e.name,
                        match e.object {
                            Some(o) => o,
                            None => e.target,
                        },
                    ),
                    LookupView::Missing => PeelOutcome::MissingAt(next),
                }
            }
        },
    }
}

/// Unwraps up to `fuel` tag objects: as long as the identity names a tag
/// whose payload carries a readable target line, that target is taken;
/// nothing on an unreadable tag payload.
pub open spec fn spec_unwrap_tags(dbs: Seq<Db>, id: Seq<u8>, fuel: nat) -> Option<Seq<u8>>
    decreases fuel,
{
    if fuel == 0 {
        Some(id)
    } else {
        match spec_store_find(dbs, id) {
            Some(o) => {
                if o.kind == ObjectKind::Tag {
                    match spec_tag_target(o.data) {
                        Some(id2) => spec_unwrap_tags(dbs, id2, (fuel - 1) as nat),
                        None => None,
                    }
                } else {
                    Some(id)
                }
            },
            None => Some(id),
        }
    }
}

/// The databases of an optional object store.
pub open spec fn dbs_of(odb: Option<&crate::odb::Store>) -> Seq<Db> {
    match odb {
        Some(s) => s.dbs@,
        None => Seq::empty(),
    }
}

/// The total number of objects across the chain.
pub open spec fn spec_total_objects(dbs: Seq<Db>) -> nat
    decreases dbs.len(),
{
    if dbs.len() == 0 {
        0
    } else {
        dbs[0].objects@.len() + spec_total_objects(dbs.skip(1))
    }
}

/// Counts the objects across the chain of `odb`.
fn total_objects(odb: Option<&crate::odb::Store>) -> (r: Option<usize>)
    ensures
        r is Some <==> spec_total_objects(dbs_of(odb)) <= usize::MAX,
        r is Some ==> r->0 == spec_total_objects(dbs_of(odb)),
{
    match odb {
        None => {
            proof {
                assert(dbs_of(odb) =~= Seq::<Db>::empty());
            }
            Some(0)
        },
        Some(store) => {
            let n: usize = store.dbs.len();
            let ghost dbs = store.dbs@;
            proof {
                assert(dbs.skip(0) =~= dbs);
            }
            let mut total: usize = 0;
            let mut i: usize = 0;
            while i < n
                invariant
                    n == dbs.len(),
                    dbs == dbs_of(odb),
                    dbs == store.dbs@,
                    i <= n,
                    total == spec_total_objects(dbs.take(i as int)),
                decreases n - i,
            {
                proof {
                    assert(dbs.take(i + 1) =~= dbs.take(i as int).push(dbs[i as int]));
                    lemma_total_objects_snoc(dbs.take(i as int), dbs[i as int]);
                }
                let c = store.dbs[i].objects.len();
                if usize::MAX - total < c {
                    proof {
                        lemma_total_objects_prefix(dbs, i + 1);
                    }
                    return None;
                }
                total = total + c;
                i += 1;
            }
            proof {
                assert(dbs.take(n as int) =~= dbs);
            }
            Some(total)
        },
    }
}

proof fn lemma_total_objects_snoc(dbs: Seq<Db>, d: Db)
    ensures
        spec_total_objects(dbs.push(d)) == spec_total_objects(dbs) + d.objects@.len(),
    decreases dbs.len(),
{
    if dbs.len() == 0 {
        assert(dbs.push(d)[0] == d);
        assert(dbs.push(d).skip(1) =~= Seq::<Db>::empty());
        assert(spec_total_objects(dbs.push(d).skip(1)) == 0);
    } else {
        assert(dbs.push(d)[0] == dbs[0]);
        assert(dbs.push(d).skip(1) =~= dbs.skip(1).push(d));
        lemma_total_objects_snoc(dbs.skip(1), d);
    }
}

proof fn lemma_total_objects_prefix(dbs: Seq<Db>, i: int)
    requires
        0 <= i <= dbs.len(),
    ensures
        spec_total_objects(dbs.take(i)) <= spec_total_objects(dbs),
    decreases dbs.len(),
{
    if i == 0 {
    } else if dbs.len() > 0 {
        assert(dbs.take(i)[0] == dbs[0]);
        assert(dbs.take(i).skip(1) =~= dbs.skip(1).take(i - 1));
        lemma_total_objects_prefix(dbs.skip(1), i - 1);
    }
}

/// Does `n` occur among `names`?
fn bytes_in_list(names: &Vec<Vec<u8>>, n: &Vec<u8>) -> (r: bool)
    ensures
        r == name_in(crate::name::views_of_bytes(names@), n@),
{
    let m: usize = names.len();
    let mut k: usize = 0;
    while k < m
        invariant
            m == names@.len(),
            k <= m,
            forall|t: int| 0 <= t < k ==> (#[trigger] crate::name::views_of_bytes(names@)[t]) != n@,
        decreases m - k,
    {
        proof {
            assert(crate::name::views_of_bytes(names@)[k as int] == names@[k as int]@);
        }
        if bytes_eq(&names[k], n) {
            return true;
        }
        k += 1;
    }
    false
}

impl Reference {
    /// Follows symbolic hops to a direct identity, tracking every name
    /// visited and failing with a cycle error when one repeats; on
    /// success the reference itself becomes the terminal, peeled
    /// reference, while every failure leaves it untouched. A direct
    /// identity naming a tag object is unwrapped through the object
    /// lookup, when one is given; a packed entry's peeled annotation
    /// resolves without consulting the lookup.
    pub fn peel_to_id_in_place(
        &mut self,
        store: &Store,
        packed: Option<&Buffer>,
        odb: Option<&crate::odb::Store>,
    ) -> (r: Result<ObjectId, PeelError>)
        requires
            ref_wf(*old(self)),
            packed_wf(packed),
            spec_total_objects(dbs_of(odb)) < usize::MAX,
            store.files().len() < usize::MAX,
        ensures
            r is Err ==> *final(self) == *old(self),
            match *old(self) {
                Reference::Packed(p) => r is Ok && r->Ok_0@ == (match p@.object {
                    Some(o) => o,
                    None => p@.target,
                }) && (*final(self) matches Reference::Packed(q) && q@ == EntryView {
                    name: p@.name,
                    target: match p@.object {
                        Some(o) => o,
                        None => p@.target,
                    },
                    object: None,
                }),
                Reference::Loose(l) => {
                    match spec_follow(
                        store.files(),
                        packed_entries(packed),
                        l.name@,
                        l.target@,
                        seq![l.name@],
                        (store.files().len() + 1) as nat,
                    ) {
                        PeelOutcome::Resolved(leaf, id0) => match spec_unwrap_tags(
                            dbs_of(odb),
                            id0,
                            spec_total_objects(dbs_of(odb)) + 1,
                        ) {
                            Some(idf) => r is Ok && r->Ok_0@ == idf && (*final(self)
                                matches Reference::Loose(l2) && l2.name@ == leaf && l2.target@
                                == TargetView::Peeled(idf)),
                            None => r matches Err(PeelError::TagDecode),
                        },
                        PeelOutcome::CycleAt(nm) => r matches Err(PeelError::Cycle { name })
                            && name@ == nm,
                        PeelOutcome::MissingAt(nm) => r matches Err(PeelError::NotFound { name })
                            && name@ == nm,
                        PeelOutcome::UnreadableAt(_, c) => r matches Err(PeelError::Parse(p2))
                            && p2.content@ == c,
                    }
                },
            },
    {
        let ghost files = store.files();
        let ghost entries = packed_entries(packed);
        let (next_self, idc): (Reference, ObjectId) = match &*self {
            Reference::Packed(p) => {
                let resolved = p.object();
                let out = resolved.duplicate();
                (
                    Reference::Packed(
                        crate::packed::Reference {
                            name: p.name.duplicate(),
                            target: resolved,
                            object: None,
                        },
                    ),
                    out,
                )
            },
            Reference::Loose(l) => {
                let ghost outcome0 = spec_follow(
                    files,
                    entries,
                    l.name@,
                    l.target@,
                    seq![l.name@],
                    (files.len() + 1) as nat,
                );
                let mut cur_name: FullName = l.name.duplicate();
                let mut cur_target: Target = l.target.duplicate();
                let mut visited: Vec<Vec<u8>> = Vec::new();
                visited.push(bytes_clone(l.name.as_bytes()));
                let mut fuel: usize = store.loose_count() + 1;
                proof {
                    assert(crate::name::views_of_bytes(visited@) =~= seq![l.name@]);
                }
                let mut leaf_id: ObjectId = ObjectId::null();
                loop
                    invariant
                        files == store.files(),
                        entries == packed_entries(packed),
                        packed_wf(packed),
                        name_valid(cur_name@),
                        target_wf(cur_target),
                        *self == *old(self),
                        *old(self) is Loose,
                        outcome0 == spec_follow(
                            files,
                            entries,
                            (*old(self))->Loose_0.name@,
                            (*old(self))->Loose_0.target@,
                            seq![(*old(self))->Loose_0.name@],
                            (files.len() + 1) as nat,
                        ),
                        outcome0 == spec_follow(
                            files,
                            entries,
                            cur_name@,
                            cur_target@,
                            crate::name::views_of_bytes(visited@),
                            fuel as nat,
                        ),
                    ensures
                        outcome0 == PeelOutcome::Resolved(cur_name@, leaf_id@),
                        crate::hash::id_wf(leaf_id),
                        name_valid(cur_name@),
                    decreases fuel,
                {
                    match &cur_target {
                        Target::Peeled(id) => {
                            leaf_id = id.duplicate();
                            break;
                        },
                        Target::Symbolic(next) => {
                            if bytes_in_list(&visited, next.as_bytes()) {
                                return Err(PeelError::Cycle { name: next.duplicate() });
                            }
                            if fuel == 0 {
                                return Err(PeelError::Cycle { name: next.duplicate() });
                            }
                            let hop = store.try_find_exact(packed, next.as_bytes());
                            match hop {
                                Err(e) => {
                                    return Err(PeelError::Parse(e));
                                },
                                Ok(None) => {
                                    return Err(PeelError::NotFound { name: next.duplicate() });
                                },
                                Ok(Some(Reference::Packed(pe))) => {
                                    proof {
                                        lemma_entry_wf(entries, pe@);
                                    }
                                    leaf_id = pe.object();
                                    cur_name = pe.name;
                                    proof {
                                        assert(outcome0 == PeelOutcome::Resolved(
                                            cur_name@,
                                            leaf_id@,
                                        ));
                                    }
                                    break;
                                },
                                Ok(Some(Reference::Loose(le))) => {
                                    let ghost old_visited = visited@;
                                    visited.push(bytes_clone(next.as_bytes()));
                                    proof {
                                        assert(crate::name::views_of_bytes(visited@)
                                            =~= crate::name::views_of_bytes(old_visited).push(
                                            next@,
                                        ));
                                    }
                                    cur_name = le.name;
                                    cur_target = le.target;
                                    fuel = fuel - 1;
                                },
                            }
                        },
                    }
                }
                // unwrap tag objects, as far as the lookup can see
                let ghost unwrap0 = spec_unwrap_tags(
                    dbs_of(odb),
                    leaf_id@,
                    spec_total_objects(dbs_of(odb)) + 1,
                );
                let mut id = leaf_id;
                let mut tfuel: usize = match total_objects(odb) {
                    Some(t) => t + 1,
                    None => {
                        proof {
                            assert(false);
                        }
                        1
                    },
                };
                loop
                    invariant
                        files == store.files(),
                        entries == packed_entries(packed),
                        *self == *old(self),
                        *old(self) is Loose,
                        outcome0 == spec_follow(
                            files,
                            entries,
                            (*old(self))->Loose_0.name@,
                            (*old(self))->Loose_0.target@,
                            seq![(*old(self))->Loose_0.name@],
                            (files.len() + 1) as nat,
                        ),
                        outcome0 == PeelOutcome::Resolved(cur_name@, leaf_id@),
                        unwrap0 == spec_unwrap_tags(
                            dbs_of(odb),
                            leaf_id@,
                            spec_total_objects(dbs_of(odb)) + 1,
                        ),
                        unwrap0 == spec_unwrap_tags(dbs_of(odb), id@, tfuel as nat),
                        crate::hash::id_wf(id),
                    ensures
                        unwrap0 == Some(id@),
                        crate::hash::id_wf(id),
                    decreases tfuel,
                {
                    if tfuel == 0 {
                        break;
                    }
                    let found = match odb {
                        Some(db) => db.find(&id),
                        None => {
                            proof {
                                assert(dbs_of(odb) =~= Seq::<Db>::empty());
                                lemma_store_find_empty(id@);
                            }
                            None
                        },
                    };
                    match found {
                        Some(o) => {
                            if o.kind == ObjectKind::Tag {
                                match crate::objects::tag_target(&o.data) {
                                    Some(id2) => {
                                        id = id2;
                                        tfuel = tfuel - 1;
                                    },
                                    None => {
                                        return Err(PeelError::TagDecode);
                                    },
                                }
                            } else {
                                break;
                            }
                        },
                        None => {
                            break;
                        },
                    }
                }
                let idc = id.duplicate();
                (
                    Reference::Loose(
                        crate::loose::Reference { name: cur_name, target: Target::Peeled(id) },
                    ),
                    idc,
                )
            },
        };
        *self = next_self;
        Ok(idc)
    }
}

/// A found entry is well formed when the whole snapshot is.
pub proof fn lemma_entry_wf(entries: Seq<EntryView>, e: EntryView)
    requires
        forall|k: int| 0 <= k < entries.len() ==> crate::packed::entry_view_wf(#[trigger] entries[k]),
        spec_find_name(entries, e.name) == Some(e) || (exists|n: Seq<u8>|
            spec_find_name(entries, n) == Some(e)),
    ensures
        crate::packed::entry_view_wf(e),
{
    let n = choose|n: Seq<u8>| spec_find_name(entries, n) == Some(e);
    crate::packed::lemma_find_name_member(entries, n);
}

/// In an empty chain nothing is found.
proof fn lemma_store_find_empty(id: Seq<u8>)
    ensures
        spec_store_find(Seq::empty(), id) is None,
{
}

} // verus!

verus! {

/// One link of a symbolic chain: the file of `a` parses to a symbolic
/// target naming `b`.
pub open spec fn chain_link(
    files: Seq<LooseFileView>,
    entries: Seq<EntryView>,
    a: Seq<u8>,
    b: Seq<u8>,
) -> bool {
    match spec_lookup(files, entries, a) {
        LookupView::Loose(_, c) => spec_parse_target(c) == Some(TargetView::Symbolic(b)),
        _ => false,
    }
}

/// The end of a symbolic chain: the file of `a` parses to the direct
/// identity `id`.
pub open spec fn chain_end(
    files: Seq<LooseFileView>,
    entries: Seq<EntryView>,
    a: Seq<u8>,
    id: Seq<u8>,
) -> bool {
    match spec_lookup(files, entries, a) {
        LookupView::Loose(_, c) => spec_parse_target(c) == Some(TargetView::Peeled(id)),
        _ => false,
    }
}

proof fn lemma_name_in_push(v: Seq<Seq<u8>>, x: Seq<u8>, q: Seq<u8>)
    ensures
        name_in(v.push(x), q) <==> name_in(v, q) || q == x,
{
    if name_in(v, q) {
        let w = choose|w: int| 0 <= w < v.len() && v[w] == q;
        assert(v.push(x)[w] == q);
    }
    if q == x {
        assert(v.push(x)[v.len() as int] == q);
    }
    if name_in(v.push(x), q) {
        let w = choose|w: int| 0 <= w < v.push(x).len() && v.push(x)[w] == q;
        if w < v.len() {
            assert(v[w] == q);
        }
    }
}

/// Following a symbolic chain of `n` links with no repeated name resolves
/// in exactly those `n` hops to the chain's final direct identity: one
/// recursion step per chain name, none of which the visited set holds.
pub proof fn lemma_follow_chain(
    files: Seq<LooseFileView>,
    entries: Seq<EntryView>,
    names: Seq<Seq<u8>>,
    id: Seq<u8>,
    visited: Seq<Seq<u8>>,
    fuel: nat,
    start: Seq<u8>,
)
    requires
        names.len() >= 1,
        fuel >= names.len(),
        forall|i: int|
            0 <= i < names.len() - 1 ==> chain_link(files, entries, #[trigger] names[i], names[i
                + 1]),
        chain_end(files, entries, names[names.len() - 1], id),
        forall|i: int| 0 <= i < names.len() ==> !name_in(visited, #[trigger] names[i]),
        forall|i: int, j: int|
            0 <= i < j < names.len() ==> (#[trigger] names[i]) != (#[trigger] names[j]),
    ensures
        spec_follow(files, entries, start, TargetView::Symbolic(names[0]), visited, fuel)
            == PeelOutcome::Resolved(names[names.len() - 1], id),
    decreases names.len(),
{
    assert(!name_in(visited, names[0]));
    if names.len() == 1 {
        assert(spec_follow(
            files,
            entries,
            names[0],
            TargetView::Peeled(id),
            visited.push(names[0]),
            (fuel - 1) as nat,
        ) == PeelOutcome::Resolved(names[0], id));
    } else {
        assert(chain_link(files, entries, names[0], names[1]));
        let rest = names.skip(1);
        assert(rest[0] == names[1]);
        assert(rest[rest.len() - 1] == names[names.len() - 1]);
        assert(forall|i: int| 0 <= i < rest.len() ==> #[trigger] rest[i] == names[i + 1]);
        assert forall|i: int| 0 <= i < rest.len() implies !name_in(
            visited.push(names[0]),
            #[trigger] rest[i],
        ) by {
            lemma_name_in_push(visited, names[0], rest[i]);
        }
        lemma_follow_chain(
            files,
            entries,
            rest,
            id,
            visited.push(names[0]),
            (fuel - 1) as nat,
            names[0],
        );
    }
}

proof fn lemma_file_at_some_member(files: Seq<LooseFileView>, nm: Seq<u8>)
    requires
        spec_file_at(files, nm) is Some,
    ensures
        exists|w: int| 0 <= w < files.len() && (#[trigger] files[w].path) == nm,
    decreases files.len(),
{
    if files.len() > 0 && files[0].path != nm {
        lemma_file_at_some_member(files.skip(1), nm);
        let w = choose|w: int| 0 <= w < files.skip(1).len() && files.skip(1)[w].path == nm;
        assert(files[w + 1].path == nm);
    }
}

/// The fuel the resolver carries always outlasts a duplicate-free chain:
/// every chain name heads a loose file, distinct names head distinct
/// files, so no chain is longer than the store — and the resolver ends at
/// the chain's final identity.
pub proof fn lemma_peel_chain_resolves(
    files: Seq<LooseFileView>,
    entries: Seq<EntryView>,
    names: Seq<Seq<u8>>,
    id: Seq<u8>,
    start: Seq<u8>,
)
    requires
        names.len() >= 1,
        forall|i: int|
            0 <= i < names.len() - 1 ==> chain_link(files, entries, #[trigger] names[i], names[i
                + 1]),
        chain_end(files, entries, names[names.len() - 1], id),
        forall|i: int| 0 <= i < names.len() ==> (#[trigger] names[i]) != start,
        forall|i: int, j: int|
            0 <= i < j < names.len() ==> (#[trigger] names[i]) != (#[trigger] names[j]),
    ensures
        spec_follow(
            files,
            entries,
            start,
            TargetView::Symbolic(names[0]),
            seq![start],
            (files.len() + 1) as nat,
        ) == PeelOutcome::Resolved(names[names.len() - 1], id),
{
    broadcast use vstd::seq_lib::seq_to_set_is_finite;
    broadcast use vstd::set::group_set_axioms;

    let paths = files.map_values(|f: LooseFileView| f.path);
    assert forall|i: int| 0 <= i < names.len() implies paths.contains(#[trigger] names[i]) by {
        assert(spec_file_at(files, names[i]) is Some);
        lemma_file_at_some_member(files, names[i]);
        let w = choose|w: int| 0 <= w < files.len() && files[w].path == names[i];
        assert(paths[w] == names[i]);
    }
    assert(names.no_duplicates());
    names.unique_seq_to_set();
    assert(names.to_set().subset_of(paths.to_set())) by {
        assert forall|x: Seq<u8>| names.to_set().contains(x) implies paths.to_set().contains(
            x,
        ) by {
            assert(names.contains(x));
            let w = choose|w: int| 0 <= w < names.len() && names[w] == x;
            assert(paths.contains(x));
        }
    }
    vstd::set_lib::lemma_len_subset(names.to_set(), paths.to_set());
    paths.lemma_cardinality_of_set();
    assert(names.len() <= files.len());
    assert forall|i: int| 0 <= i < names.len() implies !name_in(
        seq![start],
        #[trigger] names[i],
    ) by {
        if name_in(seq![start], names[i]) {
            let w = choose|w: int| 0 <= w < 1 && seq![start][w] == names[i];
            assert(seq![start][0] == start);
        }
    }
    lemma_follow_chain(
        files,
        entries,
        names,
        id,
        seq![start],
        (files.len() + 1) as nat,
        start,
    );
}

} // verus!

verus! {

/// Following a chain whose last link points back at a name already
/// visited — the start or any chain name — fails with a cycle at that
/// name, and at no other.
pub proof fn lemma_follow_cycle(
    files: Seq<LooseFileView>,
    entries: Seq<EntryView>,
    names: Seq<Seq<u8>>,
    back: Seq<u8>,
    visited: Seq<Seq<u8>>,
    fuel: nat,
    start: Seq<u8>,
)
    requires
        names.len() >= 1,
        fuel >= names.len(),
        forall|i: int|
            0 <= i < names.len() - 1 ==> chain_link(files, entries, #[trigger] names[i], names[i
                + 1]),
        chain_link(files, entries, names[names.len() - 1], back),
        name_in(visited + names, back),
        forall|i: int| 0 <= i < names.len() ==> !name_in(visited, #[trigger] names[i]),
        forall|i: int, j: int|
            0 <= i < j < names.len() ==> (#[trigger] names[i]) != (#[trigger] names[j]),
    ensures
        spec_follow(files, entries, start, TargetView::Symbolic(names[0]), visited, fuel)
            == PeelOutcome::CycleAt(back),
    decreases names.len(),
{
    assert(!name_in(visited, names[0]));
    if names.len() == 1 {
        assert(name_in(visited.push(names[0]), back)) by {
            assert(visited + names =~= visited.push(names[0]));
        }
        assert(spec_follow(
            files,
            entries,
            names[0],
            TargetView::Symbolic(back),
            visited.push(names[0]),
            (fuel - 1) as nat,
        ) == PeelOutcome::CycleAt(back));
    } else {
        assert(chain_link(files, entries, names[0], names[1]));
        let rest = names.skip(1);
        assert(rest[0] == names[1]);
        assert(rest[rest.len() - 1] == names[names.len() - 1]);
        assert(forall|i: int| 0 <= i < rest.len() ==> #[trigger] rest[i] == names[i + 1]);
        assert forall|i: int| 0 <= i < rest.len() implies !name_in(
            visited.push(names[0]),
            #[trigger] rest[i],
        ) by {
            lemma_name_in_push(visited, names[0], rest[i]);
        }
        assert(name_in(visited.push(names[0]) + rest, back)) by {
            assert(visited.push(names[0]) + rest =~= visited + names);
        }
        lemma_follow_cycle(
            files,
            entries,
            rest,
            back,
            visited.push(names[0]),
            (fuel - 1) as nat,
            names[0],
        );
    }
}

} // verus!
