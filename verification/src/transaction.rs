//! The transaction engine: a batch of requested edits is resolved against
//! the current state, compare-and-swap preconditions are enforced, every
//! touched name is locked, and the edits are then committed together —
//! or the preparation fails and the state stays untouched.

use vstd::prelude::*;
use crate::bytestr::{ascii_of, bytes_clone, bytes_eq, push_str_bytes};
use crate::hash::{spec_null_id, ObjectId};
use crate::log::{Line, LineView, Signature, SignatureView};
use crate::loose::{spec_content_of, spec_parse_target, spec_render_of};
use crate::mutable::{target_wf, Target, TargetView};
use crate::name::{name_valid, FullName};
use crate::packed::{name_in, names_of, spec_find_name, spec_kept, spec_serialize, Buffer, BufferError, EntryView};
use crate::reference::{packed_entries, packed_wf, spec_lookup, LookupView};
use crate::store::{
    spec_file_at, spec_insert_file, spec_log_append, spec_log_delete, spec_name_remove,
    spec_remove_file, LooseFileView, ReflogView, Store, WriteReflog,
};

verus! {

/// Whether a reflog line alone is written or removed, or the reference
/// itself along with it.
#[derive(Debug, Clone, Copy, PartialEq, Eq, Structural, Hash)]
pub enum RefLog {
    /// Touch the reference and its reflog.
    AndReference,
    /// Touch only the reflog.
    Only,
}

/// A requested mutation of one name.
#[derive(Debug, Clone)]
pub enum Change {
    /// Point the reference at `new`, after checking `previous`; `log`
    /// says whether the reference, its history line, or both are written,
    /// and `message` is recorded with the history line.
    Update {
        /// What is written and logged.
        log: RefLog,
        /// The message recorded with the history line.
        message: Vec<u8>,
        /// The target to point at.
        new: Target,
        /// The expected current value: nothing means "don't check"; the
        /// all-zero identity means "must exist, any value".
        previous: Option<Target>,
    },
    /// Delete the reference, after checking `previous`.
    Delete {
        /// The expected current value, as above.
        previous: Option<Target>,
        /// Whether only the history file or also the reference goes.
        log: RefLog,
    },
}

/// The mathematical value of a [`Change`].
pub enum ChangeView {
    /// An update.
    Update {
        /// What is written and logged.
        log: RefLog,
        /// The message bytes.
        message: Seq<u8>,
        /// The target to point at.
        new: TargetView,
        /// The expected current value.
        previous: Option<TargetView>,
    },
    /// A deletion.
    Delete {
        /// The expected current value.
        previous: Option<TargetView>,
        /// What goes.
        log: RefLog,
    },
}

impl View for Change {
    type V = ChangeView;

    open spec fn view(&self) -> ChangeView {
        match self {
            Change::Update { log, message, new, previous } => ChangeView::Update {
                log: *log,
                message: message@,
                new: new@,
                previous: match previous {
                    Some(t) => Some(t@),
                    None => None,
                },
            },
            Change::Delete { previous, log } => ChangeView::Delete {
                previous: match previous {
                    Some(t) => Some(t@),
                    None => None,
                },
                log: *log,
            },
        }
    }
}

/// An edit of one name; with `deref` set and the named reference
/// symbolic, the edit applies along the chain down to its leaf.
#[derive(Debug, Clone)]
pub struct RefEdit {
    /// What to do.
    pub change: Change,
    /// The name to act on.
    pub name: FullName,
    /// Whether symbolic references are followed to their leaf.
    pub deref: bool,
}

/// The mathematical value of a [`RefEdit`].
pub struct RefEditView {
    /// What to do.
    pub change: ChangeView,
    /// The name bytes.
    pub name: Seq<u8>,
    /// Whether symbolic references are followed.
    pub deref: bool,
}

impl View for RefEdit {
    type V = RefEditView;

    open spec fn view(&self) -> RefEditView {
        RefEditView { change: self.change@, name: self.name@, deref: self.deref }
    }
}

/// The views of an edit list.
pub open spec fn edits_of(edits: Seq<RefEdit>) -> Seq<RefEditView> {
    edits.map_values(|e: RefEdit| e@)
}

/// What to do when a needed lock is already held.
#[derive(Debug, Clone, Copy, PartialEq, Eq, Structural, Hash)]
pub enum Fail {
    /// Surface a contention error without blocking.
    Immediately,
}

/// Why a transaction could not be prepared or committed.
#[derive(Debug)]
pub enum Error {
    /// A deletion expected a value, but the name does not exist or could
    /// not be parsed.
    DeleteNonexisting {
        /// The name to delete.
        name: FullName,
    },
    /// The expected current value did not match the actual one.
    ReferenceOutOfDate {
        /// The name checked.
        name: FullName,
        /// The value the caller expected.
        expected: Target,
        /// The value actually found.
        actual: Target,
    },
    /// An update expected some current value, but the name has none.
    MustExist {
        /// The name checked.
        name: FullName,
    },
    /// Following a symbolic chain for a dereferencing edit revisited a
    /// name.
    Cycle {
        /// The repeated name.
        name: FullName,
    },
    /// Two edits named the same reference.
    DuplicateEdit {
        /// The name edited twice.
        name: FullName,
    },
    /// Another writer holds the lock on this name.
    LockContention {
        /// The contended name.
        name: FullName,
    },
    /// The packed file could not be loaded.
    Packed(BufferError),
}

impl Error {
    /// The human-readable description of the failure.
    pub fn message(&self) -> (r: Vec<u8>)
        ensures
            match self {
                Error::DeleteNonexisting { name } => r@ == ascii_of("The reference '"@) + name@
                    + ascii_of("' for deletion did not exist or could not be parsed"@),
                Error::ReferenceOutOfDate { name, expected, actual } => r@ == ascii_of(
                    "The reference '"@,
                ) + name@ + ascii_of("' should have content "@) + spec_render_of(expected@)
                    + ascii_of(", actual content was "@) + spec_render_of(actual@),
                Error::MustExist { name } => r@ == ascii_of("The reference '"@) + name@ + ascii_of(
                    "' must exist, but it does not"@,
                ),
                Error::Cycle { name } => r@ == ascii_of("The reference '"@) + name@ + ascii_of(
                    "' lies on a cycle of symbolic references"@,
                ),
                Error::DuplicateEdit { name } => r@ == ascii_of("The reference '"@) + name@
                    + ascii_of("' is edited more than once"@),
                Error::LockContention { name } => r@ == ascii_of("The reference '"@) + name@
                    + ascii_of("' is locked by another writer"@),
                Error::Packed(_) => r@ == ascii_of("The packed file could not be loaded"@),
            },
    {
        proof {
            reveal_strlit("The reference '");
            reveal_strlit("' for deletion did not exist or could not be parsed");
            reveal_strlit("' should have content ");
            reveal_strlit(", actual content was ");
            reveal_strlit("' must exist, but it does not");
            reveal_strlit("' lies on a cycle of symbolic references");
            reveal_strlit("' is edited more than once");
            reveal_strlit("' is locked by another writer");
            reveal_strlit("The packed file could not be loaded");
            assert(vstd::string::is_ascii("The reference '"));
            assert(vstd::string::is_ascii("' for deletion did not exist or could not be parsed"));
            assert(vstd::string::is_ascii("' should have content "));
            assert(vstd::string::is_ascii(", actual content was "));
            assert(vstd::string::is_ascii("' must exist, but it does not"));
            assert(vstd::string::is_ascii("' lies on a cycle of symbolic references"));
            assert(vstd::string::is_ascii("' is edited more than once"));
            assert(vstd::string::is_ascii("' is locked by another writer"));
            assert(vstd::string::is_ascii("The packed file could not be loaded"));
        }
        match self {
            Error::DeleteNonexisting { name } => {
                let mut out = crate::bytestr::str_bytes("The reference '");
                crate::bytestr::bytes_extend(&mut out, name.as_bytes());
                push_str_bytes(&mut out, "' for deletion did not exist or could not be parsed");
                out
            },
            Error::ReferenceOutOfDate { name, expected, actual } => {
                let mut out = crate::bytestr::str_bytes("The reference '");
                crate::bytestr::bytes_extend(&mut out, name.as_bytes());
                push_str_bytes(&mut out, "' should have content ");
                let exp = crate::loose::render_target(expected);
                crate::bytestr::bytes_extend(&mut out, &exp);
                push_str_bytes(&mut out, ", actual content was ");
                let act = crate::loose::render_target(actual);
                crate::bytestr::bytes_extend(&mut out, &act);
                out
            },
            Error::MustExist { name } => {
                let mut out = crate::bytestr::str_bytes("The reference '");
                crate::bytestr::bytes_extend(&mut out, name.as_bytes());
                push_str_bytes(&mut out, "' must exist, but it does not");
                out
            },
            Error::Cycle { name } => {
                let mut out = crate::bytestr::str_bytes("The reference '");
                crate::bytestr::bytes_extend(&mut out, name.as_bytes());
                push_str_bytes(&mut out, "' lies on a cycle of symbolic references");
                out
            },
            Error::DuplicateEdit { name } => {
                let mut out = crate::bytestr::str_bytes("The reference '");
                crate::bytestr::bytes_extend(&mut out, name.as_bytes());
                push_str_bytes(&mut out, "' is edited more than once");
                out
            },
            Error::LockContention { name } => {
                let mut out = crate::bytestr::str_bytes("The reference '");
                crate::bytestr::bytes_extend(&mut out, name.as_bytes());
                push_str_bytes(&mut out, "' is locked by another writer");
                out
            },
            Error::Packed(_) => crate::bytestr::str_bytes("The packed file could not be loaded"),
        }
    }
}

impl PartialEq for RefEdit {
    fn eq(&self, other: &RefEdit) -> (r: bool) {
        self.name == other.name && self.deref == other.deref && change_eq(
            &self.change,
            &other.change,
        )
    }
}

impl vstd::std_specs::cmp::PartialEqSpecImpl for RefEdit {
    open spec fn obeys_eq_spec() -> bool {
        true
    }

    open spec fn eq_spec(&self, other: &RefEdit) -> bool {
        self@ == other@
    }
}

/// Compares two expected-value options.
fn previous_eq(a: &Option<Target>, b: &Option<Target>) -> (r: bool)
    ensures
        r == ((match a {
            Some(t) => Some(t@),
            None => None::<TargetView>,
        }) == (match b {
            Some(t) => Some(t@),
            None => None::<TargetView>,
        })),
{
    match (a, b) {
        (None, None) => true,
        (Some(x), Some(y)) => x == y,
        _ => false,
    }
}

/// Compares two changes.
fn change_eq(a: &Change, b: &Change) -> (r: bool)
    ensures
        r == (a@ == b@),
{
    match (a, b) {
        (
            Change::Update { log: l1, message: m1, new: n1, previous: p1 },
            Change::Update { log: l2, message: m2, new: n2, previous: p2 },
        ) => *l1 == *l2 && bytes_eq(m1, m2) && *n1 == *n2 && previous_eq(p1, p2),
        (
            Change::Delete { previous: p1, log: l1 },
            Change::Delete { previous: p2, log: l2 },
        ) => previous_eq(p1, p2) && *l1 == *l2,
        _ => {
            proof {
                assert(a@ != b@);
            }
            false
        },
    }
}

/// The current value a name resolves to for precondition checks: a parsed
/// loose target, a packed entry's identity, or nothing — unreadable loose
/// content also counts as nothing.
pub open spec fn spec_current(
    files: Seq<LooseFileView>,
    entries: Seq<EntryView>,
    name: Seq<u8>,
) -> Option<TargetView> {
    match spec_lookup(files, entries, name) {
        LookupView::Loose(_, c) => spec_parse_target(c),
        LookupView::Packed(e) => Some(TargetView::Peeled(e.target)),
        LookupView::Missing => None,
    }
}

impl Store {
    /// Reads the current value of `name` for precondition checks.
    fn current_value(&self, packed: Option<&Buffer>, name: &Vec<u8>) -> (r: Option<Target>)
        requires
            name_valid(name@),
            packed_wf(packed),
        ensures
            (match r {
                Some(t) => Some(t@),
                None => None::<TargetView>,
            }) == spec_current(self.files(), packed_entries(packed), name@),
            r is Some ==> target_wf(r->0),
    {
        match self.try_find_exact(packed, name) {
            Err(_) => None,
            Ok(None) => None,
            Ok(Some(crate::reference::Reference::Loose(l))) => Some(l.target),
            Ok(Some(crate::reference::Reference::Packed(p))) => {
                proof {
                    match packed {
                        Some(_) => {
                            assert(spec_find_name(packed_entries(packed), name@) == Some(p@));
                            crate::reference::lemma_entry_wf(packed_entries(packed), p@);
                        },
                        None => {
                            assert(packed_entries(packed) =~= Seq::<EntryView>::empty());
                            crate::packed::lemma_find_name_empty(name@);
                        },
                    }
                }
                Some(Target::Peeled(p.target()))
            },
        }
    }
}

} // verus!

verus! {

/// The change with its precondition dropped, as carried by the inner
/// links of a dereferencing edit's chain.
pub open spec fn change_no_previous(c: ChangeView) -> ChangeView {
    match c {
        ChangeView::Update { log, message, new, previous } => ChangeView::Update {
            log,
            message,
            new,
            previous: None,
        },
        ChangeView::Delete { previous, log } => ChangeView::Delete { previous: None, log },
    }
}

/// The chain of names a dereferencing edit applies to: the name itself,
/// then every name its symbolic content leads to, stopping at the first
/// name that is missing, unreadable, packed, or already direct. A name
/// revisited is a cycle.
pub open spec fn spec_chain(
    files: Seq<LooseFileView>,
    entries: Seq<EntryView>,
    name: Seq<u8>,
    visited: Seq<Seq<u8>>,
    fuel: nat,
) -> Result<Seq<Seq<u8>>, Seq<u8>>
    decreases fuel,
{
    match spec_lookup(files, entries, name) {
        LookupView::Loose(_, c) => match spec_parse_target(c) {
            Some(TargetView::Symbolic(next)) => {
                if name_in(visited, next) || fuel == 0 {
                    Err(next)
                } else {
                    match spec_chain(files, entries, next, visited.push(next), (fuel - 1) as nat) {
                        Ok(rest) => Ok(seq![name] + rest),
                        Err(x) => Err(x),
                    }
                }
            },
            _ => Ok(seq![name]),
        },
        _ => Ok(seq![name]),
    }
}

/// The edits one requested edit expands to: itself when it does not
/// dereference; otherwise one edit per chain name, the precondition kept
/// only on the leaf, and no edit dereferencing further.
pub open spec fn spec_split(
    files: Seq<LooseFileView>,
    entries: Seq<EntryView>,
    e: RefEditView,
    fuel: nat,
) -> Result<Seq<RefEditView>, Seq<u8>> {
    if !e.deref {
        Ok(seq![e])
    } else {
        match spec_chain(files, entries, e.name, seq![e.name], fuel) {
            Ok(names) => Ok(
                Seq::new(
                    names.len(),
                    |i: int|
                        RefEditView {
                            change: if i == names.len() - 1 {
                                e.change
                            } else {
                                change_no_previous(e.change)
                            },
                            name: names[i],
                            deref: false,
                        },
                ),
            ),
            Err(n) => Err(n),
        }
    }
}

/// The whole edit list expanded, in order.
pub open spec fn spec_expand(
    files: Seq<LooseFileView>,
    entries: Seq<EntryView>,
    edits: Seq<RefEditView>,
    fuel: nat,
) -> Result<Seq<RefEditView>, Seq<u8>>
    decreases edits.len(),
{
    if edits.len() == 0 {
        Ok(Seq::empty())
    } else {
        match spec_split(files, entries, edits[0], fuel) {
            Err(n) => Err(n),
            Ok(h) => match spec_expand(files, entries, edits.skip(1), fuel) {
                Err(n) => Err(n),
                Ok(t) => Ok(h + t),
            },
        }
    }
}

/// Why one edit's precondition failed.
pub enum CheckErrView {
    /// A deletion expected a value, but the name resolves to none.
    DeleteNonexisting(Seq<u8>),
    /// Expected and actual value differ: the name, the expected and the
    /// actual value.
    OutOfDate(Seq<u8>, TargetView, TargetView),
    /// An update expected some value, but the name resolves to none.
    MustExist(Seq<u8>),
}

/// The "must exist, any value" sentinel.
pub open spec fn is_must_exist_view(t: TargetView) -> bool {
    t == TargetView::Peeled(spec_null_id())
}

/// Enforces one edit's precondition against the current state and fills
/// the observed value into the edit.
pub open spec fn spec_check(
    files: Seq<LooseFileView>,
    entries: Seq<EntryView>,
    e: RefEditView,
) -> Result<RefEditView, CheckErrView> {
    let cur = spec_current(files, entries, e.name);
    match e.change {
        ChangeView::Delete { previous, log } => match previous {
            None => Ok(e),
            Some(exp) => match cur {
                None => Err(CheckErrView::DeleteNonexisting(e.name)),
                Some(act) => {
                    if is_must_exist_view(exp) || exp == act {
                        Ok(
                            RefEditView {
                                change: ChangeView::Delete { previous: Some(act), log },
                                name: e.name,
                                deref: e.deref,
                            },
                        )
                    } else {
                        Err(CheckErrView::OutOfDate(e.name, exp, act))
                    }
                },
            },
        },
        ChangeView::Update { log, message, new, previous } => match previous {
            None => Ok(
                RefEditView {
                    change: ChangeView::Update { log, message, new, previous: cur },
                    name: e.name,
                    deref: e.deref,
                },
            ),
            Some(exp) => match cur {
                None => Err(CheckErrView::MustExist(e.name)),
                Some(act) => {
                    if is_must_exist_view(exp) || exp == act {
                        Ok(
                            RefEditView {
                                change: ChangeView::Update {
                                    log,
                                    message,
                                    new,
                                    previous: Some(act),
                                },
                                name: e.name,
                                deref: e.deref,
                            },
                        )
                    } else {
                        Err(CheckErrView::OutOfDate(e.name, exp, act))
                    }
                },
            },
        },
    }
}

/// Checks a whole list; the first failure wins.
pub open spec fn spec_check_list(
    files: Seq<LooseFileView>,
    entries: Seq<EntryView>,
    list: Seq<RefEditView>,
) -> Result<Seq<RefEditView>, CheckErrView>
    decreases list.len(),
{
    if list.len() == 0 {
        Ok(Seq::empty())
    } else {
        match spec_check(files, entries, list[0]) {
            Err(x) => Err(x),
            Ok(h) => match spec_check_list(files, entries, list.skip(1)) {
                Err(x) => Err(x),
                Ok(t) => Ok(seq![h] + t),
            },
        }
    }
}

/// The names an edit list touches, in order.
pub open spec fn edit_names(list: Seq<RefEditView>) -> Seq<Seq<u8>> {
    list.map_values(|e: RefEditView| e.name)
}

/// The first name that occurs twice, scanning left to right.
pub open spec fn spec_first_dup(names: Seq<Seq<u8>>, j: int) -> Option<Seq<u8>>
    decreases names.len() - j,
{
    if j < 0 || j >= names.len() {
        None
    } else if name_in(names.take(j), names[j]) {
        Some(names[j])
    } else {
        spec_first_dup(names, j + 1)
    }
}

/// The first of `names` already locked, scanning left to right.
pub open spec fn spec_first_locked(locks: Seq<Seq<u8>>, names: Seq<Seq<u8>>, j: int) -> Option<
    Seq<u8>,
>
    decreases names.len() - j,
{
    if j < 0 || j >= names.len() {
        None
    } else if name_in(locks, names[j]) {
        Some(names[j])
    } else {
        spec_first_locked(locks, names, j + 1)
    }
}

/// Does the final edit list require the packed file's lock: some deletion
/// touches a packed entry.
pub open spec fn spec_needs_packed(entries: Seq<EntryView>, list: Seq<RefEditView>) -> bool {
    exists|k: int|
        0 <= k < list.len() && (#[trigger] list[k].change matches ChangeView::Delete {
            log: RefLog::AndReference,
            ..
        }) && spec_find_name(entries, list[k].name) is Some
}

/// The name under which the packed file is locked.
pub open spec fn spec_packed_lock_name() -> Seq<u8> {
    ascii_of("packed-refs"@)
}

/// The names the transaction locks: every edited name, and the packed
/// file's when needed and not already among them.
pub open spec fn spec_lock_list(entries: Seq<EntryView>, list: Seq<RefEditView>) -> Seq<Seq<u8>> {
    if spec_needs_packed(entries, list) && !name_in(edit_names(list), spec_packed_lock_name()) {
        edit_names(list).push(spec_packed_lock_name())
    } else {
        edit_names(list)
    }
}

/// Why preparation failed.
pub enum PrepErrView {
    /// The packed file could not be loaded.
    PackedBroken,
    /// A dereferencing edit's chain revisited this name.
    CycleAt(Seq<u8>),
    /// A precondition failed.
    Check(CheckErrView),
    /// This name is edited twice.
    Dup(Seq<u8>),
    /// This name is already locked.
    Locked(Seq<u8>),
}

/// The whole preparation pipeline: expand dereferencing edits, enforce
/// preconditions, reject duplicate names, then find lock contention; on
/// success the finalized edits and the names to lock.
pub open spec fn spec_prepare(
    files: Seq<LooseFileView>,
    entries: Seq<EntryView>,
    locks: Seq<Seq<u8>>,
    edits: Seq<RefEditView>,
    fuel: nat,
) -> Result<(Seq<RefEditView>, Seq<Seq<u8>>), PrepErrView> {
    match spec_expand(files, entries, edits, fuel) {
        Err(n) => Err(PrepErrView::CycleAt(n)),
        Ok(expanded) => match spec_check_list(files, entries, expanded) {
            Err(x) => Err(PrepErrView::Check(x)),
            Ok(list) => match spec_first_dup(edit_names(list), 0) {
                Some(n) => Err(PrepErrView::Dup(n)),
                None => match spec_first_locked(locks, spec_lock_list(entries, list), 0) {
                    Some(n) => Err(PrepErrView::Locked(n)),
                    None => Ok((list, spec_lock_list(entries, list))),
                },
            },
        },
    }
}

impl Target {
    /// A copy of an optional target.
    fn duplicate_opt(t: &Option<Target>) -> (r: Option<Target>)
        ensures
            (match r {
                Some(x) => Some(x@),
                None => None::<TargetView>,
            }) == (match t {
                Some(x) => Some(x@),
                None => None::<TargetView>,
            }),
    {
        match t {
            Some(x) => Some(x.duplicate()),
            None => None,
        }
    }
}

impl Change {
    /// A copy of this change.
    pub fn duplicate(&self) -> (r: Change)
        ensures
            r@ == self@,
    {
        match self {
            Change::Update { log, message, new, previous } => Change::Update {
                log: *log,
                message: bytes_clone(message),
                new: new.duplicate(),
                previous: Target::duplicate_opt(previous),
            },
            Change::Delete { previous, log } => Change::Delete {
                previous: Target::duplicate_opt(previous),
                log: *log,
            },
        }
    }

    /// A copy with the precondition dropped.
    fn without_previous(&self) -> (r: Change)
        ensures
            r@ == change_no_previous(self@),
    {
        match self {
            Change::Update { log, message, new, previous } => Change::Update {
                log: *log,
                message: bytes_clone(message),
                new: new.duplicate(),
                previous: None,
            },
            Change::Delete { previous, log } => Change::Delete { previous: None, log: *log },
        }
    }
}

impl RefEdit {
    /// A copy of this edit.
    pub fn duplicate(&self) -> (r: RefEdit)
        ensures
            r@ == self@,
    {
        RefEdit {
            change: self.change.duplicate(),
            name: self.name.duplicate(),
            deref: self.deref,
        }
    }
}

} // verus!

verus! {

proof fn edits_of_facts(s: Seq<RefEdit>)
    ensures
        edits_of(s).len() == s.len(),
        forall|u: int| 0 <= u < s.len() ==> #[trigger] edits_of(s)[u] == s[u]@,
{
}

proof fn edit_names_facts(s: Seq<RefEditView>)
    ensures
        edit_names(s).len() == s.len(),
        forall|u: int| 0 <= u < s.len() ==> #[trigger] edit_names(s)[u] == s[u].name,
{
}

/// Membership in a concatenation is membership in one of the parts.
proof fn lemma_name_in_concat(a: Seq<Seq<u8>>, b: Seq<Seq<u8>>, x: Seq<u8>)
    ensures
        name_in(a + b, x) <==> name_in(a, x) || name_in(b, x),
{
    if name_in(a, x) {
        let w = choose|w: int| 0 <= w < a.len() && a[w] == x;
        assert((a + b)[w] == x);
    }
    if name_in(b, x) {
        let w = choose|w: int| 0 <= w < b.len() && b[w] == x;
        assert((a + b)[a.len() + w] == x);
    }
    if name_in(a + b, x) {
        let w = choose|w: int| 0 <= w < (a + b).len() && (a + b)[w] == x;
        if w < a.len() {
            assert(a[w] == x);
        } else {
            assert(b[w - a.len()] == x);
        }
    }
}

/// Without a duplicate from position `j` on, no later name repeats an
/// earlier one.
proof fn lemma_dup_none(names: Seq<Seq<u8>>, j: int)
    requires
        0 <= j <= names.len(),
        spec_first_dup(names, j) is None,
    ensures
        forall|b: int| j <= b < names.len() ==> !name_in(names.take(b), #[trigger] names[b]),
    decreases names.len() - j,
{
    if j < names.len() {
        lemma_dup_none(names, j + 1);
    }
}

/// Without contention from position `j` on, no later name is locked.
proof fn lemma_locked_none(locks: Seq<Seq<u8>>, names: Seq<Seq<u8>>, j: int)
    requires
        0 <= j <= names.len(),
        spec_first_locked(locks, names, j) is None,
    ensures
        forall|b: int| j <= b < names.len() ==> !name_in(locks, #[trigger] names[b]),
    decreases names.len() - j,
{
    if j < names.len() {
        lemma_locked_none(locks, names, j + 1);
    }
}

/// Expands one edit: itself, or one edit per name of its symbolic chain.
fn split_edit(store: &Store, packed: Option<&Buffer>, edit: RefEdit) -> (r: Result<
    Vec<RefEdit>,
    Error,
>)
    requires
        name_valid(edit.name@),
        packed_wf(packed),
        store.files().len() < usize::MAX,
    ensures
        match spec_split(
            store.files(),
            packed_entries(packed),
            edit@,
            (store.files().len() + 1) as nat,
        ) {
            Ok(list) => r is Ok && edits_of(r->Ok_0@) == list && (forall|k: int|
                0 <= k < list.len() ==> name_valid(#[trigger] list[k].name)),
            Err(n) => r matches Err(Error::Cycle { name }) && name@ == n,
        },
{
    let ghost files = store.files();
    let ghost entries = packed_entries(packed);
    let ghost ev = edit@;
    let ghost fuel0 = (store.files().len() + 1) as nat;
    if !edit.deref {
        let mut out: Vec<RefEdit> = Vec::new();
        out.push(edit);
        proof {
            edits_of_facts(out@);
            assert(edits_of(out@) =~= seq![ev]);
        }
        return Ok(out);
    }
    let ghost chain0 = spec_chain(files, entries, ev.name, seq![ev.name], fuel0);
    let mut cur: FullName = edit.name.duplicate();
    let mut names: Vec<FullName> = Vec::new();
    let mut visited: Vec<Vec<u8>> = Vec::new();
    visited.push(bytes_clone(edit.name.as_bytes()));
    let mut fuel: usize = store.loose_count() + 1;
    proof {
        assert(crate::name::views_of_bytes(visited@) =~= seq![ev.name]);
        assert(names_of(names@) =~= Seq::<Seq<u8>>::empty());
    }
    loop
        invariant_except_break
            files == store.files(),
            entries == packed_entries(packed),
            packed_wf(packed),
            ev == edit@,
            edit@.deref,
            chain0 == spec_chain(files, entries, ev.name, seq![ev.name], (files.len() + 1) as nat),
            name_valid(cur@),
            forall|k: int| 0 <= k < names@.len() ==> name_valid(#[trigger] names_of(names@)[k]),
            chain0 == (match spec_chain(
                files,
                entries,
                cur@,
                crate::name::views_of_bytes(visited@),
                fuel as nat,
            ) {
                Ok(rest) => Ok::<Seq<Seq<u8>>, Seq<u8>>(names_of(names@) + rest),
                Err(x) => Err(x),
            }),
        ensures
            chain0 == Ok::<Seq<Seq<u8>>, Seq<u8>>(names_of(names@)),
            forall|k: int| 0 <= k < names@.len() ==> name_valid(#[trigger] names_of(names@)[k]),
        decreases fuel,
    {
        let ghost cur0 = cur@;
        let ghost prev_names = names@;
        let step = store.try_find_exact(packed, cur.as_bytes());
        let next_name: FullName = match step {
            Ok(Some(crate::reference::Reference::Loose(le))) => match le.target {
                Target::Symbolic(next) => {
                    proof {
                        vnames_facts(visited@);
                    }
                    if bytes_in_edit_list(&visited, next.as_bytes()) {
                        return Err(Error::Cycle { name: next });
                    }
                    if fuel == 0 {
                        return Err(Error::Cycle { name: next });
                    }
                    next
                },
                Target::Peeled(_) => {
                    let ghost old_names = names@;
                    names.push(cur);
                    proof {
                        names_of_push(old_names, names@);
                        fnames_facts(names@);
                        assert(names_of(old_names) + seq![cur0] =~= names_of(names@));
                    }
                    break;
                },
            },
            _ => {
                let ghost old_names = names@;
                names.push(cur);
                proof {
                    names_of_push(old_names, names@);
                    fnames_facts(names@);
                    assert(names_of(old_names) + seq![cur0] =~= names_of(names@));
                }
                break;
            },
        };
        let ghost old_names = names@;
        let ghost old_visited = visited@;
        names.push(cur);
        visited.push(bytes_clone(next_name.as_bytes()));
        proof {
            names_of_push(old_names, names@);
            assert(crate::name::views_of_bytes(visited@) =~= crate::name::views_of_bytes(
                old_visited,
            ).push(next_name@));
            assert forall|rest: Seq<Seq<u8>>|
                true implies names_of(old_names) + (seq![names_of(names@).last()] + rest)
                =~= names_of(names@) + rest by {}
        }
        cur = next_name;
        fuel = fuel - 1;
    }
    // one edit per chain name; only the leaf keeps the precondition
    let ghost chain = names_of(names@);
    let ghost speclist = spec_split(files, entries, ev, fuel0)->Ok_0;
    let n: usize = names.len();
    let mut rest = names;
    let mut out: Vec<RefEdit> = Vec::new();
    let mut i: usize = 0;
    while i < n
        invariant
            n == chain.len(),
            names_of(rest@) =~= chain.skip(i as int),
            i <= n,
            speclist == Seq::new(
                chain.len(),
                |t: int|
                    RefEditView {
                        change: if t == chain.len() - 1 {
                            ev.change
                        } else {
                            change_no_previous(ev.change)
                        },
                        name: chain[t],
                        deref: false,
                    },
            ),
            edits_of(out@) =~= speclist.take(i as int),
            edit@ == ev,
        decreases n - i,
    {
        proof {
            fnames_facts(rest@);
            assert(names_of(rest@)[0] == chain[i as int]);
            assert(rest@[0]@ == chain[i as int]);
        }
        let ghost old_rest = rest@;
        let nm = rest.remove(0);
        proof {
            fnames_facts(old_rest);
            fnames_facts(rest@);
            assert forall|t: int| 0 <= t < rest@.len() implies names_of(rest@)[t] == chain.skip(
                i as int + 1,
            )[t] by {
                assert(rest@[t] == old_rest[t + 1]);
                assert(names_of(old_rest)[t + 1] == old_rest[t + 1]@);
                assert(names_of(old_rest) == chain.skip(i as int));
            }
            assert(names_of(rest@) =~= chain.skip(i as int + 1));
        }
        let change = if i + 1 == n {
            edit.change.duplicate()
        } else {
            edit.change.without_previous()
        };
        let ghost old_out = out@;
        out.push(RefEdit { change, name: nm, deref: false });
        proof {
            edits_of_facts(old_out);
            edits_of_facts(out@);
            assert(edits_of(out@) =~= speclist.take(i as int + 1));
        }
        i += 1;
    }
    proof {
        assert(speclist.take(n as int) =~= speclist);
        assert forall|k: int| 0 <= k < speclist.len() implies name_valid(
            #[trigger] speclist[k].name,
        ) by {
            assert(speclist[k].name == chain[k]);
        }
    }
    Ok(out)
}

/// Does `n` occur among `names`?
fn bytes_in_edit_list(names: &Vec<Vec<u8>>, n: &Vec<u8>) -> (r: bool)
    ensures
        r == name_in(crate::name::views_of_bytes(names@), n@),
{
    let m: usize = names.len();
    let mut k: usize = 0;
    while k < m
        invariant
            m == names@.len(),
            k <= m,
            forall|t: int|
                0 <= t < k ==> (#[trigger] crate::name::views_of_bytes(names@)[t]) != n@,
        decreases m - k,
    {
        proof {
            assert(crate::name::views_of_bytes(names@)[k as int] == names@[k as int]@);
        }
        if bytes_eq(&names[k], n) {
            return true;
        }
        k += 1;
    }
    false
}

proof fn vnames_facts(s: Seq<Vec<u8>>)
    ensures
        crate::name::views_of_bytes(s).len() == s.len(),
        forall|u: int| 0 <= u < s.len() ==> #[trigger] crate::name::views_of_bytes(s)[u] == s[u]@,
{
}

proof fn fnames_facts(s: Seq<FullName>)
    ensures
        names_of(s).len() == s.len(),
        forall|u: int| 0 <= u < s.len() ==> #[trigger] names_of(s)[u] == s[u]@,
{
}

proof fn names_of_push(old_names: Seq<FullName>, new_names: Seq<FullName>)
    requires
        new_names.len() == old_names.len() + 1,
        forall|t: int| 0 <= t < old_names.len() ==> new_names[t] == old_names[t],
    ensures
        names_of(new_names) == names_of(old_names).push(new_names.last()@),
{
    assert(names_of(new_names) =~= names_of(old_names).push(new_names.last()@));
}

} // verus!

verus! {

/// Enforces one edit's precondition, filling in the observed value.
fn check_edit(store: &Store, packed: Option<&Buffer>, edit: RefEdit) -> (r: Result<RefEdit, Error>)
    requires
        name_valid(edit.name@),
        packed_wf(packed),
    ensures
        match spec_check(store.files(), packed_entries(packed), edit@) {
            Ok(e2) => r is Ok && r->Ok_0@ == e2 && name_valid(r->Ok_0.name@),
            Err(CheckErrView::DeleteNonexisting(n)) => r matches Err(
                Error::DeleteNonexisting { name },
            ) && name@ == n,
            Err(CheckErrView::OutOfDate(n, e, a)) => r matches Err(
                Error::ReferenceOutOfDate { name, expected, actual },
            ) && name@ == n && expected@ == e && actual@ == a,
            Err(CheckErrView::MustExist(n)) => r matches Err(Error::MustExist { name }) && name@
                == n,
        },
{
    let cur = store.current_value(packed, edit.name.as_bytes());
    let RefEdit { change, name, deref } = edit;
    match change {
        Change::Delete { previous, log } => match previous {
            None => Ok(RefEdit { change: Change::Delete { previous: None, log }, name, deref }),
            Some(exp) => match cur {
                None => Err(Error::DeleteNonexisting { name }),
                Some(act) => {
                    if exp.is_must_exist() || exp == act {
                        Ok(
                            RefEdit {
                                change: Change::Delete { previous: Some(act), log },
                                name,
                                deref,
                            },
                        )
                    } else {
                        Err(Error::ReferenceOutOfDate { name, expected: exp, actual: act })
                    }
                },
            },
        },
        Change::Update { log, message, new, previous } => match previous {
            None => Ok(
                RefEdit {
                    change: Change::Update { log, message, new, previous: cur },
                    name,
                    deref,
                },
            ),
            Some(exp) => match cur {
                None => Err(Error::MustExist { name }),
                Some(act) => {
                    if exp.is_must_exist() || exp == act {
                        Ok(
                            RefEdit {
                                change: Change::Update { log, message, new, previous: Some(act) },
                                name,
                                deref,
                            },
                        )
                    } else {
                        Err(Error::ReferenceOutOfDate { name, expected: exp, actual: act })
                    }
                },
            },
        },
    }
}

/// Expands every requested edit, in order.
fn expand_edits(store: &Store, packed: Option<&Buffer>, edits: Vec<RefEdit>) -> (r: Result<
    Vec<RefEdit>,
    Error,
>)
    requires
        forall|k: int| 0 <= k < edits@.len() ==> name_valid(#[trigger] edits_of(edits@)[k].name),
        packed_wf(packed),
        store.files().len() < usize::MAX,
    ensures
        match spec_expand(
            store.files(),
            packed_entries(packed),
            edits_of(edits@),
            (store.files().len() + 1) as nat,
        ) {
            Ok(list) => r is Ok && edits_of(r->Ok_0@) == list && (forall|k: int|
                0 <= k < list.len() ==> name_valid(#[trigger] list[k].name)),
            Err(n) => r matches Err(Error::Cycle { name }) && name@ == n,
        },
{
    let ghost files = store.files();
    let ghost entries = packed_entries(packed);
    let ghost eviews = edits_of(edits@);
    let ghost fuel0 = (store.files().len() + 1) as nat;
    let n: usize = edits.len();
    let mut rest = edits;
    let mut out: Vec<RefEdit> = Vec::new();
    let mut i: usize = 0;
    proof {
        edits_of_facts(rest@);
        assert(edits_of(rest@) =~= eviews.skip(0));
        assert(edits_of(out@) =~= Seq::<RefEditView>::empty());
    }
    #[verifier::loop_isolation(false)]
    while i < n
        invariant
            n == eviews.len(),
            files == store.files(),
            files.len() < usize::MAX,
            fuel0 == (files.len() + 1) as nat,
            entries == packed_entries(packed),
            packed_wf(packed),
            forall|k: int| 0 <= k < eviews.len() ==> name_valid(#[trigger] eviews[k].name),
            i <= n,
            edits_of(rest@) =~= eviews.skip(i as int),
            forall|k: int|
                0 <= k < edits_of(out@).len() ==> name_valid(#[trigger] edits_of(out@)[k].name),
            spec_expand(files, entries, eviews, fuel0) == (match spec_expand(
                files,
                entries,
                eviews.skip(i as int),
                fuel0,
            ) {
                Ok(t) => Ok::<Seq<RefEditView>, Seq<u8>>(edits_of(out@) + t),
                Err(x) => Err(x),
            }),
        decreases n - i,
    {
        proof {
            edits_of_facts(rest@);
            assert(edits_of(rest@)[0] == rest@[0]@);
            assert(eviews.skip(i as int)[0] == eviews[i as int]);
        }
        let ghost old_rest = rest@;
        let e = rest.remove(0);
        proof {
            edits_of_facts(old_rest);
            edits_of_facts(rest@);
            assert forall|t: int| 0 <= t < rest@.len() implies edits_of(rest@)[t] == eviews.skip(
                i as int + 1,
            )[t] by {
                assert(rest@[t] == old_rest[t + 1]);
                assert(edits_of(old_rest)[t + 1] == old_rest[t + 1]@);
                assert(edits_of(old_rest) =~= eviews.skip(i as int));
            }
            assert(edits_of(rest@) =~= eviews.skip(i as int + 1));
        }
        let ghost ehead = e@;
        proof {
            assert(ehead == eviews[i as int]);
            assert(eviews.skip(i as int).skip(1) =~= eviews.skip(i as int + 1));
        }
        let split = match split_edit(store, packed, e) {
            Ok(v) => v,
            Err(err) => {
                proof {
                    assert(spec_expand(files, entries, eviews.skip(i as int), fuel0) == (
                    match spec_split(files, entries, eviews[i as int], fuel0) {
                        Err(x) => Err::<Seq<RefEditView>, Seq<u8>>(x),
                        Ok(h) => match spec_expand(files, entries, eviews.skip(i as int + 1), fuel0) {
                            Err(x) => Err(x),
                            Ok(t) => Ok(h + t),
                        },
                    }));
                }
                return Err(err);
            },
        };
        let ghost splitv = edits_of(split@);
        let ghost out_before = edits_of(out@);
        let m: usize = split.len();
        let mut srest = split;
        let mut k: usize = 0;
        proof {
            edits_of_facts(srest@);
            assert(edits_of(srest@) =~= splitv.skip(0));
            assert(edits_of(out@) =~= out_before + splitv.take(0));
        }
        while k < m
            invariant
                m == splitv.len(),
                k <= m,
                edits_of(srest@) =~= splitv.skip(k as int),
                forall|t: int| 0 <= t < splitv.len() ==> name_valid(#[trigger] splitv[t].name),
                forall|t: int|
                    0 <= t < edits_of(out@).len() ==> name_valid(
                        #[trigger] edits_of(out@)[t].name,
                    ),
                edits_of(out@) =~= out_before + splitv.take(k as int),
            decreases m - k,
        {
            proof {
                edits_of_facts(srest@);
                assert(edits_of(srest@)[0] == srest@[0]@);
                assert(splitv.skip(k as int)[0] == splitv[k as int]);
            }
            let ghost old_srest = srest@;
            let item = srest.remove(0);
            let ghost old_out = out@;
            out.push(item);
            proof {
                edits_of_facts(old_srest);
                edits_of_facts(srest@);
                edits_of_facts(old_out);
                edits_of_facts(out@);
                assert forall|t: int| 0 <= t < srest@.len() implies edits_of(srest@)[t]
                    == splitv.skip(k as int + 1)[t] by {
                    assert(srest@[t] == old_srest[t + 1]);
                    assert(edits_of(old_srest)[t + 1] == old_srest[t + 1]@);
                    assert(edits_of(old_srest) =~= splitv.skip(k as int));
                }
                assert(edits_of(srest@) =~= splitv.skip(k as int + 1));
                assert(splitv.take(k as int + 1) =~= splitv.take(k as int).push(
                    splitv[k as int],
                ));
                assert(edits_of(out@) =~= edits_of(old_out).push(splitv[k as int]));
                assert(edits_of(out@) =~= out_before + splitv.take(k as int + 1));
            }
            k += 1;
        }
        proof {
            assert(splitv.take(m as int) =~= splitv);
            assert(edits_of(out@) =~= out_before + splitv);
            assert(spec_split(files, entries, eviews[i as int], fuel0) == Ok::<
                Seq<RefEditView>,
                Seq<u8>,
            >(splitv));
            assert(spec_expand(files, entries, eviews.skip(i as int), fuel0) == (
            match spec_expand(files, entries, eviews.skip(i as int + 1), fuel0) {
                Ok(t) => Ok::<Seq<RefEditView>, Seq<u8>>(splitv + t),
                Err(x) => Err(x),
            }));
            match spec_expand(files, entries, eviews.skip(i as int + 1), fuel0) {
                Ok(t) => {
                    assert((out_before + splitv) + t =~= out_before + (splitv + t));
                },
                Err(_) => {},
            }
        }
        i += 1;
    }
    proof {
        assert(eviews.skip(n as int) =~= Seq::<RefEditView>::empty());
        assert(edits_of(out@) + Seq::<RefEditView>::empty() =~= edits_of(out@));
    }
    Ok(out)
}

} // verus!

verus! {

/// Checks the whole expanded list; the first failure wins.
fn check_list(store: &Store, packed: Option<&Buffer>, list: Vec<RefEdit>) -> (r: Result<
    Vec<RefEdit>,
    Error,
>)
    requires
        forall|k: int| 0 <= k < list@.len() ==> name_valid(#[trigger] edits_of(list@)[k].name),
        packed_wf(packed),
    ensures
        match spec_check_list(store.files(), packed_entries(packed), edits_of(list@)) {
            Ok(l2) => r is Ok && edits_of(r->Ok_0@) == l2 && (forall|k: int|
                0 <= k < l2.len() ==> name_valid(#[trigger] l2[k].name)),
            Err(CheckErrView::DeleteNonexisting(n)) => r matches Err(
                Error::DeleteNonexisting { name },
            ) && name@ == n,
            Err(CheckErrView::OutOfDate(n, e, a)) => r matches Err(
                Error::ReferenceOutOfDate { name, expected, actual },
            ) && name@ == n && expected@ == e && actual@ == a,
            Err(CheckErrView::MustExist(n)) => r matches Err(Error::MustExist { name }) && name@
                == n,
        },
{
    let ghost files = store.files();
    let ghost entries = packed_entries(packed);
    let ghost lviews = edits_of(list@);
    let n: usize = list.len();
    let mut rest = list;
    let mut out: Vec<RefEdit> = Vec::new();
    let mut i: usize = 0;
    proof {
        edits_of_facts(rest@);
        assert(edits_of(rest@) =~= lviews.skip(0));
        assert(edits_of(out@) =~= Seq::<RefEditView>::empty());
    }
    #[verifier::loop_isolation(false)]
    while i < n
        invariant
            i <= n,
            edits_of(rest@) =~= lviews.skip(i as int),
            forall|k: int|
                0 <= k < edits_of(out@).len() ==> name_valid(#[trigger] edits_of(out@)[k].name),
            spec_check_list(files, entries, lviews) == (match spec_check_list(
                files,
                entries,
                lviews.skip(i as int),
            ) {
                Ok(t) => Ok::<Seq<RefEditView>, CheckErrView>(edits_of(out@) + t),
                Err(x) => Err(x),
            }),
        decreases n - i,
    {
        proof {
            edits_of_facts(rest@);
            assert(edits_of(rest@)[0] == rest@[0]@);
            assert(lviews.skip(i as int)[0] == lviews[i as int]);
            assert(lviews.skip(i as int).skip(1) =~= lviews.skip(i as int + 1));
        }
        let ghost old_rest = rest@;
        let e = rest.remove(0);
        proof {
            edits_of_facts(old_rest);
            edits_of_facts(rest@);
            assert forall|t: int| 0 <= t < rest@.len() implies edits_of(rest@)[t] == lviews.skip(
                i as int + 1,
            )[t] by {
                assert(rest@[t] == old_rest[t + 1]);
                assert(edits_of(old_rest)[t + 1] == old_rest[t + 1]@);
                assert(edits_of(old_rest) =~= lviews.skip(i as int));
            }
            assert(edits_of(rest@) =~= lviews.skip(i as int + 1));
            assert(e@ == lviews[i as int]);
        }
        let checked = match check_edit(store, packed, e) {
            Ok(c) => c,
            Err(err) => {
                return Err(err);
            },
        };
        let ghost cview = checked@;
        let ghost old_out = out@;
        out.push(checked);
        proof {
            edits_of_facts(old_out);
            edits_of_facts(out@);
            assert forall|t: int| 0 <= t < edits_of(out@).len() implies name_valid(
                #[trigger] edits_of(out@)[t].name,
            ) by {
                if t < old_out.len() {
                    assert(edits_of(out@)[t] == edits_of(old_out)[t]);
                } else {
                    assert(edits_of(out@)[t] == cview);
                }
            }
            match spec_check_list(files, entries, lviews.skip(i as int + 1)) {
                Ok(t) => {
                    assert(edits_of(out@) =~= edits_of(old_out).push(
                        spec_check(files, entries, lviews[i as int])->Ok_0,
                    ));
                    assert(edits_of(old_out) + (seq![
                        spec_check(files, entries, lviews[i as int])->Ok_0,
                    ] + t) =~= edits_of(out@) + t);
                },
                Err(_) => {},
            }
        }
        i += 1;
    }
    proof {
        assert(lviews.skip(n as int) =~= Seq::<RefEditView>::empty());
        assert(edits_of(out@) + Seq::<RefEditView>::empty() =~= edits_of(out@));
    }
    Ok(out)
}

/// The first name edited twice, if any.
fn find_dup(list: &Vec<RefEdit>) -> (r: Option<FullName>)
    ensures
        match r {
            Some(f) => spec_first_dup(edit_names(edits_of(list@)), 0) == Some(f@),
            None => spec_first_dup(edit_names(edits_of(list@)), 0) is None,
        },
{
    let ghost names = edit_names(edits_of(list@));
    let n: usize = list.len();
    let mut j: usize = 0;
    proof {
        edits_of_facts(list@);
        edit_names_facts(edits_of(list@));
    }
    #[verifier::loop_isolation(false)]
    while j < n
        invariant
            j <= n,
            n == names.len(),
            spec_first_dup(names, 0) == spec_first_dup(names, j as int),
        decreases n - j,
    {
        let mut i: usize = 0;
        #[verifier::loop_isolation(false)]
        while i < j
            invariant
                i <= j,
                forall|t: int| 0 <= t < i ==> (#[trigger] names.take(j as int)[t]) != names[j as int],
            decreases j - i,
        {
            proof {
                assert(names.take(j as int)[i as int] == names[i as int]);
                assert(names[i as int] == list@[i as int]@.name);
                assert(names[j as int] == list@[j as int]@.name);
            }
            if bytes_eq(list[i].name.as_bytes(), list[j].name.as_bytes()) {
                proof {
                    assert(name_in(names.take(j as int), names[j as int]));
                }
                return Some(list[j].name.duplicate());
            }
            i += 1;
        }
        proof {
            assert(!name_in(names.take(j as int), names[j as int]));
        }
        j += 1;
    }
    None
}

/// Does some deletion touch a packed entry?
fn needs_packed_lock(packed: Option<&Buffer>, list: &Vec<RefEdit>) -> (r: bool)
    requires
        packed_wf(packed),
    ensures
        r == spec_needs_packed(packed_entries(packed), edits_of(list@)),
{
    let ghost lviews = edits_of(list@);
    let n: usize = list.len();
    let mut k: usize = 0;
    proof {
        edits_of_facts(list@);
    }
    #[verifier::loop_isolation(false)]
    while k < n
        invariant
            k <= n,
            forall|t: int|
                0 <= t < k ==> !((#[trigger] lviews[t].change matches ChangeView::Delete {
                    log: RefLog::AndReference,
                    ..
                }) && spec_find_name(packed_entries(packed), lviews[t].name) is Some),
        decreases n - k,
    {
        let is_del = match &list[k].change {
            Change::Delete { log: RefLog::AndReference, .. } => true,
            _ => false,
        };
        if is_del {
            match packed {
                Some(buf) => {
                    match buf.find_full_name(list[k].name.as_bytes()) {
                        Some(_) => {
                            proof {
                                assert(lviews[k as int].change matches ChangeView::Delete {
                                    log: RefLog::AndReference,
                                    ..
                                });
                            }
                            return true;
                        },
                        None => {},
                    }
                },
                None => {
                    proof {
                        assert(packed_entries(packed) =~= Seq::<EntryView>::empty());
                        crate::packed::lemma_find_name_empty(lviews[k as int].name);
                    }
                },
            }
        }
        k += 1;
    }
    false
}

} // verus!

verus! {

/// The entries of the store's packed file: nothing when no file exists,
/// or the parsed, sorted entries; a broken file is an error.
pub open spec fn spec_store_entries(s: Store) -> Result<Seq<EntryView>, ()> {
    match s.packed_bytes() {
        None => Ok(Seq::empty()),
        Some(b) => {
            if crate::packed::spec_parse_packed(b, 0) is Some && crate::packed::sorted_names(
                crate::packed::spec_parse_packed(b, 0)->0,
            ) {
                Ok(crate::packed::spec_parse_packed(b, 0)->0)
            } else {
                Err(())
            }
        },
    }
}

/// A duplicate-free scan means pairwise distinct names.
proof fn lemma_unique_from_dup_none(names: Seq<Seq<u8>>)
    requires
        spec_first_dup(names, 0) is None,
    ensures
        crate::store::names_unique(names),
{
    lemma_dup_none(names, 0);
    assert forall|a: int, b: int| 0 <= a < b < names.len() implies (#[trigger] names[a])
        != (#[trigger] names[b]) by {
        if names[a] == names[b] {
            assert(names.take(b)[a] == names[a]);
            assert(name_in(names.take(b), names[b]));
        }
    }
}

/// A transaction on a store; holds the configuration of one prepare-and-
/// commit round.
#[derive(Debug, Clone, Copy)]
pub struct Transaction {}

impl Store {
    /// Begins a transaction on this store.
    pub fn transaction(&self) -> (r: Transaction) {
        Transaction {  }
    }
}

/// A prepared transaction: the finalized edits and the names locked for
/// them. No on-disk state has changed yet.
#[derive(Debug)]
pub struct PreparedTransaction {
    /// The finalized (dereferenced, checked) edits.
    pub edits: Vec<RefEdit>,
    /// The names locked, released when the commit returns.
    pub locked: Vec<Vec<u8>>,
}

impl Transaction {
    /// Resolves each requested edit against the current state, enforces
    /// its precondition, and takes the exclusive lock on every touched
    /// name — or fails with nothing changed and nothing locked.
    pub fn prepare(self, store: &mut Store, edits: Vec<RefEdit>, how: Fail) -> (r: Result<
        PreparedTransaction,
        Error,
    >)
        requires
            old(store).wf(),
            forall|k: int| 0 <= k < edits@.len() ==> name_valid(#[trigger] edits_of(edits@)[k].name),
            old(store).files().len() < usize::MAX,
        ensures
            final(store).wf(),
            final(store).files() == old(store).files(),
            final(store).logs() == old(store).logs(),
            final(store).packed_bytes() == old(store).packed_bytes(),
            final(store).spec_reflog_mode() == old(store).spec_reflog_mode(),
            match spec_store_entries(*old(store)) {
                Err(_) => r matches Err(Error::Packed(_)) && final(store).lock_names() == old(
                    store,
                ).lock_names(),
                Ok(entries) => match spec_prepare(
                    old(store).files(),
                    entries,
                    old(store).lock_names(),
                    edits_of(edits@),
                    (old(store).files().len() + 1) as nat,
                ) {
                    Ok((list, lnames)) => r is Ok && edits_of(r->Ok_0.edits@) == list
                        && crate::name::views_of_bytes(r->Ok_0.locked@) == lnames
                        && final(store).lock_names() == old(store).lock_names() + lnames,
                    Err(pe) => final(store).lock_names() == old(store).lock_names() && (match pe {
                        PrepErrView::PackedBroken => false,
                        PrepErrView::CycleAt(n) => r matches Err(Error::Cycle { name }) && name@
                            == n,
                        PrepErrView::Check(CheckErrView::DeleteNonexisting(n)) => r matches Err(
                            Error::DeleteNonexisting { name },
                        ) && name@ == n,
                        PrepErrView::Check(CheckErrView::OutOfDate(n, e, a)) => r matches Err(
                            Error::ReferenceOutOfDate { name, expected, actual },
                        ) && name@ == n && expected@ == e && actual@ == a,
                        PrepErrView::Check(CheckErrView::MustExist(n)) => r matches Err(
                            Error::MustExist { name },
                        ) && name@ == n,
                        PrepErrView::Dup(n) => r matches Err(Error::DuplicateEdit { name })
                            && name@ == n,
                        PrepErrView::Locked(n) => r matches Err(Error::LockContention { name })
                            && name@ == n,
                    }),
                },
            },
    {
        let _ = how;
        let buf = match store.packed_buffer() {
            Ok(b) => b,
            Err(e) => {
                return Err(Error::Packed(e));
            },
        };
        let packed = buf.as_ref();
        let ghost entries = packed_entries(packed);
        proof {
            if old(store).packed_bytes() is None {
                assert(entries =~= Seq::<EntryView>::empty());
            }
            assert(spec_store_entries(*old(store)) == Ok::<Seq<EntryView>, ()>(entries));
        }
        let expanded = match expand_edits(&*store, packed, edits) {
            Ok(v) => v,
            Err(e) => {
                return Err(e);
            },
        };
        let checked = match check_list(&*store, packed, expanded) {
            Ok(v) => v,
            Err(e) => {
                return Err(e);
            },
        };
        match find_dup(&checked) {
            Some(f) => {
                return Err(Error::DuplicateEdit { name: f });
            },
            None => {},
        }
        let ghost list = edits_of(checked@);
        // every touched name is locked, and the packed file when needed
        proof {
            reveal_strlit("packed-refs");
            assert(vstd::string::is_ascii("packed-refs"));
        }
        let pseudo = crate::bytestr::str_bytes("packed-refs");
        let mut locknames: Vec<Vec<u8>> = Vec::new();
        let n: usize = checked.len();
        let mut i: usize = 0;
        proof {
            edits_of_facts(checked@);
            edit_names_facts(list);
            vnames_facts(locknames@);
            assert(crate::name::views_of_bytes(locknames@) =~= edit_names(list).take(0));
        }
        #[verifier::loop_isolation(false)]
        while i < n
            invariant
                i <= n,
                n == list.len(),
                crate::name::views_of_bytes(locknames@) =~= edit_names(list).take(i as int),
            decreases n - i,
        {
            let ghost old_ln = locknames@;
            locknames.push(bytes_clone(checked[i].name.as_bytes()));
            proof {
                vnames_facts(old_ln);
                vnames_facts(locknames@);
                assert(crate::name::views_of_bytes(locknames@) =~= edit_names(list).take(
                    i as int + 1,
                ));
            }
            i += 1;
        }
        proof {
            assert(edit_names(list).take(n as int) =~= edit_names(list));
        }
        let needs = needs_packed_lock(packed, &checked);
        if needs && !bytes_in_edit_list(&locknames, &pseudo) {
            let ghost old_ln = locknames@;
            locknames.push(bytes_clone(&pseudo));
            proof {
                vnames_facts(old_ln);
                vnames_facts(locknames@);
                assert(crate::name::views_of_bytes(locknames@) =~= edit_names(list).push(
                    spec_packed_lock_name(),
                ));
                assert(crate::name::views_of_bytes(locknames@) =~= spec_lock_list(entries, list));
            }
        } else {
            proof {
                assert(crate::name::views_of_bytes(locknames@) =~= spec_lock_list(entries, list));
            }
        }
        let ghost lnames = crate::name::views_of_bytes(locknames@);
        // fail on the first contended name, taking nothing
        let m: usize = locknames.len();
        let mut j: usize = 0;
        #[verifier::loop_isolation(false)]
        while j < m
            invariant
                j <= m,
                m == lnames.len(),
                spec_first_locked(store.lock_names(), lnames, 0) == spec_first_locked(
                    store.lock_names(),
                    lnames,
                    j as int,
                ),
            decreases m - j,
        {
            proof {
                vnames_facts(locknames@);
            }
            if store.is_locked(&locknames[j]) {
                let nm = match FullName::try_from(bytes_clone(&locknames[j])) {
                    Ok(f) => f,
                    Err(_) => {
                        proof {
                            lemma_lock_names_valid(list, lnames, j as int);
                        }
                        return Err(Error::Packed(BufferError::Malformed));
                    },
                };
                return Err(Error::LockContention { name: nm });
            }
            j += 1;
        }
        proof {
            lemma_locked_none(store.lock_names(), lnames, 0);
            lemma_unique_from_dup_none(edit_names(list));
            lemma_lock_list_unique(entries, list);
        }
        // take every lock
        let ghost locks0 = store.lock_names();
        let mut k: usize = 0;
        #[verifier::loop_isolation(false)]
        while k < m
            invariant
                k <= m,
                store.wf(),
                store.files() == old(store).files(),
                store.logs() == old(store).logs(),
                store.packed_bytes() == old(store).packed_bytes(),
                store.spec_reflog_mode() == old(store).spec_reflog_mode(),
                store.lock_names() =~= locks0 + lnames.take(k as int),
            decreases m - k,
        {
            proof {
                vnames_facts(locknames@);
                lemma_name_in_concat(locks0, lnames.take(k as int), lnames[k as int]);
                assert(!name_in(lnames.take(k as int), lnames[k as int])) by {
                    if name_in(lnames.take(k as int), lnames[k as int]) {
                        let w = choose|w: int|
                            0 <= w < k && lnames.take(k as int)[w] == lnames[k as int];
                        assert(lnames[w] == lnames[k as int]);
                    }
                }
            }
            store.add_lock(bytes_clone(&locknames[k]));
            proof {
                assert(store.lock_names() =~= locks0 + lnames.take(k as int + 1));
            }
            k += 1;
        }
        proof {
            assert(lnames.take(m as int) =~= lnames);
        }
        Ok(PreparedTransaction { edits: checked, locked: locknames })
    }
}

/// Every name the lock list carries is valid: edited names are, and so is
/// the packed file's.
proof fn lemma_lock_names_valid(list: Seq<RefEditView>, lnames: Seq<Seq<u8>>, j: int)
    requires
        forall|k: int| 0 <= k < list.len() ==> name_valid(#[trigger] list[k].name),
        lnames == edit_names(list) || lnames == edit_names(list).push(spec_packed_lock_name()),
        0 <= j < lnames.len(),
    ensures
        name_valid(lnames[j]),
{
    edit_names_facts(list);
    reveal_strlit("packed-refs");
    assert(name_valid(spec_packed_lock_name())) by {
        assert(spec_packed_lock_name()[0] == 'p' as u8);
        assert(forall|t: int|
            0 <= t < spec_packed_lock_name().len() ==> !crate::name::is_control(
                #[trigger] spec_packed_lock_name()[t],
            ));
        assert(!crate::name::has_double_dot(spec_packed_lock_name())) by {
            if crate::name::has_double_dot(spec_packed_lock_name()) {
                let i = choose|i: int|
                    0 <= i && i + 1 < spec_packed_lock_name().len()
                        && #[trigger] spec_packed_lock_name()[i] == 46
                        && spec_packed_lock_name()[i + 1] == 46;
            }
        }
    }
    if j < edit_names(list).len() {
        assert(edit_names(list)[j] == list[j].name);
    }
}

/// The lock list is pairwise distinct once the duplicate check passed.
proof fn lemma_lock_list_unique(entries: Seq<EntryView>, list: Seq<RefEditView>)
    requires
        crate::store::names_unique(edit_names(list)),
    ensures
        crate::store::names_unique(spec_lock_list(entries, list)),
{
    let names = edit_names(list);
    let out = spec_lock_list(entries, list);
    if spec_needs_packed(entries, list) && !name_in(names, spec_packed_lock_name()) {
        assert forall|a: int, b: int| 0 <= a < b < out.len() implies (#[trigger] out[a])
            != (#[trigger] out[b]) by {
            if b == names.len() {
                if out[a] == out[b] {
                    assert(names[a] == spec_packed_lock_name());
                    assert(name_in(names, spec_packed_lock_name()));
                }
            } else {
                assert(out[a] == names[a] && out[b] == names[b]);
            }
        }
    }
}

} // verus!

verus! {

/// The identity recorded as a history line's "before": the expected
/// previous value when it was direct, the all-zero identity otherwise.
pub open spec fn spec_old_id(previous: Option<TargetView>) -> Seq<u8> {
    match previous {
        Some(TargetView::Peeled(id)) => id,
        _ => spec_null_id(),
    }
}

/// The identity recorded as a history line's "after": the new target when
/// direct, the all-zero identity for a symbolic target.
pub open spec fn spec_new_id(new: TargetView) -> Seq<u8> {
    match new {
        TargetView::Peeled(id) => id,
        TargetView::Symbolic(_) => spec_null_id(),
    }
}

/// One applied edit: what it leaves of the loose files and the histories.
/// Deletions always remove the history; the reference itself goes only
/// with `AndReference`. Updates append a history line unless the store
/// disables reflogs, and write the reference only with `AndReference`.
pub open spec fn spec_apply_edit(
    files: Seq<LooseFileView>,
    logs: Seq<ReflogView>,
    e: RefEditView,
    sigv: SignatureView,
    mode: WriteReflog,
) -> (Seq<LooseFileView>, Seq<ReflogView>) {
    match e.change {
        ChangeView::Delete { previous, log } => {
            let logs2 = spec_log_delete(logs, e.name);
            if log == RefLog::AndReference {
                (spec_remove_file(files, e.name), logs2)
            } else {
                (files, logs2)
            }
        },
        ChangeView::Update { log, message, new, previous } => {
            let logs2 = if mode == WriteReflog::Normal {
                spec_log_append(
                    logs,
                    e.name,
                    LineView {
                        previous_oid: spec_old_id(previous),
                        new_oid: spec_new_id(new),
                        signature: sigv,
                        message,
                    },
                )
            } else {
                logs
            };
            if log == RefLog::AndReference {
                (
                    spec_insert_file(
                        files,
                        LooseFileView { path: e.name, content: spec_content_of(new) },
                    ),
                    logs2,
                )
            } else {
                (files, logs2)
            }
        },
    }
}

/// The whole edit list applied, in the caller-supplied order.
pub open spec fn spec_apply_list(
    files: Seq<LooseFileView>,
    logs: Seq<ReflogView>,
    list: Seq<RefEditView>,
    sigv: SignatureView,
    mode: WriteReflog,
) -> (Seq<LooseFileView>, Seq<ReflogView>)
    decreases list.len(),
{
    if list.len() == 0 {
        (files, logs)
    } else {
        let (f2, l2) = spec_apply_edit(files, logs, list[0], sigv, mode);
        spec_apply_list(f2, l2, list.skip(1), sigv, mode)
    }
}

/// The names whose packed entries the edit list removes: every deletion
/// that also removes the reference itself.
pub open spec fn spec_dels(list: Seq<RefEditView>) -> Seq<Seq<u8>>
    decreases list.len(),
{
    if list.len() == 0 {
        Seq::empty()
    } else {
        (if list[0].change matches ChangeView::Delete { log: RefLog::AndReference, .. } {
            seq![list[0].name]
        } else {
            Seq::<Seq<u8>>::empty()
        }) + spec_dels(list.skip(1))
    }
}

/// The packed file after the deletions: untouched when nothing packed is
/// deleted or no file exists; otherwise rewritten without the deleted
/// names, and removed entirely when no entry survives. A file that cannot
/// be parsed fails the rewrite.
pub open spec fn spec_packed_after(packed: Option<Seq<u8>>, dels: Seq<Seq<u8>>) -> Result<
    Option<Seq<u8>>,
    (),
> {
    if dels.len() == 0 {
        Ok(packed)
    } else {
        match packed {
            None => Ok(None),
            Some(b) => {
                if crate::packed::spec_parse_packed(b, 0) is Some && crate::packed::sorted_names(
                    crate::packed::spec_parse_packed(b, 0)->0,
                ) {
                    let es = crate::packed::spec_parse_packed(b, 0)->0;
                    if !spec_any_packed(es, dels) {
                        Ok(packed)
                    } else {
                        let kept = spec_kept(es, dels);
                        if kept.len() == 0 {
                            Ok(None)
                        } else {
                            Ok(Some(spec_serialize(kept)))
                        }
                    }
                } else {
                    Err(())
                }
            },
        }
    }
}

/// Does any of `dels` name a packed entry?
pub open spec fn spec_any_packed(entries: Seq<EntryView>, dels: Seq<Seq<u8>>) -> bool {
    exists|k: int| 0 <= k < dels.len() && spec_find_name(entries, #[trigger] dels[k]) is Some
}

/// The locks after releasing `names`, in order.
pub open spec fn spec_unlock(locks: Seq<Seq<u8>>, names: Seq<Seq<u8>>) -> Seq<Seq<u8>>
    decreases names.len(),
{
    if names.len() == 0 {
        locks
    } else {
        spec_unlock(spec_name_remove(locks, names[0]), names.skip(1))
    }
}

/// The identity a history line records as "before".
fn old_id_of(previous: &Option<Target>) -> (r: ObjectId)
    ensures
        r@ == spec_old_id(
            match previous {
                Some(t) => Some(t@),
                None => None,
            },
        ),
{
    match previous {
        Some(Target::Peeled(id)) => id.duplicate(),
        _ => ObjectId::null(),
    }
}

/// The identity a history line records as "after".
fn new_id_of(new: &Target) -> (r: ObjectId)
    ensures
        r@ == spec_new_id(new@),
{
    match new {
        Target::Peeled(id) => id.duplicate(),
        Target::Symbolic(_) => ObjectId::null(),
    }
}

/// Releases every lock in `names`, in order.
fn release_locks(store: &mut Store, names: &Vec<Vec<u8>>)
    requires
        old(store).wf(),
    ensures
        final(store).wf(),
        final(store).files() == old(store).files(),
        final(store).logs() == old(store).logs(),
        final(store).packed_bytes() == old(store).packed_bytes(),
        final(store).spec_reflog_mode() == old(store).spec_reflog_mode(),
        final(store).lock_names() == spec_unlock(
            old(store).lock_names(),
            crate::name::views_of_bytes(names@),
        ),
{
    let ghost nviews = crate::name::views_of_bytes(names@);
    let ghost locks0 = old(store).lock_names();
    let n: usize = names.len();
    let mut k: usize = 0;
    proof {
        vnames_facts(names@);
        assert(nviews.skip(0) =~= nviews);
    }
    #[verifier::loop_isolation(false)]
    while k < n
        invariant
            k <= n,
            store.wf(),
            store.files() == old(store).files(),
            store.logs() == old(store).logs(),
            store.packed_bytes() == old(store).packed_bytes(),
            store.spec_reflog_mode() == old(store).spec_reflog_mode(),
            spec_unlock(locks0, nviews) == spec_unlock(store.lock_names(), nviews.skip(k as int)),
        decreases n - k,
    {
        proof {
            assert(nviews.skip(k as int)[0] == nviews[k as int]);
            assert(nviews.skip(k as int).skip(1) =~= nviews.skip(k as int + 1));
        }
        store.remove_lock(&names[k]);
        k += 1;
    }
    proof {
        assert(nviews.skip(n as int) =~= Seq::<Seq<u8>>::empty());
    }
}

impl PreparedTransaction {
    /// Applies every edit, in the order given: deletions always remove
    /// the history and, with `AndReference`, the reference itself, its
    /// packed entry removed in one batched rewrite at the end; updates
    /// append a history line (unless the store disables reflogs) and,
    /// with `AndReference`, write the reference. All locks are released
    /// when the call returns, and the finalized edit list is handed back
    /// so callers can observe dereference-rewritten names. A failure of
    /// the packed rewrite does not roll back the loose writes already
    /// made.
    pub fn commit(self, store: &mut Store, committer: &Signature) -> (r: Result<
        Vec<RefEdit>,
        Error,
    >)
        requires
            old(store).wf(),
        ensures
            final(store).wf(),
            final(store).spec_reflog_mode() == old(store).spec_reflog_mode(),
            final(store).lock_names() == spec_unlock(
                old(store).lock_names(),
                crate::name::views_of_bytes(self.locked@),
            ),
            final(store).files() == spec_apply_list(
                old(store).files(),
                old(store).logs(),
                edits_of(self.edits@),
                committer@,
                old(store).spec_reflog_mode(),
            ).0,
            final(store).logs() == spec_apply_list(
                old(store).files(),
                old(store).logs(),
                edits_of(self.edits@),
                committer@,
                old(store).spec_reflog_mode(),
            ).1,
            match spec_packed_after(old(store).packed_bytes(), spec_dels(edits_of(self.edits@))) {
                Ok(p2) => r is Ok && final(store).packed_bytes() == p2 && edits_of(r->Ok_0@)
                    == edits_of(self.edits@),
                Err(_) => r matches Err(Error::Packed(_)) && final(store).packed_bytes() == old(
                    store,
                ).packed_bytes(),
            },
    {
        let ghost eviews = edits_of(self.edits@);
        let ghost files0 = store.files();
        let ghost logs0 = store.logs();
        let ghost sigv = committer@;
        let ghost mode = store.spec_reflog_mode();
        let mut dels: Vec<FullName> = Vec::new();
        let n: usize = self.edits.len();
        let mut i: usize = 0;
        proof {
            edits_of_facts(self.edits@);
            assert(eviews.skip(0) =~= eviews);
            assert(names_of(dels@) =~= Seq::<Seq<u8>>::empty());
        }
        #[verifier::loop_isolation(false)]
        while i < n
            invariant
                i <= n,
                store.wf(),
                store.packed_bytes() == old(store).packed_bytes(),
                store.lock_names() == old(store).lock_names(),
                store.spec_reflog_mode() == old(store).spec_reflog_mode(),
                spec_apply_list(files0, logs0, eviews, sigv, mode) == spec_apply_list(
                    store.files(),
                    store.logs(),
                    eviews.skip(i as int),
                    sigv,
                    mode,
                ),
                spec_dels(eviews) =~= names_of(dels@) + spec_dels(eviews.skip(i as int)),
            decreases n - i,
        {
            proof {
                assert(eviews.skip(i as int)[0] == eviews[i as int]);
                assert(eviews.skip(i as int).skip(1) =~= eviews.skip(i as int + 1));
                assert(eviews[i as int] == self.edits@[i as int]@);
            }
            let e = &self.edits[i];
            match &e.change {
                Change::Delete { previous, log } => {
                    store.reflog_delete(e.name.as_bytes());
                    if *log == RefLog::AndReference {
                        store.remove_loose_file(e.name.as_bytes());
                        let ghost old_dels = dels@;
                        dels.push(e.name.duplicate());
                        proof {
                            fnames_facts(old_dels);
                            fnames_facts(dels@);
                            assert(names_of(dels@) =~= names_of(old_dels).push(eviews[i as int].name));
                            assert(names_of(old_dels) + (seq![eviews[i as int].name] + spec_dels(
                                eviews.skip(i as int + 1),
                            )) =~= names_of(dels@) + spec_dels(eviews.skip(i as int + 1)));
                        }
                    } else {
                        proof {
                            assert(names_of(dels@) + (Seq::<Seq<u8>>::empty() + spec_dels(
                                eviews.skip(i as int + 1),
                            )) =~= names_of(dels@) + spec_dels(eviews.skip(i as int + 1)));
                        }
                    }
                },
                Change::Update { log, message, new, previous } => {
                    if store.reflog_mode() == WriteReflog::Normal {
                        let line = Line {
                            previous_oid: old_id_of(previous),
                            new_oid: new_id_of(new),
                            signature: committer.duplicate(),
                            message: bytes_clone(message),
                        };
                        store.reflog_append(e.name.as_bytes(), line);
                    }
                    if *log == RefLog::AndReference {
                        let content = crate::loose::encode_target(new);
                        store.write_loose_file(bytes_clone(e.name.as_bytes()), content);
                    }
                    proof {
                        assert(names_of(dels@) + (Seq::<Seq<u8>>::empty() + spec_dels(
                            eviews.skip(i as int + 1),
                        )) =~= names_of(dels@) + spec_dels(eviews.skip(i as int + 1)));
                    }
                },
            }
            i += 1;
        }
        proof {
            assert(eviews.skip(n as int) =~= Seq::<RefEditView>::empty());
            assert(names_of(dels@) + Seq::<Seq<u8>>::empty() =~= names_of(dels@));
            assert(names_of(dels@) == spec_dels(eviews));
        }
        // one batched rewrite of the packed file, when deletions touch it
        if dels.len() > 0 {
            match store.packed_buffer() {
                Err(e) => {
                    release_locks(store, &self.locked);
                    return Err(Error::Packed(e));
                },
                Ok(None) => {},
                Ok(Some(buf)) => {
                    let ghost es = buf@;
                    let m: usize = dels.len();
                    let mut touched: bool = false;
                    let mut k: usize = 0;
                    proof {
                        fnames_facts(dels@);
                    }
                    #[verifier::loop_isolation(false)]
                    while k < m
                        invariant
                            k <= m,
                            !touched ==> forall|t: int|
                                0 <= t < k ==> !(spec_find_name(
                                    es,
                                    #[trigger] names_of(dels@)[t],
                                ) is Some),
                            touched ==> spec_any_packed(es, names_of(dels@)),
                        decreases m - k,
                    {
                        match buf.find_full_name(dels[k].as_bytes()) {
                            Some(_) => {
                                proof {
                                    assert(spec_find_name(es, names_of(dels@)[k as int]) is Some);
                                }
                                touched = true;
                                break;
                            },
                            None => {},
                        }
                        k += 1;
                    }
                    if touched {
                        match buf.rewrite(&dels) {
                            Some(bytes) => {
                                store.put_packed_file(bytes);
                            },
                            None => {
                                store.delete_packed_file();
                            },
                        }
                    } else {
                        proof {
                            assert(!spec_any_packed(es, names_of(dels@)));
                        }
                    }
                },
            }
        }
        release_locks(store, &self.locked);
        Ok(self.edits)
    }
}

} // verus!

verus! {

/// A deletion edit of `nm`, not dereferencing.
pub open spec fn delete_edit_view(nm: Seq<u8>, previous: Option<TargetView>, log: RefLog) -> RefEditView {
    RefEditView { change: ChangeView::Delete { previous, log }, name: nm, deref: false }
}

/// A name no scan finds heads no file.
proof fn lemma_file_at_none_forall(files: Seq<LooseFileView>, nm: Seq<u8>)
    requires
        spec_file_at(files, nm) is None,
    ensures
        forall|t: int| 0 <= t < files.len() ==> (#[trigger] files[t].path) != nm,
    decreases files.len(),
{
    if files.len() > 0 {
        assert(files[0].path != nm);
        lemma_file_at_none_forall(files.skip(1), nm);
        assert forall|t: int| 0 <= t < files.len() implies (#[trigger] files[t].path) != nm by {
            if t > 0 {
                assert(files.skip(1)[t - 1] == files[t]);
            }
        }
    }
}

/// A name no scan finds heads no history.
proof fn lemma_log_at_none_forall(logs: Seq<ReflogView>, nm: Seq<u8>)
    requires
        crate::store::spec_log_at(logs, nm) is None,
    ensures
        forall|t: int| 0 <= t < logs.len() ==> (#[trigger] logs[t].name) != nm,
    decreases logs.len(),
{
    if logs.len() > 0 {
        assert(logs[0].name != nm);
        lemma_log_at_none_forall(logs.skip(1), nm);
        assert forall|t: int| 0 <= t < logs.len() implies (#[trigger] logs[t].name) != nm by {
            if t > 0 {
                assert(logs.skip(1)[t - 1] == logs[t]);
            }
        }
    }
}

/// Deleting a reference that does not exist, with no expected value,
/// succeeds as a no-op transaction: preparation yields exactly the one
/// edit unchanged, applying it changes neither the loose files nor the
/// histories, and the packed file stays exactly as it was.
pub proof fn lemma_delete_absent_noop(
    files: Seq<LooseFileView>,
    logs: Seq<ReflogView>,
    locks: Seq<Seq<u8>>,
    packedb: Option<Seq<u8>>,
    entries: Seq<EntryView>,
    nm: Seq<u8>,
    log: RefLog,
    sigv: SignatureView,
    mode: WriteReflog,
    fuel: nat,
)
    requires
        spec_lookup(files, entries, nm) is Missing,
        crate::store::spec_log_at(logs, nm) is None,
        !name_in(locks, nm),
        match packedb {
            None => entries == Seq::<EntryView>::empty(),
            Some(b) => crate::packed::spec_parse_packed(b, 0) == Some(entries)
                && crate::packed::sorted_names(entries),
        },
    ensures
        spec_prepare(files, entries, locks, seq![delete_edit_view(nm, None, log)], fuel) == Ok::<
            (Seq<RefEditView>, Seq<Seq<u8>>),
            PrepErrView,
        >((seq![delete_edit_view(nm, None, log)], seq![nm])),
        spec_apply_list(files, logs, seq![delete_edit_view(nm, None, log)], sigv, mode) == (
            files,
            logs,
        ),
        spec_packed_after(packedb, spec_dels(seq![delete_edit_view(nm, None, log)])) == Ok::<
            Option<Seq<u8>>,
            (),
        >(packedb),
{
    let e = delete_edit_view(nm, None, log);
    let single = seq![e];
    assert(single[0] == e);
    assert(spec_split(files, entries, e, fuel) == Ok::<Seq<RefEditView>, Seq<u8>>(single));
    assert(single.skip(1) =~= Seq::<RefEditView>::empty());
    assert(spec_expand(files, entries, single.skip(1), fuel) == Ok::<Seq<RefEditView>, Seq<u8>>(
        Seq::empty(),
    ));
    assert(spec_expand(files, entries, single, fuel) == Ok::<Seq<RefEditView>, Seq<u8>>(
        single + Seq::<RefEditView>::empty(),
    ));
    assert(single + Seq::<RefEditView>::empty() =~= single);
    assert(spec_check(files, entries, e) == Ok::<RefEditView, CheckErrView>(e));
    assert(spec_check_list(files, entries, single.skip(1)) == Ok::<
        Seq<RefEditView>,
        CheckErrView,
    >(Seq::empty()));
    assert(spec_check_list(files, entries, single) == Ok::<Seq<RefEditView>, CheckErrView>(
        seq![e] + Seq::<RefEditView>::empty(),
    ));
    assert(seq![e] + Seq::<RefEditView>::empty() =~= single);
    let names = edit_names(single);
    assert(names =~= seq![nm]);
    assert(names.take(0) =~= Seq::<Seq<u8>>::empty());
    assert(!name_in(names.take(0), names[0]));
    assert(spec_first_dup(names, 0) == spec_first_dup(names, 1));
    assert(spec_first_dup(names, 1) is None);
    assert(spec_find_name(entries, nm) is None);
    lemma_single_needs_nothing(entries, e, single);
    assert(spec_lock_list(entries, single) == names);
    assert(spec_first_locked(locks, names, 0) == spec_first_locked(locks, names, 1));
    assert(spec_first_locked(locks, names, 1) is None);
    assert(spec_prepare(files, entries, locks, single, fuel) == Ok::<
        (Seq<RefEditView>, Seq<Seq<u8>>),
        PrepErrView,
    >((single, names)));
    assert(names == seq![nm]);
    // applying the edit changes nothing
    lemma_log_at_none_forall(logs, nm);
    crate::store::lemma_log_delete_missing(logs, nm);
    assert(spec_file_at(files, nm) is None);
    lemma_file_at_none_forall(files, nm);
    crate::store::lemma_remove_file_missing(files, nm);
    assert(spec_apply_edit(files, logs, e, sigv, mode) == (files, logs));
    assert(spec_apply_list(files, logs, single.skip(1), sigv, mode) == (files, logs));
    assert(spec_apply_list(files, logs, single, sigv, mode) == (files, logs));
    // the packed file stays as it was
    let dels = spec_dels(single);
    assert(spec_dels(single.skip(1)) == Seq::<Seq<u8>>::empty());
    if log == RefLog::AndReference {
        assert(dels =~= seq![nm]);
        lemma_single_not_packed(entries, nm, dels);
    } else {
        assert(dels =~= Seq::<Seq<u8>>::empty());
    }
}

/// A single edit on a name with no packed entry needs no packed lock.
proof fn lemma_single_needs_nothing(entries: Seq<EntryView>, e: RefEditView, single: Seq<RefEditView>)
    requires
        single == seq![e],
        spec_find_name(entries, e.name) is None,
    ensures
        !spec_needs_packed(entries, single),
{
    if spec_needs_packed(entries, single) {
        let k = choose|k: int|
            0 <= k < single.len() && (#[trigger] single[k].change matches ChangeView::Delete {
                log: RefLog::AndReference,
                ..
            }) && spec_find_name(entries, single[k].name) is Some;
        assert(single[k] == e);
    }
}

/// A single absent name deletes nothing packed.
proof fn lemma_single_not_packed(entries: Seq<EntryView>, nm: Seq<u8>, dels: Seq<Seq<u8>>)
    requires
        spec_find_name(entries, nm) is None,
        dels == seq![nm],
    ensures
        !spec_any_packed(entries, dels),
{
    if spec_any_packed(entries, dels) {
        let k = choose|k: int|
            0 <= k < dels.len() && spec_find_name(entries, #[trigger] dels[k]) is Some;
        assert(dels[k] == nm);
    }
}

/// Deleting with a "must exist" precondition against a genuinely absent
/// name fails at preparation with the descriptive error naming the
/// reference — and preparation leaves the store untouched.
pub proof fn lemma_delete_must_exist_absent_fails(
    files: Seq<LooseFileView>,
    logs: Seq<ReflogView>,
    locks: Seq<Seq<u8>>,
    entries: Seq<EntryView>,
    nm: Seq<u8>,
    log: RefLog,
    fuel: nat,
)
    requires
        spec_current(files, entries, nm) is None,
    ensures
        spec_prepare(
            files,
            entries,
            locks,
            seq![delete_edit_view(nm, Some(TargetView::Peeled(spec_null_id())), log)],
            fuel,
        ) == Err::<(Seq<RefEditView>, Seq<Seq<u8>>), PrepErrView>(
            PrepErrView::Check(CheckErrView::DeleteNonexisting(nm)),
        ),
{
    let e = delete_edit_view(nm, Some(TargetView::Peeled(spec_null_id())), log);
    let single = seq![e];
    assert(single[0] == e);
    assert(spec_split(files, entries, e, fuel) == Ok::<Seq<RefEditView>, Seq<u8>>(single));
    assert(single.skip(1) =~= Seq::<RefEditView>::empty());
    assert(spec_expand(files, entries, single.skip(1), fuel) == Ok::<Seq<RefEditView>, Seq<u8>>(
        Seq::empty(),
    ));
    assert(spec_expand(files, entries, single, fuel) == Ok::<Seq<RefEditView>, Seq<u8>>(
        single + Seq::<RefEditView>::empty(),
    ));
    assert(single + Seq::<RefEditView>::empty() =~= single);
    assert(spec_check(files, entries, e) == Err::<RefEditView, CheckErrView>(
        CheckErrView::DeleteNonexisting(nm),
    ));
}

/// The log mode decides what one applied edit touches: `Only` touches
/// only the history — a deletion removes it, an update appends to it —
/// and leaves the loose file alone; `AndReference` also removes or writes
/// the loose file itself.
pub proof fn lemma_log_mode_scope(
    files: Seq<LooseFileView>,
    logs: Seq<ReflogView>,
    e: RefEditView,
    sigv: SignatureView,
    mode: WriteReflog,
)
    ensures
        (e.change matches ChangeView::Delete { log: RefLog::Only, .. }) ==> spec_apply_edit(
            files,
            logs,
            e,
            sigv,
            mode,
        ) == (files, spec_log_delete(logs, e.name)),
        (e.change matches ChangeView::Delete { log: RefLog::AndReference, .. })
            ==> spec_apply_edit(files, logs, e, sigv, mode) == (
            spec_remove_file(files, e.name),
            spec_log_delete(logs, e.name),
        ),
        (e.change matches ChangeView::Update { log: RefLog::Only, .. }) ==> spec_apply_edit(
            files,
            logs,
            e,
            sigv,
            mode,
        ).0 == files,
        (e.change matches ChangeView::Update { log: RefLog::AndReference, message, new, previous })
            ==> spec_apply_edit(files, logs, e, sigv, mode).0 == spec_insert_file(
            files,
            LooseFileView {
                path: e.name,
                content: spec_content_of(e.change->Update_new),
            },
        ),
        (e.change is Update && mode == WriteReflog::Normal) ==> spec_apply_edit(
            files,
            logs,
            e,
            sigv,
            mode,
        ).1 == spec_log_append(
            logs,
            e.name,
            LineView {
                previous_oid: spec_old_id(e.change->Update_previous),
                new_oid: spec_new_id(e.change->Update_new),
                signature: sigv,
                message: e.change->Update_message,
            },
        ),
        (e.change is Update && mode == WriteReflog::Disable) ==> spec_apply_edit(
            files,
            logs,
            e,
            sigv,
            mode,
        ).1 == logs,
{
}

} // verus!
