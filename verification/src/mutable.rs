//! Owned reference targets: a target either points directly at an object
//! identity (peeled) or names another reference (symbolic).

use vstd::prelude::*;
use crate::hash::{id_wf, spec_null_id, ObjectId};
use crate::name::{name_valid, FullName};

verus! {

/// The kind of a reference or target: already resolved, or one more name.
#[derive(Debug, Clone, Copy, PartialEq, Eq, Structural)]
pub enum Kind {
    /// Points directly at an object identity.
    Peeled,
    /// Points at another reference by name.
    Symbolic,
}

/// The mathematical value of a [`Target`].
pub enum TargetView {
    /// A direct object identity, as its bytes.
    Peeled(Seq<u8>),
    /// Another reference's name, as its bytes.
    Symbolic(Seq<u8>),
}

/// Denotes an object directly by identity, or indirectly by the name of
/// another reference.
#[derive(Debug, Clone)]
pub enum Target {
    /// A direct object identity.
    Peeled(ObjectId),
    /// Another reference's name; it must be a valid name but need not
    /// currently exist.
    Symbolic(FullName),
}

impl View for Target {
    type V = TargetView;

    open spec fn view(&self) -> TargetView {
        match self {
            Target::Peeled(id) => TargetView::Peeled(id@),
            Target::Symbolic(name) => TargetView::Symbolic(name@),
        }
    }
}

/// A well-formed target: a peeled identity has the hash width, a symbolic
/// name is valid.
pub open spec fn target_wf(t: Target) -> bool {
    match t {
        Target::Peeled(id) => id_wf(id),
        Target::Symbolic(name) => name_valid(name@),
    }
}

/// Well-formedness on the mathematical value.
pub open spec fn target_view_wf(v: TargetView) -> bool {
    match v {
        TargetView::Peeled(id) => id.len() == crate::hash::ID_LEN,
        TargetView::Symbolic(name) => name_valid(name),
    }
}

impl Target {
    /// The sentinel meaning "any existing value is acceptable, but the
    /// name must currently resolve to something": the all-zero identity.
    pub fn must_exist() -> (r: Target)
        ensures
            r@ == TargetView::Peeled(spec_null_id()),
            target_wf(r),
    {
        Target::Peeled(ObjectId::null())
    }

    /// Is this target the "must exist" sentinel?
    pub fn is_must_exist(&self) -> (r: bool)
        ensures
            r == (self@ == TargetView::Peeled(spec_null_id())),
    {
        match self {
            Target::Peeled(id) => id.is_null(),
            Target::Symbolic(_) => false,
        }
    }

    /// The kind of this target.
    pub fn kind(&self) -> (r: Kind)
        ensures
            r == Kind::Peeled <==> self@ is Peeled,
            r == Kind::Symbolic <==> self@ is Symbolic,
    {
        match self {
            Target::Peeled(_) => Kind::Peeled,
            Target::Symbolic(_) => Kind::Symbolic,
        }
    }

    /// The object identity, if the target is peeled.
    pub fn as_id(&self) -> (r: Option<&ObjectId>)
        ensures
            r is Some <==> self@ is Peeled,
            r is Some ==> r->0@ == self@->Peeled_0,
    {
        match self {
            Target::Peeled(id) => Some(id),
            Target::Symbolic(_) => None,
        }
    }

    /// The referenced name, if the target is symbolic.
    pub fn as_name(&self) -> (r: Option<&FullName>)
        ensures
            r is Some <==> self@ is Symbolic,
            r is Some ==> r->0@ == self@->Symbolic_0,
    {
        match self {
            Target::Peeled(_) => None,
            Target::Symbolic(name) => Some(name),
        }
    }

    /// A copy of this target.
    pub fn duplicate(&self) -> (r: Target)
        ensures
            r@ == self@,
            target_wf(*self) ==> target_wf(r),
    {
        match self {
            Target::Peeled(id) => Target::Peeled(id.duplicate()),
            Target::Symbolic(name) => Target::Symbolic(name.duplicate()),
        }
    }
}

impl PartialEq for Target {
    fn eq(&self, other: &Target) -> (r: bool) {
        match (self, other) {
            (Target::Peeled(a), Target::Peeled(b)) => a == b,
            (Target::Symbolic(a), Target::Symbolic(b)) => a == b,
            _ => {
                proof {
                    assert(self@ != other@);
                }
                false
            },
        }
    }
}

impl vstd::std_specs::cmp::PartialEqSpecImpl for Target {
    open spec fn obeys_eq_spec() -> bool {
        true
    }

    open spec fn eq_spec(&self, other: &Target) -> bool {
        self@ == other@
    }
}

} // verus!
