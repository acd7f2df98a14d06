//! Reflog lines: the append-only per-name history of value transitions.
//!
//! Every accepted transition appends one line carrying the identities
//! before and after, who made the change, and a message. Lines are never
//! edited or reordered.

use vstd::prelude::*;
use crate::hash::ObjectId;

verus! {

/// Who performed a transition, and when.
#[derive(Debug, Clone)]
pub struct Signature {
    /// The name of the actor.
    pub name: Vec<u8>,
    /// The actor's mail address.
    pub email: Vec<u8>,
    /// Seconds since the epoch.
    pub seconds: u64,
}

/// The mathematical value of a [`Signature`].
pub struct SignatureView {
    /// The name bytes.
    pub name: Seq<u8>,
    /// The mail address bytes.
    pub email: Seq<u8>,
    /// Seconds since the epoch.
    pub seconds: u64,
}

impl View for Signature {
    type V = SignatureView;

    open spec fn view(&self) -> SignatureView {
        SignatureView { name: self.name@, email: self.email@, seconds: self.seconds }
    }
}

impl Signature {
    /// A copy of this signature.
    pub fn duplicate(&self) -> (r: Signature)
        ensures
            r@ == self@,
    {
        Signature {
            name: crate::bytestr::bytes_clone(&self.name),
            email: crate::bytestr::bytes_clone(&self.email),
            seconds: self.seconds,
        }
    }
}

/// One recorded transition: the all-zero identity stands for "no value",
/// both for a newly created and for a deleted reference.
#[derive(Debug, Clone)]
pub struct Line {
    /// The identity before the transition.
    pub previous_oid: ObjectId,
    /// The identity after the transition.
    pub new_oid: ObjectId,
    /// Who made the transition.
    pub signature: Signature,
    /// Why it was made.
    pub message: Vec<u8>,
}

/// The mathematical value of a [`Line`].
pub struct LineView {
    /// The identity bytes before the transition.
    pub previous_oid: Seq<u8>,
    /// The identity bytes after the transition.
    pub new_oid: Seq<u8>,
    /// Who made the transition.
    pub signature: SignatureView,
    /// Why it was made.
    pub message: Seq<u8>,
}

impl View for Line {
    type V = LineView;

    open spec fn view(&self) -> LineView {
        LineView {
            previous_oid: self.previous_oid@,
            new_oid: self.new_oid@,
            signature: self.signature@,
            message: self.message@,
        }
    }
}

impl Line {
    /// A copy of this line.
    pub fn duplicate(&self) -> (r: Line)
        ensures
            r@ == self@,
    {
        Line {
            previous_oid: self.previous_oid.duplicate(),
            new_oid: self.new_oid.duplicate(),
            signature: self.signature.duplicate(),
            message: crate::bytestr::bytes_clone(&self.message),
        }
    }
}

/// The views of a list of lines.
pub open spec fn lines_of(lines: Seq<Line>) -> Seq<LineView> {
    lines.map_values(|l: Line| l@)
}

proof fn lines_of_facts(s: Seq<Line>)
    ensures
        lines_of(s).len() == s.len(),
        forall|u: int| 0 <= u < s.len() ==> #[trigger] lines_of(s)[u] == s[u]@,
{
}

/// Copies a list of lines.
pub fn duplicate_lines(lines: &Vec<Line>) -> (r: Vec<Line>)
    ensures
        lines_of(r@) == lines_of(lines@),
{
    let mut out: Vec<Line> = Vec::new();
    let n: usize = lines.len();
    let mut i: usize = 0;
    while i < n
        invariant
            n == lines@.len(),
            i <= n,
            lines_of(out@) =~= lines_of(lines@).take(i as int),
        decreases n - i,
    {
        let ghost old_out = out@;
        out.push(lines[i].duplicate());
        proof {
            lines_of_facts(old_out);
            lines_of_facts(out@);
            lines_of_facts(lines@);
            assert(lines_of(out@) =~= lines_of(lines@).take(i + 1));
        }
        i += 1;
    }
    proof {
        assert(lines_of(lines@).take(n as int) =~= lines_of(lines@));
    }
    out
}

/// Copies a list of lines in reverse order: newest transition first.
pub fn reverse_lines(lines: &Vec<Line>) -> (r: Vec<Line>)
    ensures
        lines_of(r@) == lines_of(lines@).reverse(),
{
    let mut out: Vec<Line> = Vec::new();
    let n: usize = lines.len();
    let mut i: usize = 0;
    while i < n
        invariant
            n == lines@.len(),
            i <= n,
            lines_of(out@).len() == i,
            forall|t: int| 0 <= t < i ==> lines_of(out@)[t] == lines_of(lines@)[n - 1 - t],
        decreases n - i,
    {
        let ghost old_out = out@;
        out.push(lines[n - 1 - i].duplicate());
        proof {
            lines_of_facts(old_out);
            lines_of_facts(out@);
            lines_of_facts(lines@);
            assert forall|t: int| 0 <= t < i + 1 implies lines_of(out@)[t] == lines_of(lines@)[n - 1
                - t] by {
                if t < i {
                    assert(lines_of(old_out)[t] == lines_of(lines@)[n - 1 - t]);
                    assert(out@[t] == old_out[t]);
                } else {
                    assert(out@[t]@ == lines@[n - 1 - i]@);
                }
            }
        }
        i += 1;
    }
    proof {
        assert(lines_of(out@) =~= lines_of(lines@).reverse());
    }
    out
}

} // verus!
