//! Validated reference names and namespace prefixes.
//!
//! A full name is a non-empty, slash-separated path free of control
//! characters and of `..`; construction fails otherwise. A namespace maps
//! logical names onto `refs/namespaces/<ns>/...` physical paths.

use vstd::prelude::*;
use crate::bytestr::{bytes_clone, bytes_starts_with, is_prefix};

verus! {

/// Is `c` an ASCII control character?
pub open spec fn is_control(c: u8) -> bool {
    c < 32 || c == 127
}

/// Does `s` contain two consecutive dots?
pub open spec fn has_double_dot(s: Seq<u8>) -> bool {
    exists|i: int| 0 <= i && i + 1 < s.len() && #[trigger] s[i] == 46 && s[i + 1] == 46
}

/// A valid reference name: non-empty, free of control characters
/// (so in particular without a trailing newline), without `..`, and not
/// beginning with a blank — a leading blank would be swallowed by the
/// whitespace run that the symbolic file form allows after its colon.
pub open spec fn name_valid(s: Seq<u8>) -> bool {
    &&& s.len() > 0
    &&& s[0] != 32
    &&& forall|i: int| 0 <= i < s.len() ==> !is_control(#[trigger] s[i])
    &&& !has_double_dot(s)
}

/// Why a name was rejected.
#[derive(Debug, Clone, Copy, PartialEq, Eq, Structural)]
pub enum NameError {
    /// The name was empty.
    Empty,
    /// The name began with a blank.
    LeadingBlank,
    /// The name held a control character.
    Control,
    /// The name held a `..` sequence.
    DoubleDot,
}

/// A validated, slash-separated reference name such as `refs/heads/main`.
#[derive(Debug, Clone, Hash)]
pub struct FullName {
    bytes: Vec<u8>,
}

impl View for FullName {
    type V = Seq<u8>;

    closed spec fn view(&self) -> Seq<u8> {
        self.bytes@
    }
}

impl FullName {
    /// Validates `bytes` as a reference name.
    pub fn try_from(bytes: Vec<u8>) -> (r: Result<FullName, NameError>)
        ensures
            r is Ok <==> name_valid(bytes@),
            r is Ok ==> r->Ok_0@ == bytes@,
    {
        if bytes.len() == 0 {
            return Err(NameError::Empty);
        }
        if bytes[0] == 32 {
            return Err(NameError::LeadingBlank);
        }
        let n: usize = bytes.len();
        let mut i: usize = 0;
        while i < n
            invariant
                n == bytes@.len(),
                i <= n,
                forall|j: int| 0 <= j < i ==> !is_control(#[trigger] bytes@[j]),
                forall|j: int|
                    0 <= j < i && j + 1 < n ==> !(#[trigger] bytes@[j] == 46 && bytes@[j + 1]
                        == 46),
            decreases n - i,
        {
            let c = bytes[i];
            if c < 32 || c == 127 {
                return Err(NameError::Control);
            }
            if c == 46 && i + 1 < n && bytes[i + 1] == 46 {
                return Err(NameError::DoubleDot);
            }
            i += 1;
        }
        Ok(FullName { bytes })
    }

    /// The raw bytes of the name.
    pub fn as_bytes(&self) -> (r: &Vec<u8>)
        ensures
            r@ == self@,
    {
        &self.bytes
    }

    /// Gives up the name, yielding its bytes.
    pub fn into_inner(self) -> (r: Vec<u8>)
        ensures
            r@ == self@,
    {
        self.bytes
    }

    /// A copy of this name.
    pub fn duplicate(&self) -> (r: FullName)
        ensures
            r@ == self@,
    {
        FullName { bytes: bytes_clone(&self.bytes) }
    }

    /// Builds a name from bytes already known to be valid.
    pub fn from_valid(bytes: Vec<u8>) -> (r: FullName)
        requires
            name_valid(bytes@),
        ensures
            r@ == bytes@,
    {
        FullName { bytes }
    }
}

impl PartialEq for FullName {
    fn eq(&self, other: &FullName) -> (r: bool) {
        crate::bytestr::bytes_eq(&self.bytes, &other.bytes)
    }
}

impl vstd::std_specs::cmp::PartialEqSpecImpl for FullName {
    open spec fn obeys_eq_spec() -> bool {
        true
    }

    open spec fn eq_spec(&self, other: &FullName) -> bool {
        self@ == other@
    }
}

/// The constant lead-in of every namespace level, `refs/namespaces/`.
pub open spec fn ns_lead() -> Seq<u8> {
    seq![
        'r' as u8, 'e' as u8, 'f' as u8, 's' as u8, '/' as u8, 'n' as u8, 'a' as u8, 'm' as u8,
        'e' as u8, 's' as u8, 'p' as u8, 'a' as u8, 'c' as u8, 'e' as u8, 's' as u8, '/' as u8,
    ]
}

/// The expansion of the logical name body: every slash opens one more
/// namespace level.
pub open spec fn ns_body(s: Seq<u8>) -> Seq<u8>
    decreases s.len(),
{
    if s.len() == 0 {
        Seq::empty()
    } else {
        ns_body(s.take(s.len() - 1)) + (if s[s.len() - 1] == '/' as u8 {
            seq!['/' as u8] + ns_lead()
        } else {
            seq![s[s.len() - 1]]
        })
    }
}

/// The physical prefix of a namespace: `refs/namespaces/<a>/refs/namespaces/<b>/...`
/// for the logical name `a/b`, with a trailing slash.
pub open spec fn ns_expanded(s: Seq<u8>) -> Seq<u8> {
    ns_lead() + ns_body(s) + seq!['/' as u8]
}

/// A namespace prefix, kept in its expanded physical form.
#[derive(Debug, Clone, Hash)]
pub struct Namespace {
    prefix: Vec<u8>,
}

impl View for Namespace {
    type V = Seq<u8>;

    closed spec fn view(&self) -> Seq<u8> {
        self.prefix@
    }
}

/// Pushes the constant namespace lead-in onto `out`.
fn push_ns_lead(out: &mut Vec<u8>)
    ensures
        final(out)@ == old(out)@ + ns_lead(),
{
    out.push('r' as u8);
    out.push('e' as u8);
    out.push('f' as u8);
    out.push('s' as u8);
    out.push('/' as u8);
    out.push('n' as u8);
    out.push('a' as u8);
    out.push('m' as u8);
    out.push('e' as u8);
    out.push('s' as u8);
    out.push('p' as u8);
    out.push('a' as u8);
    out.push('c' as u8);
    out.push('e' as u8);
    out.push('s' as u8);
    out.push('/' as u8);
    proof {
        assert(out@ =~= old(out)@ + ns_lead());
    }
}

/// Expands a logical namespace name into its physical prefix.
pub fn expand(name: &Vec<u8>) -> (r: Result<Namespace, NameError>)
    ensures
        r is Ok <==> name_valid(name@),
        r is Ok ==> r->Ok_0@ == ns_expanded(name@),
{
    let checked = match FullName::try_from(bytes_clone(name)) {
        Ok(n) => n,
        Err(e) => {
            return Err(e);
        },
    };
    let body = checked.into_inner();
    let mut out: Vec<u8> = Vec::new();
    push_ns_lead(&mut out);
    let n: usize = body.len();
    let mut i: usize = 0;
    while i < n
        invariant
            n == body@.len(),
            body@ == name@,
            i <= n,
            out@ == ns_lead() + ns_body(body@.take(i as int)),
        decreases n - i,
    {
        let c = body[i];
        if c == '/' as u8 {
            out.push('/' as u8);
            push_ns_lead(&mut out);
        } else {
            out.push(c);
        }
        proof {
            assert(body@.take(i + 1).take(i as int) =~= body@.take(i as int));
            assert(body@.take(i + 1)[i as int] == body@[i as int]);
        }
        i += 1;
    }
    out.push('/' as u8);
    proof {
        assert(body@.take(n as int) =~= body@);
        assert(out@ =~= ns_expanded(name@));
    }
    Ok(Namespace { prefix: out })
}

impl Namespace {
    /// The physical path prefix covered by this namespace.
    pub fn to_path(&self) -> (r: &Vec<u8>)
        ensures
            r@ == self@,
    {
        &self.prefix
    }

    /// Strips this namespace from `name`, if `name` lies within it.
    pub fn strip_from(&self, name: &Vec<u8>) -> (r: Option<Vec<u8>>)
        ensures
            r is Some <==> is_prefix(self@, name@),
            r is Some ==> r->0@ == name@.skip(self@.len() as int),
    {
        if bytes_starts_with(name, &self.prefix) {
            let mut out: Vec<u8> = Vec::new();
            let n: usize = name.len();
            let mut i: usize = self.prefix.len();
            let ghost start = self.prefix@.len() as int;
            while i < n
                invariant
                    n == name@.len(),
                    0 <= start <= i <= n,
                    out@ =~= name@.subrange(start, i as int),
                decreases n - i,
            {
                out.push(name[i]);
                proof {
                    assert(0 <= start <= i < name@.len());
                    assert(name@.subrange(start, i as int + 1) =~= name@.subrange(start, i as int)
                        .push(name@[i as int]));
                }
                i += 1;
            }
            proof {
                assert(out@ =~= name@.skip(start));
            }
            Some(out)
        } else {
            None
        }
    }
}

/// The full names under which a partial name is looked up, in order: the
/// name itself, then under `refs/`, `refs/tags/`, `refs/heads/`,
/// `refs/remotes/`, and as a remote's `HEAD`.
pub open spec fn spec_candidates(p: Seq<u8>) -> Seq<Seq<u8>> {
    seq![
        p,
        crate::bytestr::ascii_of("refs/"@) + p,
        crate::bytestr::ascii_of("refs/tags/"@) + p,
        crate::bytestr::ascii_of("refs/heads/"@) + p,
        crate::bytestr::ascii_of("refs/remotes/"@) + p,
        crate::bytestr::ascii_of("refs/remotes/"@) + p + crate::bytestr::ascii_of("/HEAD"@),
    ]
}

/// The views of a list of byte strings.
pub open spec fn views_of_bytes(s: Seq<Vec<u8>>) -> Seq<Seq<u8>> {
    s.map_values(|v: Vec<u8>| v@)
}

/// Builds the candidate full names for a partial name.
pub fn candidate_names(partial: &Vec<u8>) -> (r: Vec<Vec<u8>>)
    ensures
        views_of_bytes(r@) == spec_candidates(partial@),
{
    proof {
        reveal_strlit("refs/");
        reveal_strlit("refs/tags/");
        reveal_strlit("refs/heads/");
        reveal_strlit("refs/remotes/");
        reveal_strlit("/HEAD");
        assert(vstd::string::is_ascii("refs/"));
        assert(vstd::string::is_ascii("refs/tags/"));
        assert(vstd::string::is_ascii("refs/heads/"));
        assert(vstd::string::is_ascii("refs/remotes/"));
        assert(vstd::string::is_ascii("/HEAD"));
    }
    let mut out: Vec<Vec<u8>> = Vec::new();
    out.push(crate::bytestr::bytes_clone(partial));
    let mut c1 = crate::bytestr::str_bytes("refs/");
    crate::bytestr::bytes_extend(&mut c1, partial);
    out.push(c1);
    let mut c2 = crate::bytestr::str_bytes("refs/tags/");
    crate::bytestr::bytes_extend(&mut c2, partial);
    out.push(c2);
    let mut c3 = crate::bytestr::str_bytes("refs/heads/");
    crate::bytestr::bytes_extend(&mut c3, partial);
    out.push(c3);
    let mut c4 = crate::bytestr::str_bytes("refs/remotes/");
    crate::bytestr::bytes_extend(&mut c4, partial);
    out.push(c4);
    let mut c5 = crate::bytestr::str_bytes("refs/remotes/");
    crate::bytestr::bytes_extend(&mut c5, partial);
    crate::bytestr::push_str_bytes(&mut c5, "/HEAD");
    out.push(c5);
    proof {
        assert(views_of_bytes(out@) =~= spec_candidates(partial@));
    }
    out
}

/// Valid names joined without forming `..` at the seam are a valid name.
pub proof fn lemma_name_concat_valid(a: Seq<u8>, b: Seq<u8>)
    requires
        name_valid(a),
        name_valid(b),
        !(a[a.len() - 1] == 46 && b[0] == 46),
    ensures
        name_valid(a + b),
{
    let c = a + b;
    assert(c[0] == a[0]);
    assert forall|i: int| 0 <= i < c.len() implies !is_control(#[trigger] c[i]) by {
        if i < a.len() {
            assert(c[i] == a[i]);
        } else {
            assert(c[i] == b[i - a.len()]);
        }
    }
    assert(!has_double_dot(c)) by {
        if has_double_dot(c) {
            let i = choose|i: int|
                0 <= i && i + 1 < c.len() && #[trigger] c[i] == 46 && c[i + 1] == 46;
            if i + 1 < a.len() {
                assert(a[i] == 46 && a[i + 1] == 46);
                assert(has_double_dot(a));
            } else if i >= a.len() {
                assert(b[i - a.len()] == 46 && b[i + 1 - a.len()] == 46);
                assert(has_double_dot(b));
            } else {
                assert(c[i] == a[a.len() - 1]);
                assert(c[i + 1] == b[0]);
            }
        }
    }
}

/// A sequence without any dot holds no double dot.
proof fn lemma_no_dots_no_double(s: Seq<u8>)
    requires
        forall|i: int| 0 <= i < s.len() ==> (#[trigger] s[i]) != 46,
    ensures
        !has_double_dot(s),
{
}

/// Every candidate full name of a valid partial name is itself valid.
pub proof fn lemma_candidates_valid(p: Seq<u8>)
    requires
        name_valid(p),
    ensures
        forall|k: int|
            0 <= k < spec_candidates(p).len() ==> name_valid(#[trigger] spec_candidates(p)[k]),
{
    reveal_strlit("refs/");
    reveal_strlit("refs/tags/");
    reveal_strlit("refs/heads/");
    reveal_strlit("refs/remotes/");
    reveal_strlit("/HEAD");
    let r1 = crate::bytestr::ascii_of("refs/"@);
    let r2 = crate::bytestr::ascii_of("refs/tags/"@);
    let r3 = crate::bytestr::ascii_of("refs/heads/"@);
    let r4 = crate::bytestr::ascii_of("refs/remotes/"@);
    let h5 = crate::bytestr::ascii_of("/HEAD"@);
    assert(name_valid(r1)) by {
        assert(r1[0] == 'r' as u8);
        lemma_no_dots_no_double(r1);
    }
    assert(name_valid(r2)) by {
        assert(r2[0] == 'r' as u8);
        lemma_no_dots_no_double(r2);
    }
    assert(name_valid(r3)) by {
        assert(r3[0] == 'r' as u8);
        lemma_no_dots_no_double(r3);
    }
    assert(name_valid(r4)) by {
        assert(r4[0] == 'r' as u8);
        lemma_no_dots_no_double(r4);
    }
    assert(name_valid(h5)) by {
        assert(h5[0] == '/' as u8);
        lemma_no_dots_no_double(h5);
    }
    assert(r1[r1.len() - 1] == '/' as u8);
    assert(r2[r2.len() - 1] == '/' as u8);
    assert(r3[r3.len() - 1] == '/' as u8);
    assert(r4[r4.len() - 1] == '/' as u8);
    lemma_name_concat_valid(r1, p);
    lemma_name_concat_valid(r2, p);
    lemma_name_concat_valid(r3, p);
    lemma_name_concat_valid(r4, p);
    lemma_name_concat_valid(r4 + p, h5);
    assert forall|k: int| 0 <= k < spec_candidates(p).len() implies name_valid(
        #[trigger] spec_candidates(p)[k],
    ) by {
        if k == 0 {
            assert(spec_candidates(p)[k] == p);
        } else if k == 1 {
            assert(spec_candidates(p)[k] == r1 + p);
        } else if k == 2 {
            assert(spec_candidates(p)[k] == r2 + p);
        } else if k == 3 {
            assert(spec_candidates(p)[k] == r3 + p);
        } else if k == 4 {
            assert(spec_candidates(p)[k] == r4 + p);
        } else {
            assert(spec_candidates(p)[k] == r4 + p + h5);
        }
    }
}

/// Turns a filesystem path relative to the store base into a reference
/// name: the one platform that separates with backslashes is normalized
/// to forward slashes.
pub fn path_to_name(path: &Vec<u8>) -> (r: Vec<u8>)
    ensures
        r@ == path@.map_values(|c: u8| if c == '\\' as u8 { '/' as u8 } else { c }),
{
    let mut out: Vec<u8> = Vec::new();
    let n: usize = path.len();
    let mut i: usize = 0;
    while i < n
        invariant
            n == path@.len(),
            i <= n,
            out@ =~= path@.subrange(0, i as int).map_values(
                |c: u8| if c == '\\' as u8 { '/' as u8 } else { c },
            ),
        decreases n - i,
    {
        let c = path[i];
        if c == '\\' as u8 {
            out.push('/' as u8);
        } else {
            out.push(c);
        }
        proof {
            assert(path@.subrange(0, i + 1).map_values(
                |c: u8| if c == '\\' as u8 { '/' as u8 } else { c },
            ) =~= path@.subrange(0, i as int).map_values(
                |c: u8| if c == '\\' as u8 { '/' as u8 } else { c },
            ) + seq![if path@[i as int] == '\\' as u8 { '/' as u8 } else { path@[i as int] }]);
        }
        i += 1;
    }
    proof {
        assert(path@.subrange(0, n as int) =~= path@);
    }
    out
}

} // verus!
