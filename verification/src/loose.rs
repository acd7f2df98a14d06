//! Loose references: one reference stored as its own file.
//!
//! File content is either a hexadecimal object identity followed by a
//! newline, or the prefix `ref:` followed by a run of blanks and the name
//! of another reference, again newline-terminated. Decoding inverts
//! encoding on every well-formed target.

use vstd::prelude::*;
use crate::bytestr::{ascii_of, bytes_clone, push_str_bytes};
use crate::hash::{
    hex_decoded, hex_encoded, is_hex_digit, is_hex_seq, lemma_hex_round_trip, ObjectId, ID_LEN,
};
use crate::name::{name_valid, FullName};
use crate::mutable::{target_view_wf, target_wf, Kind, Target, TargetView};

verus! {

/// Is `c` a blank byte (space or horizontal tab)?
pub open spec fn is_blank(c: u8) -> bool {
    c == 32 || c == 9
}

/// The first position at or after `i` that does not hold a blank.
pub open spec fn skip_blanks(c: Seq<u8>, i: int) -> int
    decreases c.len() - i,
{
    if i < c.len() && is_blank(c[i]) {
        skip_blanks(c, i + 1)
    } else {
        i
    }
}

proof fn lemma_skip_blanks(c: Seq<u8>, i: int)
    requires
        0 <= i <= c.len(),
    ensures
        i <= skip_blanks(c, i) <= c.len(),
        skip_blanks(c, i) < c.len() ==> !is_blank(c[skip_blanks(c, i)]),
    decreases c.len() - i,
{
    if i < c.len() && is_blank(c[i]) {
        lemma_skip_blanks(c, i + 1);
    }
}

/// The bytes `ref:`.
pub open spec fn ref_prefix() -> Seq<u8> {
    seq!['r' as u8, 'e' as u8, 'f' as u8, ':' as u8]
}

/// What a content sequence denotes, if anything: a peeled identity, given
/// as exactly `2 * ID_LEN` hexadecimal digits and a newline, or a symbolic
/// target, given as `ref:`, at least one blank, a valid name and a newline.
pub open spec fn spec_parse_target(c: Seq<u8>) -> Option<TargetView> {
    if c.len() == 2 * ID_LEN + 1 && is_hex_seq(c.take(2 * ID_LEN as int)) && c[2 * ID_LEN as int]
        == 10 {
        Some(TargetView::Peeled(hex_decoded(c.take(2 * ID_LEN as int))))
    } else if c.len() >= 4 && c.take(4) == ref_prefix() {
        let j = skip_blanks(c, 4);
        if j > 4 && j < c.len() - 1 && c[c.len() - 1] == 10 && name_valid(
            c.subrange(j, c.len() - 1),
        ) {
            Some(TargetView::Symbolic(c.subrange(j, c.len() - 1)))
        } else {
            None
        }
    } else {
        None
    }
}

/// The serialized content of a target, newline-terminated; a symbolic
/// target is written with a single blank after the colon.
pub open spec fn spec_content_of(v: TargetView) -> Seq<u8> {
    match v {
        TargetView::Peeled(id) => hex_encoded(id) + seq![10u8],
        TargetView::Symbolic(name) => ref_prefix() + seq![32u8] + name + seq![10u8],
    }
}

/// The serialized content without the trailing newline, as shown when a
/// precondition failure reports expected and actual values.
pub open spec fn spec_render_of(v: TargetView) -> Seq<u8> {
    match v {
        TargetView::Peeled(id) => hex_encoded(id),
        TargetView::Symbolic(name) => ref_prefix() + seq![32u8] + name,
    }
}

/// Unreadable reference content, kept verbatim.
#[derive(Debug, Clone)]
pub struct ParseError {
    /// The content that could not be understood.
    pub content: Vec<u8>,
}

impl ParseError {
    /// The human-readable description: the quoted content, and that it
    /// could not be parsed.
    pub fn message(&self) -> (r: Vec<u8>)
        ensures
            r@ == seq!['"' as u8] + self.content@ + ascii_of("\" could not be parsed"@),
    {
        let mut out: Vec<u8> = Vec::new();
        out.push('"' as u8);
        crate::bytestr::bytes_extend(&mut out, &self.content);
        proof {
            reveal_strlit("\" could not be parsed");
            assert(vstd::string::is_ascii("\" could not be parsed"));
        }
        push_str_bytes(&mut out, "\" could not be parsed");
        proof {
            assert(out@ =~= seq!['"' as u8] + self.content@ + ascii_of("\" could not be parsed"@));
        }
        out
    }
}

/// Reads a target from loose file content.
pub fn parse_target(content: &Vec<u8>) -> (r: Option<Target>)
    ensures
        r is Some <==> spec_parse_target(content@) is Some,
        r is Some ==> r->0@ == spec_parse_target(content@)->0 && target_wf(r->0),
{
    let n: usize = content.len();
    if n == 2 * ID_LEN + 1 && content[2 * ID_LEN] == 10 {
        let mut hexpart: Vec<u8> = Vec::new();
        let mut i: usize = 0;
        while i < 2 * ID_LEN
            invariant
                content@.len() == 2 * ID_LEN + 1,
                i <= 2 * ID_LEN,
                hexpart@ =~= content@.subrange(0, i as int),
            decreases 2 * ID_LEN - i,
        {
            hexpart.push(content[i]);
            i += 1;
        }
        proof {
            assert(hexpart@ =~= content@.take(2 * ID_LEN as int));
        }
        match ObjectId::from_hex(&hexpart) {
            Some(id) => {
                return Some(Target::Peeled(id));
            },
            None => {
                proof {
                    assert(!is_hex_seq(content@.take(2 * ID_LEN as int)));
                }
            },
        }
    }
    if n >= 4 && content[0] == 'r' as u8 && content[1] == 'e' as u8 && content[2] == 'f' as u8
        && content[3] == ':' as u8 {
        proof {
            assert(content@.take(4) =~= ref_prefix());
        }
        let mut j: usize = 4;
        while j < n && (content[j] == 32 || content[j] == 9)
            invariant
                n == content@.len() >= 4,
                4 <= j <= n,
                skip_blanks(content@, 4) == skip_blanks(content@, j as int),
            decreases n - j,
        {
            j += 1;
        }
        proof {
            assert(skip_blanks(content@, 4) == j);
        }
        if j > 4 && j < n - 1 && content[n - 1] == 10 {
            let mut namepart: Vec<u8> = Vec::new();
            let mut i: usize = j;
            while i < n - 1
                invariant
                    n == content@.len(),
                    4 < j <= i <= n - 1,
                    namepart@ =~= content@.subrange(j as int, i as int),
                decreases n - i,
            {
                namepart.push(content[i]);
                i += 1;
            }
            proof {
                assert(namepart@ =~= content@.subrange(j as int, n - 1));
            }
            match FullName::try_from(namepart) {
                Ok(name) => {
                    return Some(Target::Symbolic(name));
                },
                Err(_) => {
                    return None;
                },
            }
        }
        return None;
    }
    proof {
        if content@.len() >= 4 && content@.take(4) == ref_prefix() {
            assert(content@[0] == content@.take(4)[0]);
            assert(content@[1] == content@.take(4)[1]);
            assert(content@[2] == content@.take(4)[2]);
            assert(content@[3] == content@.take(4)[3]);
        }
    }
    None
}

/// Writes a target in its loose file form, newline-terminated.
pub fn encode_target(t: &Target) -> (r: Vec<u8>)
    ensures
        r@ == spec_content_of(t@),
{
    let mut out = render_target(t);
    out.push(10);
    out
}

/// Writes a target without the trailing newline, as used in messages.
pub fn render_target(t: &Target) -> (r: Vec<u8>)
    ensures
        r@ == spec_render_of(t@),
{
    match t {
        Target::Peeled(id) => id.to_hex(),
        Target::Symbolic(name) => {
            let mut out: Vec<u8> = Vec::new();
            out.push('r' as u8);
            out.push('e' as u8);
            out.push('f' as u8);
            out.push(':' as u8);
            out.push(' ' as u8);
            crate::bytestr::bytes_extend(&mut out, name.as_bytes());
            proof {
                assert(out@ =~= ref_prefix() + seq![32u8] + name@);
            }
            out
        },
    }
}

/// Decoding inverts encoding: the serialized form of any well-formed
/// target reads back as exactly that target.
pub proof fn lemma_target_round_trip(v: TargetView)
    requires
        target_view_wf(v),
    ensures
        spec_parse_target(spec_content_of(v)) == Some(v),
{
    let c = spec_content_of(v);
    match v {
        TargetView::Peeled(id) => {
            lemma_hex_round_trip(id);
            assert(c.len() == 2 * ID_LEN + 1);
            assert(c.take(2 * ID_LEN as int) =~= hex_encoded(id));
            assert(c[2 * ID_LEN as int] == 10);
            assert(hex_decoded(c.take(2 * ID_LEN as int)) =~= id);
        },
        TargetView::Symbolic(name) => {
            assert(c.len() == name.len() + 6);
            assert(c[0] == 'r' as u8);
            assert(!is_hex_digit('r' as u8));
            assert(c.len() == 2 * ID_LEN + 1 ==> !is_hex_seq(c.take(2 * ID_LEN as int))) by {
                if c.len() == 2 * ID_LEN + 1 {
                    assert(c.take(2 * ID_LEN as int)[0] == 'r' as u8);
                }
            }
            assert(c.take(4) =~= ref_prefix());
            assert(is_blank(c[4]));
            assert(c[5] == name[0]);
            assert(!is_blank(name[0]));
            assert(skip_blanks(c, 5) == 5);
            assert(skip_blanks(c, 4) == 5);
            assert(c[c.len() - 1] == 10);
            assert(c.subrange(5, c.len() - 1) =~= name);
        },
    }
}

/// A reference stored in its own file, with its parsed target.
#[derive(Debug, Clone)]
pub struct Reference {
    /// The full name of the reference.
    pub name: FullName,
    /// What the reference points at.
    pub target: Target,
}

/// A well-formed loose reference.
pub open spec fn loose_ref_wf(r: Reference) -> bool {
    name_valid(r.name@) && target_wf(r.target)
}

impl Reference {
    /// Reads a loose reference from the content found under `name`;
    /// unreadable content is reported with the content kept verbatim.
    pub fn try_from_path(name: FullName, content: &Vec<u8>) -> (r: Result<Reference, ParseError>)
        ensures
            r is Ok <==> spec_parse_target(content@) is Some,
            r is Ok ==> r->Ok_0.name@ == name@ && r->Ok_0.target@ == spec_parse_target(
                content@,
            )->0 && target_wf(r->Ok_0.target),
            r is Err ==> r->Err_0.content@ == content@,
    {
        match parse_target(content) {
            Some(target) => Ok(Reference { name, target }),
            None => Err(ParseError { content: bytes_clone(content) }),
        }
    }

    /// The kind of the parsed target.
    pub fn kind(&self) -> (r: Kind)
        ensures
            r == Kind::Peeled <==> self.target@ is Peeled,
            r == Kind::Symbolic <==> self.target@ is Symbolic,
    {
        self.target.kind()
    }
}

} // verus!
