//! Overlay iteration: the loose and packed backends merged into one
//! logical namespace. Both inputs come sorted by name; at equal names the
//! loose entry wins and the packed one is dropped, so the merged stream
//! is globally sorted and never yields two entries of one name. A
//! malformed loose file is yielded as an error item without stopping the
//! merge.

use vstd::prelude::*;
use crate::bytestr::{
    ascii_of, bytes_clone, bytes_lt, bytes_starts_with, is_prefix, lemma_lex_total, lemma_lex_trans,
    lex_lt, push_str_bytes,
};
use crate::loose::spec_parse_target;
use crate::mutable::TargetView;
use crate::name::{name_valid, FullName};
use crate::packed::{sorted_names, Buffer, EntryView};
use crate::reference::{packed_entries, Reference};
use crate::store::{files_of, files_sorted, spec_file_at, LooseFile, LooseFileView, Store};

verus! {

/// A reference that could not be instantiated during iteration.
#[derive(Debug, Clone)]
pub struct IterError {
    /// The path of the offending file.
    pub path: Vec<u8>,
    /// Its raw content.
    pub content: Vec<u8>,
}

impl IterError {
    /// The human-readable description, naming the offending reference.
    pub fn message(&self) -> (r: Vec<u8>)
        ensures
            r@ == ascii_of("The reference at '"@) + self.path@ + ascii_of(
                "' could not be instantiated"@,
            ),
    {
        proof {
            reveal_strlit("The reference at '");
            reveal_strlit("' could not be instantiated");
            assert(vstd::string::is_ascii("The reference at '"));
            assert(vstd::string::is_ascii("' could not be instantiated"));
        }
        let mut out = crate::bytestr::str_bytes("The reference at '");
        crate::bytestr::bytes_extend(&mut out, &self.path);
        push_str_bytes(&mut out, "' could not be instantiated");
        out
    }
}

/// A prefix that does not name a relative path.
#[derive(Debug, Clone)]
pub struct PrefixError {}

impl PrefixError {
    /// The human-readable description.
    pub fn message(&self) -> (r: Vec<u8>)
        ensures
            r@ == ascii_of("prefix must be a relative path, like 'refs/heads'"@),
    {
        proof {
            reveal_strlit("prefix must be a relative path, like 'refs/heads'");
            assert(vstd::string::is_ascii("prefix must be a relative path, like 'refs/heads'"));
        }
        crate::bytestr::str_bytes("prefix must be a relative path, like 'refs/heads'")
    }
}

/// One item of an iteration.
pub enum ItemView {
    /// A loose reference: its name and parsed target.
    LooseRef(Seq<u8>, TargetView),
    /// A packed entry.
    PackedRef(EntryView),
    /// A file that could not be instantiated: its path and content.
    Broken(Seq<u8>, Seq<u8>),
}

/// The name an item is listed under.
pub open spec fn item_name(x: ItemView) -> Seq<u8> {
    match x {
        ItemView::LooseRef(n, _) => n,
        ItemView::PackedRef(e) => e.name,
        ItemView::Broken(p, _) => p,
    }
}

/// What one loose file yields: its parsed reference, or itself as a
/// broken item.
pub open spec fn item_of_loose(f: LooseFileView) -> ItemView {
    if name_valid(f.path) && spec_parse_target(f.content) is Some {
        ItemView::LooseRef(f.path, spec_parse_target(f.content)->0)
    } else {
        ItemView::Broken(f.path, f.content)
    }
}

/// The loose files whose path lies under `p`.
pub open spec fn files_pref(fs: Seq<LooseFileView>, p: Seq<u8>) -> Seq<LooseFileView>
    decreases fs.len(),
{
    if fs.len() == 0 {
        Seq::empty()
    } else if is_prefix(p, fs[0].path) {
        seq![fs[0]] + files_pref(fs.skip(1), p)
    } else {
        files_pref(fs.skip(1), p)
    }
}

/// The packed entries whose name lies under `p`.
pub open spec fn entries_pref(es: Seq<EntryView>, p: Seq<u8>) -> Seq<EntryView>
    decreases es.len(),
{
    if es.len() == 0 {
        Seq::empty()
    } else if is_prefix(p, es[0].name) {
        seq![es[0]] + entries_pref(es.skip(1), p)
    } else {
        entries_pref(es.skip(1), p)
    }
}

/// The merge of the two sorted streams: at each step the smaller name is
/// yielded; at equal names the loose entry is yielded and the packed one
/// dropped.
pub open spec fn spec_overlay(fs: Seq<LooseFileView>, es: Seq<EntryView>) -> Seq<ItemView>
    decreases fs.len() + es.len(),
{
    if fs.len() == 0 && es.len() == 0 {
        Seq::empty()
    } else if es.len() == 0 || (fs.len() > 0 && lex_lt(fs[0].path, es[0].name)) {
        seq![item_of_loose(fs[0])] + spec_overlay(fs.skip(1), es)
    } else if fs.len() == 0 || lex_lt(es[0].name, fs[0].path) {
        seq![ItemView::PackedRef(es[0])] + spec_overlay(fs, es.skip(1))
    } else {
        seq![item_of_loose(fs[0])] + spec_overlay(fs.skip(1), es.skip(1))
    }
}

/// The views of loose iteration items.
pub open spec fn loose_items_of(v: Seq<Result<crate::loose::Reference, IterError>>) -> Seq<
    ItemView,
> {
    v.map_values(
        |x: Result<crate::loose::Reference, IterError>|
            match x {
                Ok(l) => ItemView::LooseRef(l.name@, l.target@),
                Err(e) => ItemView::Broken(e.path@, e.content@),
            },
    )
}

/// The views of overlay iteration items.
pub open spec fn items_of(v: Seq<Result<Reference, IterError>>) -> Seq<ItemView> {
    v.map_values(
        |x: Result<Reference, IterError>|
            match x {
                Ok(Reference::Loose(l)) => ItemView::LooseRef(l.name@, l.target@),
                Ok(Reference::Packed(p)) => ItemView::PackedRef(p@),
                Err(e) => ItemView::Broken(e.path@, e.content@),
            },
    )
}

proof fn items_of_facts(v: Seq<Result<Reference, IterError>>)
    ensures
        items_of(v).len() == v.len(),
        forall|u: int|
            0 <= u < v.len() ==> #[trigger] items_of(v)[u] == (match v[u] {
                Ok(Reference::Loose(l)) => ItemView::LooseRef(l.name@, l.target@),
                Ok(Reference::Packed(p)) => ItemView::PackedRef(p@),
                Err(e) => ItemView::Broken(e.path@, e.content@),
            }),
{
}

proof fn loose_items_of_facts(v: Seq<Result<crate::loose::Reference, IterError>>)
    ensures
        loose_items_of(v).len() == v.len(),
        forall|u: int|
            0 <= u < v.len() ==> #[trigger] loose_items_of(v)[u] == (match v[u] {
                Ok(l) => ItemView::LooseRef(l.name@, l.target@),
                Err(e) => ItemView::Broken(e.path@, e.content@),
            }),
{
}

proof fn lemma_files_pref_snoc(fs: Seq<LooseFileView>, p: Seq<u8>, f: LooseFileView)
    ensures
        files_pref(fs.push(f), p) == files_pref(fs, p) + (if is_prefix(p, f.path) {
            seq![f]
        } else {
            Seq::<LooseFileView>::empty()
        }),
    decreases fs.len(),
{
    let tail = if is_prefix(p, f.path) {
        seq![f]
    } else {
        Seq::<LooseFileView>::empty()
    };
    if fs.len() == 0 {
        assert(fs.push(f)[0] == f);
        assert(fs.push(f).skip(1) =~= Seq::<LooseFileView>::empty());
        assert(files_pref(fs.push(f).skip(1), p) == Seq::<LooseFileView>::empty());
        assert(files_pref(fs.push(f), p) =~= files_pref(fs, p) + tail);
    } else {
        assert(fs.push(f)[0] == fs[0]);
        assert(fs.push(f).skip(1) =~= fs.skip(1).push(f));
        lemma_files_pref_snoc(fs.skip(1), p, f);
        if is_prefix(p, fs[0].path) {
            assert(seq![fs[0]] + (files_pref(fs.skip(1), p) + tail) =~= (seq![fs[0]] + files_pref(
                fs.skip(1),
                p,
            )) + tail);
        }
        assert(files_pref(fs.push(f), p) =~= files_pref(fs, p) + tail);
    }
}

proof fn lemma_entries_pref_snoc(es: Seq<EntryView>, p: Seq<u8>, e: EntryView)
    ensures
        entries_pref(es.push(e), p) == entries_pref(es, p) + (if is_prefix(p, e.name) {
            seq![e]
        } else {
            Seq::<EntryView>::empty()
        }),
    decreases es.len(),
{
    let tail = if is_prefix(p, e.name) {
        seq![e]
    } else {
        Seq::<EntryView>::empty()
    };
    if es.len() == 0 {
        assert(es.push(e)[0] == e);
        assert(es.push(e).skip(1) =~= Seq::<EntryView>::empty());
        assert(entries_pref(es.push(e).skip(1), p) == Seq::<EntryView>::empty());
        assert(entries_pref(es.push(e), p) =~= entries_pref(es, p) + tail);
    } else {
        assert(es.push(e)[0] == es[0]);
        assert(es.push(e).skip(1) =~= es.skip(1).push(e));
        lemma_entries_pref_snoc(es.skip(1), p, e);
        if is_prefix(p, es[0].name) {
            assert(seq![es[0]] + (entries_pref(es.skip(1), p) + tail) =~= (seq![es[0]]
                + entries_pref(es.skip(1), p)) + tail);
        }
        assert(entries_pref(es.push(e), p) =~= entries_pref(es, p) + tail);
    }
}

/// Filtering keeps the strict order of loose paths.
proof fn lemma_files_pref_sorted(fs: Seq<LooseFileView>, p: Seq<u8>)
    requires
        files_sorted(fs),
    ensures
        files_sorted(files_pref(fs, p)),
    decreases fs.len(),
{
    if fs.len() > 0 {
        assert(forall|t: int| 0 <= t < fs.skip(1).len() ==> #[trigger] fs.skip(1)[t] == fs[t + 1]);
        lemma_files_pref_sorted(fs.skip(1), p);
        if is_prefix(p, fs[0].path) {
            let out = files_pref(fs, p);
            assert(out =~= seq![fs[0]] + files_pref(fs.skip(1), p));
            assert forall|a: int, b: int| 0 <= a < b < out.len() implies lex_lt(
                #[trigger] out[a].path,
                #[trigger] out[b].path,
            ) by {
                if a == 0 {
                    lemma_files_pref_members(fs.skip(1), p, b - 1);
                    let x = out[b];
                    let w = choose|w: int| 0 <= w < fs.skip(1).len() && fs.skip(1)[w] == x;
                    assert(fs[w + 1] == x);
                } else {
                    assert(out[a] == files_pref(fs.skip(1), p)[a - 1]);
                    assert(out[b] == files_pref(fs.skip(1), p)[b - 1]);
                }
            }
        }
    }
}

proof fn lemma_files_pref_members(fs: Seq<LooseFileView>, p: Seq<u8>, k: int)
    requires
        0 <= k < files_pref(fs, p).len(),
    ensures
        exists|w: int| 0 <= w < fs.len() && fs[w] == files_pref(fs, p)[k],
    decreases fs.len(),
{
    let out = files_pref(fs, p);
    if is_prefix(p, fs[0].path) {
        if k == 0 {
            assert(fs[0] == out[0]);
        } else {
            lemma_files_pref_members(fs.skip(1), p, k - 1);
            let w = choose|w: int|
                0 <= w < fs.skip(1).len() && fs.skip(1)[w] == files_pref(fs.skip(1), p)[k - 1];
            assert(fs[w + 1] == out[k]);
        }
    } else {
        lemma_files_pref_members(fs.skip(1), p, k);
        let w = choose|w: int|
            0 <= w < fs.skip(1).len() && fs.skip(1)[w] == files_pref(fs.skip(1), p)[k];
        assert(fs[w + 1] == out[k]);
    }
}

/// Filtering keeps the strict order of packed names, and every surviving
/// name is an input name.
proof fn lemma_entries_pref_sorted(es: Seq<EntryView>, p: Seq<u8>)
    requires
        sorted_names(es),
    ensures
        sorted_names(entries_pref(es, p)),
    decreases es.len(),
{
    if es.len() > 0 {
        assert(forall|t: int| 0 <= t < es.skip(1).len() ==> #[trigger] es.skip(1)[t] == es[t + 1]);
        lemma_entries_pref_sorted(es.skip(1), p);
        if is_prefix(p, es[0].name) {
            let out = entries_pref(es, p);
            assert(out =~= seq![es[0]] + entries_pref(es.skip(1), p));
            assert forall|a: int, b: int| 0 <= a < b < out.len() implies lex_lt(
                #[trigger] out[a].name,
                #[trigger] out[b].name,
            ) by {
                if a == 0 {
                    lemma_entries_pref_members(es.skip(1), p, b - 1);
                    let x = out[b];
                    let w = choose|w: int| 0 <= w < es.skip(1).len() && es.skip(1)[w] == x;
                    assert(es[w + 1] == x);
                } else {
                    assert(out[a] == entries_pref(es.skip(1), p)[a - 1]);
                    assert(out[b] == entries_pref(es.skip(1), p)[b - 1]);
                }
            }
        }
    }
}

proof fn lemma_entries_pref_members(es: Seq<EntryView>, p: Seq<u8>, k: int)
    requires
        0 <= k < entries_pref(es, p).len(),
    ensures
        exists|w: int| 0 <= w < es.len() && es[w] == entries_pref(es, p)[k],
    decreases es.len(),
{
    let out = entries_pref(es, p);
    if is_prefix(p, es[0].name) {
        if k == 0 {
            assert(es[0] == out[0]);
        } else {
            lemma_entries_pref_members(es.skip(1), p, k - 1);
            let w = choose|w: int|
                0 <= w < es.skip(1).len() && es.skip(1)[w] == entries_pref(es.skip(1), p)[k - 1];
            assert(es[w + 1] == out[k]);
        }
    } else {
        lemma_entries_pref_members(es.skip(1), p, k);
        let w = choose|w: int|
            0 <= w < es.skip(1).len() && es.skip(1)[w] == entries_pref(es.skip(1), p)[k];
        assert(es[w + 1] == out[k]);
    }
}

/// Overlay iteration never yields two items of one name, and a name held
/// by both backends is yielded as the loose entry: every packed item's
/// name has no loose file.
pub proof fn lemma_overlay_distinct(fs: Seq<LooseFileView>, es: Seq<EntryView>)
    requires
        files_sorted(fs),
        sorted_names(es),
    ensures
        forall|i: int, j: int|
            0 <= i < j < spec_overlay(fs, es).len() ==> lex_lt(
                item_name(#[trigger] spec_overlay(fs, es)[i]),
                item_name(#[trigger] spec_overlay(fs, es)[j]),
            ),
        forall|k: int|
            0 <= k < spec_overlay(fs, es).len() && (#[trigger] spec_overlay(fs, es)[k])
                is PackedRef ==> spec_file_at(fs, item_name(spec_overlay(fs, es)[k])) is None,
    decreases fs.len() + es.len(),
{
    let res = spec_overlay(fs, es);
    if fs.len() == 0 && es.len() == 0 {
    } else if es.len() == 0 || (fs.len() > 0 && lex_lt(fs[0].path, es[0].name)) {
        assert(forall|t: int| 0 <= t < fs.skip(1).len() ==> #[trigger] fs.skip(1)[t] == fs[t + 1]);
        lemma_overlay_distinct(fs.skip(1), es);
        lemma_overlay_head(fs.skip(1), es);
        lemma_overlay_step(fs, es, fs.skip(1), es, item_of_loose(fs[0]));
    } else if fs.len() == 0 || lex_lt(es[0].name, fs[0].path) {
        assert(forall|t: int| 0 <= t < es.skip(1).len() ==> #[trigger] es.skip(1)[t] == es[t + 1]);
        lemma_overlay_distinct(fs, es.skip(1));
        lemma_overlay_head(fs, es.skip(1));
        lemma_overlay_step(fs, es, fs, es.skip(1), ItemView::PackedRef(es[0]));
    } else {
        lemma_lex_total(fs[0].path, es[0].name);
        assert(fs[0].path == es[0].name);
        assert(forall|t: int| 0 <= t < fs.skip(1).len() ==> #[trigger] fs.skip(1)[t] == fs[t + 1]);
        assert(forall|t: int| 0 <= t < es.skip(1).len() ==> #[trigger] es.skip(1)[t] == es[t + 1]);
        lemma_overlay_distinct(fs.skip(1), es.skip(1));
        lemma_overlay_head(fs.skip(1), es.skip(1));
        lemma_overlay_step(fs, es, fs.skip(1), es.skip(1), item_of_loose(fs[0]));
    }
}

/// The merge's first item, when there is one, is named after one of the
/// two input heads.
proof fn lemma_overlay_head(fs: Seq<LooseFileView>, es: Seq<EntryView>)
    ensures
        spec_overlay(fs, es).len() > 0 ==> {
            let n0 = item_name(spec_overlay(fs, es)[0]);
            (fs.len() > 0 && n0 == fs[0].path) || (es.len() > 0 && n0 == es[0].name)
        },
{
    let res = spec_overlay(fs, es);
    if fs.len() == 0 && es.len() == 0 {
    } else if es.len() == 0 || (fs.len() > 0 && lex_lt(fs[0].path, es[0].name)) {
        assert(res[0] == item_of_loose(fs[0]));
        assert(item_name(item_of_loose(fs[0])) == fs[0].path);
    } else if fs.len() == 0 || lex_lt(es[0].name, fs[0].path) {
        assert(res[0] == ItemView::PackedRef(es[0]));
    } else {
        assert(res[0] == item_of_loose(fs[0]));
        assert(item_name(item_of_loose(fs[0])) == fs[0].path);
    }
}

/// One merge step: the yielded head comes before everything the rest of
/// the merge yields, and a packed item of the rest has no loose file in
/// the whole input either.
proof fn lemma_overlay_step(
    fs: Seq<LooseFileView>,
    es: Seq<EntryView>,
    fs2: Seq<LooseFileView>,
    es2: Seq<EntryView>,
    head: ItemView,
)
    requires
        files_sorted(fs),
        sorted_names(es),
        spec_overlay(fs, es) == seq![head] + spec_overlay(fs2, es2),
        fs2 == fs || (fs.len() > 0 && fs2 == fs.skip(1)),
        es2 == es || (es.len() > 0 && es2 == es.skip(1)),
        fs2 == fs ==> es.len() > 0 && es2 == es.skip(1) && head == ItemView::PackedRef(es[0]) && (
        fs.len() > 0 ==> lex_lt(es[0].name, fs[0].path)),
        fs2 != fs ==> fs.len() > 0 && head == item_of_loose(fs[0]) && (es2 == es && es.len() > 0
            ==> lex_lt(fs[0].path, es[0].name)),
        fs2 != fs && es2 != es ==> fs.len() > 0 && es.len() > 0 && fs[0].path == es[0].name,
        forall|i: int, j: int|
            0 <= i < j < spec_overlay(fs2, es2).len() ==> lex_lt(
                item_name(#[trigger] spec_overlay(fs2, es2)[i]),
                item_name(#[trigger] spec_overlay(fs2, es2)[j]),
            ),
        forall|k: int|
            0 <= k < spec_overlay(fs2, es2).len() && (#[trigger] spec_overlay(fs2, es2)[k])
                is PackedRef ==> spec_file_at(fs2, item_name(spec_overlay(fs2, es2)[k])) is None,
        spec_overlay(fs2, es2).len() > 0 ==> {
            let n0 = item_name(spec_overlay(fs2, es2)[0]);
            (fs2.len() > 0 && n0 == fs2[0].path) || (es2.len() > 0 && n0 == es2[0].name)
        },
    ensures
        forall|i: int, j: int|
            0 <= i < j < spec_overlay(fs, es).len() ==> lex_lt(
                item_name(#[trigger] spec_overlay(fs, es)[i]),
                item_name(#[trigger] spec_overlay(fs, es)[j]),
            ),
        forall|k: int|
            0 <= k < spec_overlay(fs, es).len() && (#[trigger] spec_overlay(fs, es)[k])
                is PackedRef ==> spec_file_at(fs, item_name(spec_overlay(fs, es)[k])) is None,
{
    let res = spec_overlay(fs, es);
    let rest = spec_overlay(fs2, es2);
    let hname = item_name(head);
    if fs2 != fs {
        assert(item_name(item_of_loose(fs[0])) == fs[0].path);
    }
    // the head's name comes strictly before the rest's first name
    if rest.len() > 0 {
        let n0 = item_name(rest[0]);
        assert(lex_lt(hname, n0)) by {
            if fs2 != fs {
                assert(hname == fs[0].path);
                if fs2.len() > 0 && n0 == fs2[0].path {
                    assert(fs2[0] == fs[1]);
                    assert(lex_lt(fs[0].path, fs[1].path));
                } else {
                    assert(es2.len() > 0 && n0 == es2[0].name);
                    if es2 == es {
                        assert(lex_lt(fs[0].path, es[0].name));
                    } else {
                        assert(es2[0] == es[1]);
                        assert(lex_lt(es[0].name, es[1].name));
                        assert(fs[0].path == es[0].name);
                    }
                }
            } else {
                assert(hname == es[0].name);
                if fs2.len() > 0 && n0 == fs2[0].path {
                    assert(lex_lt(es[0].name, fs[0].path));
                } else {
                    assert(es2.len() > 0 && n0 == es2[0].name);
                    assert(es2[0] == es[1]);
                    assert(lex_lt(es[0].name, es[1].name));
                }
            }
        }
    }
    // hence before every later item's name
    assert forall|k: int| 1 <= k < res.len() implies lex_lt(hname, item_name(res[k])) by {
        assert(res[k] == rest[k - 1]);
        if k - 1 > 0 {
            assert(lex_lt(item_name(rest[0]), item_name(rest[k - 1])));
            lemma_lex_trans(hname, item_name(rest[0]), item_name(rest[k - 1]));
        }
    }
    assert forall|i: int, j: int| 0 <= i < j < res.len() implies lex_lt(
        item_name(#[trigger] res[i]),
        item_name(#[trigger] res[j]),
    ) by {
        if i == 0 {
            assert(res[j] == rest[j - 1]);
        } else {
            assert(res[i] == rest[i - 1]);
            assert(res[j] == rest[j - 1]);
        }
    }
    assert forall|k: int|
        0 <= k < res.len() && (#[trigger] res[k]) is PackedRef implies spec_file_at(
        fs,
        item_name(res[k]),
    ) is None by {
        if k == 0 {
            assert(fs2 == fs);
            assert(item_name(res[0]) == es[0].name);
            assert forall|t: int| 0 <= t < fs.len() implies (#[trigger] fs[t].path)
                != es[0].name by {
                if t > 0 {
                    lemma_lex_trans(es[0].name, fs[0].path, fs[t].path);
                }
                lemma_lex_total(es[0].name, fs[t].path);
            }
            crate::store::lemma_file_at_miss(fs, es[0].name);
        } else {
            assert(res[k] == rest[k - 1]);
            let nm = item_name(rest[k - 1]);
            assert(spec_file_at(fs2, nm) is None);
            if fs2 != fs {
                assert(lex_lt(hname, nm));
                assert(fs[0].path != nm) by {
                    lemma_lex_total(fs[0].path, nm);
                }
                assert(spec_file_at(fs, nm) == spec_file_at(fs.skip(1), nm));
            }
        }
    }
}

} // verus!

verus! {

/// The items of a list of loose files, one each.
pub open spec fn items_of_files(fs: Seq<LooseFileView>) -> Seq<ItemView> {
    fs.map_values(|f: LooseFileView| item_of_loose(f))
}

proof fn items_of_files_facts(fs: Seq<LooseFileView>)
    ensures
        items_of_files(fs).len() == fs.len(),
        forall|u: int|
            0 <= u < fs.len() ==> #[trigger] items_of_files(fs)[u] == item_of_loose(fs[u]),
{
}

proof fn entry_views_facts(s: Seq<crate::packed::Reference>)
    ensures
        crate::packed::views_of(s).len() == s.len(),
        forall|u: int|
            0 <= u < s.len() ==> #[trigger] crate::packed::views_of(s)[u] == s[u]@,
{
}

/// Copies the loose files whose path lies under `prefix`, in order.
fn filter_files(files: &Vec<LooseFile>, prefix: &Vec<u8>) -> (r: Vec<LooseFile>)
    ensures
        files_of(r@) == files_pref(files_of(files@), prefix@),
{
    let ghost fs = files_of(files@);
    let n: usize = files.len();
    let mut out: Vec<LooseFile> = Vec::new();
    let mut i: usize = 0;
    proof {
        assert(files_of(out@) =~= files_pref(fs.take(0), prefix@));
    }
    while i < n
        invariant
            n == files@.len(),
            fs == files_of(files@),
            fs.len() == n,
            i <= n,
            files_of(out@) == files_pref(fs.take(i as int), prefix@),
        decreases n - i,
    {
        proof {
            crate::store::files_of_facts(files@);
            assert(fs.take(i + 1) =~= fs.take(i as int).push(fs[i as int]));
            lemma_files_pref_snoc(fs.take(i as int), prefix@, fs[i as int]);
        }
        if bytes_starts_with(&files[i].path, prefix) {
            let ghost old_out = out@;
            out.push(files[i].duplicate());
            proof {
                crate::store::files_of_facts(old_out);
                crate::store::files_of_facts(out@);
                assert(files_of(out@) =~= files_of(old_out).push(fs[i as int]));
                assert(files_of(out@) =~= files_pref(fs.take(i + 1), prefix@));
            }
        } else {
            proof {
                assert(files_pref(fs.take(i + 1), prefix@) =~= files_pref(
                    fs.take(i as int),
                    prefix@,
                ));
            }
        }
        i += 1;
    }
    proof {
        assert(fs.take(n as int) =~= fs);
    }
    out
}

/// Copies the packed entries whose name lies under `prefix`, in order.
fn filter_entries(buf: &Buffer, prefix: &Vec<u8>) -> (r: Vec<crate::packed::Reference>)
    ensures
        crate::packed::views_of(r@) == entries_pref(buf@, prefix@),
{
    let ghost es = buf@;
    let records = buf.iter();
    let n: usize = records.len();
    proof {
        entry_views_facts(records@);
        assert(crate::packed::views_of(records@).len() == es.len());
    }
    let mut out: Vec<crate::packed::Reference> = Vec::new();
    let mut i: usize = 0;
    proof {
        assert(crate::packed::views_of(out@) =~= entries_pref(es.take(0), prefix@));
    }
    while i < n
        invariant
            n == records@.len(),
            crate::packed::views_of(records@) == es,
            es == buf@,
            es.len() == n,
            i <= n,
            crate::packed::views_of(out@) == entries_pref(es.take(i as int), prefix@),
        decreases n - i,
    {
        proof {
            entry_views_facts(records@);
            assert(es.take(i + 1) =~= es.take(i as int).push(es[i as int]));
            lemma_entries_pref_snoc(es.take(i as int), prefix@, es[i as int]);
        }
        if bytes_starts_with(records[i].name.as_bytes(), prefix) {
            let ghost old_out = out@;
            out.push(records[i].duplicate());
            proof {
                entry_views_facts(old_out);
                entry_views_facts(out@);
                assert(crate::packed::views_of(out@) =~= crate::packed::views_of(old_out).push(
                    es[i as int],
                ));
                assert(crate::packed::views_of(out@) =~= entries_pref(es.take(i + 1), prefix@));
            }
        } else {
            proof {
                assert(entries_pref(es.take(i + 1), prefix@) =~= entries_pref(
                    es.take(i as int),
                    prefix@,
                ));
            }
        }
        i += 1;
    }
    proof {
        assert(es.take(n as int) =~= es);
    }
    out
}

/// Builds the item one loose file yields.
fn loose_item(f: &LooseFile) -> (r: Result<crate::loose::Reference, IterError>)
    ensures
        (match r {
            Ok(l) => ItemView::LooseRef(l.name@, l.target@),
            Err(e) => ItemView::Broken(e.path@, e.content@),
        }) == item_of_loose(f@),
        r is Ok ==> crate::loose::loose_ref_wf(r->Ok_0),
{
    match FullName::try_from(bytes_clone(&f.path)) {
        Ok(name) => match crate::loose::parse_target(&f.content) {
            Some(target) => Ok(crate::loose::Reference { name, target }),
            None => Err(IterError {
                path: bytes_clone(&f.path),
                content: bytes_clone(&f.content),
            }),
        },
        Err(_) => Err(IterError { path: bytes_clone(&f.path), content: bytes_clone(&f.content) }),
    }
}

/// Merges the two sorted, filtered backends into one stream.
fn merge_streams(lf: &Vec<LooseFile>, pe: &Vec<crate::packed::Reference>) -> (r: Vec<
    Result<Reference, IterError>,
>)
    ensures
        items_of(r@) == spec_overlay(files_of(lf@), crate::packed::views_of(pe@)),
{
    let ghost fs = files_of(lf@);
    let ghost es = crate::packed::views_of(pe@);
    let nf: usize = lf.len();
    let ne: usize = pe.len();
    proof {
        crate::store::files_of_facts(lf@);
        entry_views_facts(pe@);
        assert(fs.skip(0) =~= fs);
        assert(es.skip(0) =~= es);
    }
    let mut out: Vec<Result<Reference, IterError>> = Vec::new();
    let mut i: usize = 0;
    let mut j: usize = 0;
    while i < nf || j < ne
        invariant
            nf == lf@.len() == fs.len(),
            ne == pe@.len() == es.len(),
            fs == files_of(lf@),
            es == crate::packed::views_of(pe@),
            i <= nf,
            j <= ne,
            spec_overlay(fs, es) == items_of(out@) + spec_overlay(
                fs.skip(i as int),
                es.skip(j as int),
            ),
        decreases (nf - i) + (ne - j),
    {
        let ghost fs2 = fs.skip(i as int);
        let ghost es2 = es.skip(j as int);
        proof {
            crate::store::files_of_facts(lf@);
            entry_views_facts(pe@);
            if i < nf {
                assert(fs2[0] == fs[i as int]);
                assert(fs[i as int] == lf@[i as int]@);
            }
            if j < ne {
                assert(es2[0] == es[j as int]);
                assert(es[j as int] == pe@[j as int]@);
            }
            if i < nf {
                assert(fs2.skip(1) =~= fs.skip(i as int + 1));
            }
            if j < ne {
                assert(es2.skip(1) =~= es.skip(j as int + 1));
            }
        }
        let take_loose: bool = if j == ne {
            true
        } else if i == nf {
            false
        } else if bytes_lt(&lf[i].path, pe[j].name.as_bytes()) {
            true
        } else if bytes_lt(pe[j].name.as_bytes(), &lf[i].path) {
            false
        } else {
            // equal names: the loose entry wins and the packed one is dropped
            let item: Result<Reference, IterError> = match loose_item(&lf[i]) {
                Ok(l) => Ok(Reference::Loose(l)),
                Err(e) => Err(e),
            };
            let ghost old_out = out@;
            out.push(item);
            proof {
                items_of_facts(old_out);
                items_of_facts(out@);
                assert(spec_overlay(fs2, es2) == seq![item_of_loose(fs2[0])] + spec_overlay(
                    fs2.skip(1),
                    es2.skip(1),
                ));
                assert(items_of(out@) =~= items_of(old_out) + seq![item_of_loose(fs2[0])]);
                assert(items_of(old_out) + (seq![item_of_loose(fs2[0])] + spec_overlay(
                    fs2.skip(1),
                    es2.skip(1),
                )) =~= items_of(out@) + spec_overlay(fs2.skip(1), es2.skip(1)));
            }
            i += 1;
            j += 1;
            continue;
        };
        if take_loose {
            let item: Result<Reference, IterError> = match loose_item(&lf[i]) {
                Ok(l) => Ok(Reference::Loose(l)),
                Err(e) => Err(e),
            };
            let ghost old_out = out@;
            out.push(item);
            proof {
                items_of_facts(old_out);
                items_of_facts(out@);
                assert(spec_overlay(fs2, es2) == seq![item_of_loose(fs2[0])] + spec_overlay(
                    fs2.skip(1),
                    es2,
                ));
                assert(items_of(out@) =~= items_of(old_out) + seq![item_of_loose(fs2[0])]);
                assert(items_of(old_out) + (seq![item_of_loose(fs2[0])] + spec_overlay(
                    fs2.skip(1),
                    es2,
                )) =~= items_of(out@) + spec_overlay(fs2.skip(1), es2));
            }
            i += 1;
        } else {
            let item: Result<Reference, IterError> = Ok(Reference::Packed(pe[j].duplicate()));
            let ghost old_out = out@;
            out.push(item);
            proof {
                items_of_facts(old_out);
                items_of_facts(out@);
                assert(spec_overlay(fs2, es2) == seq![ItemView::PackedRef(es2[0])] + spec_overlay(
                    fs2,
                    es2.skip(1),
                ));
                assert(items_of(out@) =~= items_of(old_out) + seq![ItemView::PackedRef(es2[0])]);
                assert(items_of(old_out) + (seq![ItemView::PackedRef(es2[0])] + spec_overlay(
                    fs2,
                    es2.skip(1),
                )) =~= items_of(out@) + spec_overlay(fs2, es2.skip(1)));
            }
            j += 1;
        }
    }
    proof {
        assert(fs.skip(nf as int) =~= Seq::<LooseFileView>::empty());
        assert(es.skip(ne as int) =~= Seq::<EntryView>::empty());
        assert(items_of(out@) + spec_overlay(fs.skip(nf as int), es.skip(ne as int)) =~= items_of(
            out@,
        ));
    }
    out
}

impl Store {
    /// Iterates the loose references under `prefix`, sorted by name;
    /// unreadable files are yielded as error items. An absolute prefix is
    /// rejected.
    pub fn loose_iter_prefixed(&self, prefix: &Vec<u8>) -> (r: Result<
        Vec<Result<crate::loose::Reference, IterError>>,
        PrefixError,
    >)
        ensures
            prefix@.len() > 0 && prefix@[0] == '/' as u8 <==> r is Err,
            r is Ok ==> loose_items_of(r->Ok_0@) == items_of_files(
                files_pref(self.files(), prefix@),
            ),
    {
        if prefix.len() > 0 && prefix[0] == '/' as u8 {
            return Err(PrefixError {});
        }
        Ok(self.loose_iter_at(prefix))
    }

    /// Iterates the loose references under `refs/`, sorted by name.
    pub fn loose_iter(&self) -> (r: Vec<Result<crate::loose::Reference, IterError>>)
        ensures
            loose_items_of(r@) == items_of_files(
                files_pref(self.files(), crate::bytestr::ascii_of("refs/"@)),
            ),
    {
        proof {
            reveal_strlit("refs/");
            assert(vstd::string::is_ascii("refs/"));
        }
        let prefix = crate::bytestr::str_bytes("refs/");
        self.loose_iter_at(&prefix)
    }

    /// Iterates the loose references under `prefix`.
    fn loose_iter_at(&self, prefix: &Vec<u8>) -> (r: Vec<
        Result<crate::loose::Reference, IterError>,
    >)
        ensures
            loose_items_of(r@) == items_of_files(files_pref(self.files(), prefix@)),
    {
        let filtered = filter_files(self.loose_files(), prefix);
        let ghost fsp = files_pref(self.files(), prefix@);
        let n: usize = filtered.len();
        proof {
            crate::store::files_of_facts(filtered@);
        }
        let mut out: Vec<Result<crate::loose::Reference, IterError>> = Vec::new();
        let mut i: usize = 0;
        proof {
            items_of_files_facts(fsp);
            assert(loose_items_of(out@) =~= items_of_files(fsp).take(0));
        }
        while i < n
            invariant
                n == filtered@.len(),
                files_of(filtered@) == fsp,
                fsp.len() == n,
                i <= n,
                loose_items_of(out@) == items_of_files(fsp).take(i as int),
            decreases n - i,
        {
            proof {
                crate::store::files_of_facts(filtered@);
                items_of_files_facts(fsp);
            }
            let item = loose_item(&filtered[i]);
            let ghost old_out = out@;
            out.push(item);
            proof {
                loose_items_of_facts(old_out);
                loose_items_of_facts(out@);
                assert(loose_items_of(out@) =~= items_of_files(fsp).take(i + 1));
            }
            i += 1;
        }
        proof {
            items_of_files_facts(fsp);
            assert(items_of_files(fsp).take(n as int) =~= items_of_files(fsp));
        }
        out
    }

    /// Iterates both backends under `prefix` as one sorted, deduplicated
    /// stream: a loose reference shadows a packed entry of the same name.
    /// An absolute prefix is rejected.
    pub fn iter_prefixed(&self, packed: Option<&Buffer>, prefix: &Vec<u8>) -> (r: Result<
        Vec<Result<Reference, IterError>>,
        PrefixError,
    >)
        ensures
            prefix@.len() > 0 && prefix@[0] == '/' as u8 <==> r is Err,
            r is Ok ==> items_of(r->Ok_0@) == spec_overlay(
                files_pref(self.files(), prefix@),
                entries_pref(packed_entries(packed), prefix@),
            ),
    {
        if prefix.len() > 0 && prefix[0] == '/' as u8 {
            return Err(PrefixError {});
        }
        Ok(self.iter_at(packed, prefix))
    }

    /// Iterates both backends under `refs/` as one sorted, deduplicated
    /// stream.
    pub fn iter(&self, packed: Option<&Buffer>) -> (r: Result<
        Vec<Result<Reference, IterError>>,
        PrefixError,
    >)
        ensures
            r is Ok,
            r is Ok ==> items_of(r->Ok_0@) == spec_overlay(
                files_pref(self.files(), crate::bytestr::ascii_of("refs/"@)),
                entries_pref(packed_entries(packed), crate::bytestr::ascii_of("refs/"@)),
            ),
    {
        proof {
            reveal_strlit("refs/");
            assert(vstd::string::is_ascii("refs/"));
        }
        let prefix = crate::bytestr::str_bytes("refs/");
        Ok(self.iter_at(packed, &prefix))
    }

    /// Iterates both backends under `prefix`.
    fn iter_at(&self, packed: Option<&Buffer>, prefix: &Vec<u8>) -> (r: Vec<
        Result<Reference, IterError>,
    >)
        ensures
            items_of(r@) == spec_overlay(
                files_pref(self.files(), prefix@),
                entries_pref(packed_entries(packed), prefix@),
            ),
    {
        let lf = filter_files(self.loose_files(), prefix);
        let pe: Vec<crate::packed::Reference> = match packed {
            Some(buf) => filter_entries(buf, prefix),
            None => {
                proof {
                    assert(packed_entries(packed) =~= Seq::<EntryView>::empty());
                    assert(entries_pref(packed_entries(packed), prefix@)
                        =~= Seq::<EntryView>::empty());
                }
                Vec::new()
            },
        };
        proof {
            if packed is None {
                assert(crate::packed::views_of(Seq::<crate::packed::Reference>::empty())
                    =~= Seq::<EntryView>::empty());
            }
        }
        merge_streams(&lf, &pe)
    }
}

} // verus!
