use refstore::hash::ObjectId;
use refstore::log::{Line, Signature};
use refstore::loose;
use refstore::mutable::{Kind, Target};
use refstore::name::FullName;
use refstore::objects::{Blob, Entry, EntryMode, Object, Tree};
use refstore::odb::{Db, StoredObject};
use refstore::store::{Store, WriteReflog};
use refstore::transaction::{Change, Fail, RefEdit, RefLog};

fn name(s: &str) -> FullName {
    FullName::try_from(s.as_bytes().to_vec()).expect("valid name")
}

fn hex_to_id(s: &str) -> ObjectId {
    ObjectId::from_hex(&s.as_bytes().to_vec()).expect("valid hex")
}

fn committer() -> Signature {
    Signature { name: b"committer".to_vec(), email: b"committer@example.com".to_vec(), seconds: 0 }
}

#[test]
fn loose_round_trip_peeled() {
    let target = Target::Peeled(hex_to_id("134385f6d781b7e97062102c6a483440bfda2a03"));
    let content = loose::encode_target(&target);
    assert_eq!(content, b"134385f6d781b7e97062102c6a483440bfda2a03\n".to_vec());
    let parsed = loose::parse_target(&content).expect("well-formed content reads back");
    assert_eq!(parsed, target);
}

#[test]
fn loose_round_trip_symbolic() {
    let target = Target::Symbolic(name("refs/heads/main"));
    let content = loose::encode_target(&target);
    assert_eq!(content, b"ref: refs/heads/main\n".to_vec());
    let parsed = loose::parse_target(&content).expect("well-formed content reads back");
    assert_eq!(parsed, target);
}

#[test]
fn hex_round_trip() {
    let id = hex_to_id("b3109a7e51fc593f85b145a76c70ddd1d133fafd");
    assert_eq!(id.to_hex(), b"b3109a7e51fc593f85b145a76c70ddd1d133fafd".to_vec());
    assert_eq!(id.as_bytes().len(), 20);
    assert!(ObjectId::from_hex(&b"shorthex".to_vec()).is_none());
    assert!(ObjectId::from_hex(&b"zz109a7e51fc593f85b145a76c70ddd1d133fafd".to_vec()).is_none());
    assert!(ObjectId::null().is_null());
    assert!(!id.is_null());
}

#[test]
fn name_validation() {
    assert!(FullName::try_from(b"refs/heads/main".to_vec()).is_ok());
    assert!(FullName::try_from(Vec::new()).is_err());
    assert!(FullName::try_from(b"refs/he..ads".to_vec()).is_err());
    assert!(FullName::try_from(b"refs/hea\nds".to_vec()).is_err());
    assert!(FullName::try_from(b" leading".to_vec()).is_err());
}

#[test]
fn namespace_expansion() {
    let ns = refstore::name::expand(&b"foo".to_vec()).unwrap();
    assert_eq!(ns.to_path(), &b"refs/namespaces/foo/".to_vec());
    let nested = refstore::name::expand(&b"foo/bar".to_vec()).unwrap();
    assert_eq!(nested.to_path(), &b"refs/namespaces/foo/refs/namespaces/bar/".to_vec());
    assert!(refstore::name::expand(&Vec::new()).is_err());
    let stripped = ns.strip_from(&b"refs/namespaces/foo/refs/d1".to_vec());
    assert_eq!(stripped, Some(b"refs/d1".to_vec()));
    assert_eq!(ns.strip_from(&b"refs/heads/main".to_vec()), None);
}

#[test]
fn path_separators_are_normalized() {
    assert_eq!(
        refstore::name::path_to_name(&b"refs\\heads\\main".to_vec()),
        b"refs/heads/main".to_vec()
    );
    assert_eq!(
        refstore::name::path_to_name(&b"refs/tags/t1".to_vec()),
        b"refs/tags/t1".to_vec()
    );
}

#[test]
fn entry_mode_bytes() {
    assert_eq!(EntryMode::Tree.as_bytes(), b"40000".to_vec());
    assert_eq!(EntryMode::Blob.as_bytes(), b"100644".to_vec());
    assert_eq!(EntryMode::BlobExecutable.as_bytes(), b"100755".to_vec());
    assert_eq!(EntryMode::Link.as_bytes(), b"120000".to_vec());
    assert_eq!(EntryMode::Commit.as_bytes(), b"160000".to_vec());
}

fn tree_with(filename: &[u8]) -> Tree {
    Tree {
        entries: vec![Entry {
            mode: EntryMode::Blob,
            filename: filename.to_vec(),
            oid: hex_to_id("134385f6d781b7e97062102c6a483440bfda2a03"),
        }],
    }
}

#[test]
fn tree_serialization() {
    let tree = tree_with(b"hello.txt");
    let mut out = Vec::new();
    tree.write_to(&mut out).unwrap();
    let mut expected = b"100644 hello.txt\0".to_vec();
    expected.extend_from_slice(hex_to_id("134385f6d781b7e97062102c6a483440bfda2a03").as_bytes());
    assert_eq!(out, expected);
}

#[test]
fn tree_rejects_newline_in_filename() {
    let tree = tree_with(b"hel\nlo");
    let mut out = Vec::new();
    let err = tree.write_to(&mut out).unwrap_err();
    assert_eq!(err.name, b"hel\nlo".to_vec());
}

#[test]
fn tree_parse_inverts_serialization() {
    let tree = tree_with(b"hello.txt");
    let mut out = Vec::new();
    tree.write_to(&mut out).unwrap();
    let entry = refstore::objects::tree_find_entry(&out, &b"hello.txt".to_vec())
        .expect("the serialized entry is found");
    assert_eq!(entry.mode, EntryMode::Blob);
    assert_eq!(entry.filename, b"hello.txt".to_vec());
    assert_eq!(
        entry.oid,
        hex_to_id("134385f6d781b7e97062102c6a483440bfda2a03")
    );
    assert!(refstore::objects::tree_find_entry(&out, &b"absent".to_vec()).is_none());
}

#[test]
fn object_accessors() {
    let blob = Object::Blob(Blob { data: b"hello".to_vec() });
    assert_eq!(blob.kind(), refstore::objects::Kind::Blob);
    assert!(blob.as_blob().is_some());
    assert!(blob.as_tree().is_none());
    assert!(blob.as_commit().is_none());
    assert!(blob.as_tag().is_none());
    let mut out = Vec::new();
    blob.write_to(&mut out).unwrap();
    assert_eq!(out, b"hello".to_vec());

    let tree = Object::Tree(Tree { entries: Vec::new() });
    assert_eq!(tree.kind(), refstore::objects::Kind::Tree);
    assert!(tree.as_tree().is_some());
    assert!(tree.try_into_tree().is_ok());
}

#[test]
fn tag_target_line() {
    let data = b"object 134385f6d781b7e97062102c6a483440bfda2a03\ntype commit\n".to_vec();
    assert_eq!(
        refstore::objects::tag_target(&data),
        Some(hex_to_id("134385f6d781b7e97062102c6a483440bfda2a03"))
    );
    assert_eq!(refstore::objects::tag_target(&b"garbage".to_vec()), None);
}

#[test]
fn odb_chain_lookup() {
    let c1 = hex_to_id("134385f6d781b7e97062102c6a483440bfda2a03");
    let c2 = hex_to_id("9902e3c3e8f0c569b4ab295ddf473e6de763e1e7");
    let primary = Db {
        objects: vec![StoredObject {
            id: c1.duplicate(),
            kind: refstore::objects::Kind::Commit,
            data: b"primary".to_vec(),
        }],
    };
    let alternate = Db {
        objects: vec![StoredObject {
            id: c2.duplicate(),
            kind: refstore::objects::Kind::Blob,
            data: b"alternate".to_vec(),
        }],
    };
    let store = refstore::odb::Store::at(primary, vec![alternate]).unwrap();
    assert_eq!(store.dbs.len(), 2);
    assert_eq!(store.find(&c1).expect("in primary").data, b"primary".to_vec());
    assert_eq!(store.find(&c2).expect("in alternate").data, b"alternate".to_vec());
    assert!(store.find(&ObjectId::null()).is_none());
}

#[test]
fn lookup_path_walks_nested_trees() {
    let leaf_id = hex_to_id("134385f6d781b7e97062102c6a483440bfda2a03");
    let subtree_id = hex_to_id("9902e3c3e8f0c569b4ab295ddf473e6de763e1e7");
    let subtree = tree_with(b"file.txt");
    let mut subtree_bytes = Vec::new();
    subtree.write_to(&mut subtree_bytes).unwrap();
    let root = Tree {
        entries: vec![Entry {
            mode: EntryMode::Tree,
            filename: b"dir".to_vec(),
            oid: subtree_id.duplicate(),
        }],
    };
    let mut root_bytes = Vec::new();
    root.write_to(&mut root_bytes).unwrap();
    let odb = refstore::odb::Store::at(
        Db {
            objects: vec![StoredObject {
                id: subtree_id,
                kind: refstore::objects::Kind::Tree,
                data: subtree_bytes,
            }],
        },
        Vec::new(),
    )
    .unwrap();
    let tree_ref = refstore::tree_ref::TreeRef { data: root_bytes.clone() };
    let entry = tree_ref
        .lookup_path(&odb, &vec![b"dir".to_vec(), b"file.txt".to_vec()])
        .unwrap()
        .expect("the nested entry is found");
    assert_eq!(entry.filename, b"file.txt".to_vec());
    assert_eq!(entry.oid, leaf_id);

    let tree_ref = refstore::tree_ref::TreeRef { data: root_bytes };
    assert!(tree_ref
        .lookup_path(&odb, &vec![b"dir".to_vec(), b"absent".to_vec()])
        .unwrap()
        .is_none());
}

#[test]
fn packed_rewrite_keeps_survivors_in_order() {
    let mut s = Store::new(WriteReflog::Normal);
    let c1 = "134385f6d781b7e97062102c6a483440bfda2a03";
    let mut packed = String::new();
    packed.push_str(&format!("{} refs/heads/a\n", c1));
    packed.push_str(&format!("{} refs/heads/b\n", c1));
    packed.push_str(&format!("{} refs/heads/c\n", c1));
    s.put_packed_file(packed.into_bytes());
    let buf = s.packed_buffer().unwrap().expect("packed");
    let rewritten = buf
        .rewrite(&vec![name("refs/heads/b")])
        .expect("two entries survive");
    let expected = format!("{} refs/heads/a\n{} refs/heads/c\n", c1, c1).into_bytes();
    assert_eq!(rewritten, expected);
    assert!(buf.rewrite(&vec![
        name("refs/heads/a"),
        name("refs/heads/b"),
        name("refs/heads/c")
    ])
    .is_none());
}

#[test]
fn packed_buffer_rejects_unsorted_entries() {
    let mut s = Store::new(WriteReflog::Normal);
    let c1 = "134385f6d781b7e97062102c6a483440bfda2a03";
    let packed = format!("{} refs/heads/b\n{} refs/heads/a\n", c1, c1);
    s.put_packed_file(packed.into_bytes());
    assert!(s.packed_buffer().is_err());
}

#[test]
fn packed_annotation_belongs_to_its_entry() {
    let mut s = Store::new(WriteReflog::Normal);
    let tag = "4c3f4cce493d7beb45012e478021b5f65295e5a3";
    let commit = "134385f6d781b7e97062102c6a483440bfda2a03";
    let packed = format!("{} refs/tags/dt1\n^{}\n", tag, commit);
    s.put_packed_file(packed.into_bytes());
    let buf = s.packed_buffer().unwrap().expect("packed");
    let rec = buf.find(&b"refs/tags/dt1".to_vec()).expect("present");
    assert_eq!(rec.target(), hex_to_id(tag));
    assert_eq!(rec.object(), hex_to_id(commit));
}

#[test]
fn update_writes_reference_and_reflog() {
    let mut store = Store::new(WriteReflog::Normal);
    let c1 = hex_to_id("134385f6d781b7e97062102c6a483440bfda2a03");
    let tx = store.transaction();
    let prepared = tx
        .prepare(
            &mut store,
            vec![RefEdit {
                change: Change::Update {
                    log: RefLog::AndReference,
                    message: b"commit (initial): c1".to_vec(),
                    new: Target::Peeled(c1.duplicate()),
                    previous: None,
                },
                name: name("refs/heads/main"),
                deref: false,
            }],
            Fail::Immediately,
        )
        .unwrap();
    let edits = prepared.commit(&mut store, &committer()).unwrap();
    assert_eq!(edits.len(), 1);
    let found = store.loose_find(&b"main".to_vec()).unwrap().expect("written");
    assert_eq!(found.target, Target::Peeled(c1.duplicate()));
    let lines = store.reflog_iter(&b"refs/heads/main".to_vec()).expect("log written");
    assert_eq!(lines.len(), 1);
    assert!(lines[0].previous_oid.is_null());
    assert_eq!(lines[0].new_oid, c1);
    assert_eq!(lines[0].message, b"commit (initial): c1".to_vec());
}

#[test]
fn update_log_only_leaves_reference_untouched() {
    let mut store = Store::new(WriteReflog::Normal);
    let c1 = hex_to_id("134385f6d781b7e97062102c6a483440bfda2a03");
    let tx = store.transaction();
    let prepared = tx
        .prepare(
            &mut store,
            vec![RefEdit {
                change: Change::Update {
                    log: RefLog::Only,
                    message: b"log only".to_vec(),
                    new: Target::Peeled(c1),
                    previous: None,
                },
                name: name("refs/heads/main"),
                deref: false,
            }],
            Fail::Immediately,
        )
        .unwrap();
    prepared.commit(&mut store, &committer()).unwrap();
    assert!(
        store.loose_find(&b"main".to_vec()).unwrap().is_none(),
        "the current-value file stays untouched"
    );
    assert!(
        store.reflog_iter(&b"refs/heads/main".to_vec()).is_some(),
        "only the history file was written"
    );
}

#[test]
fn disabled_reflog_suppresses_update_lines() {
    let mut store = Store::new(WriteReflog::Disable);
    let c1 = hex_to_id("134385f6d781b7e97062102c6a483440bfda2a03");
    let tx = store.transaction();
    let prepared = tx
        .prepare(
            &mut store,
            vec![RefEdit {
                change: Change::Update {
                    log: RefLog::AndReference,
                    message: b"quiet".to_vec(),
                    new: Target::Peeled(c1),
                    previous: None,
                },
                name: name("refs/heads/main"),
                deref: false,
            }],
            Fail::Immediately,
        )
        .unwrap();
    prepared.commit(&mut store, &committer()).unwrap();
    assert!(store.loose_find(&b"main".to_vec()).unwrap().is_some());
    assert!(store.reflog_iter(&b"refs/heads/main".to_vec()).is_none());
}

#[test]
fn update_with_wrong_previous_value_fails() {
    let mut store = Store::new(WriteReflog::Normal);
    let c1 = hex_to_id("134385f6d781b7e97062102c6a483440bfda2a03");
    let c2 = hex_to_id("9902e3c3e8f0c569b4ab295ddf473e6de763e1e7");
    store.write_loose_file(
        b"refs/heads/main".to_vec(),
        b"134385f6d781b7e97062102c6a483440bfda2a03\n".to_vec(),
    );
    let tx = store.transaction();
    let res = tx.prepare(
        &mut store,
        vec![RefEdit {
            change: Change::Update {
                log: RefLog::AndReference,
                message: b"m".to_vec(),
                new: Target::Peeled(c1),
                previous: Some(Target::Peeled(c2)),
            },
            name: name("refs/heads/main"),
            deref: false,
        }],
        Fail::Immediately,
    );
    assert!(res.is_err());
}

#[test]
fn duplicate_edits_are_rejected() {
    let mut store = Store::new(WriteReflog::Normal);
    let edit = RefEdit {
        change: Change::Delete { previous: None, log: RefLog::AndReference },
        name: name("refs/heads/main"),
        deref: false,
    };
    let tx = store.transaction();
    let res = tx.prepare(&mut store, vec![edit.duplicate(), edit], Fail::Immediately);
    match res {
        Err(e) => assert_eq!(
            e.message(),
            b"The reference 'refs/heads/main' is edited more than once".to_vec()
        ),
        Ok(_) => unreachable!("the same name cannot be edited twice"),
    }
}

#[test]
fn contended_lock_fails_immediately() {
    let mut store = Store::new(WriteReflog::Normal);
    let edit = RefEdit {
        change: Change::Delete { previous: None, log: RefLog::AndReference },
        name: name("refs/heads/main"),
        deref: false,
    };
    let tx = store.transaction();
    let held = tx.prepare(&mut store, vec![edit.duplicate()], Fail::Immediately).unwrap();
    let tx2 = store.transaction();
    let res = tx2.prepare(&mut store, vec![edit], Fail::Immediately);
    match res {
        Err(e) => assert_eq!(
            e.message(),
            b"The reference 'refs/heads/main' is locked by another writer".to_vec()
        ),
        Ok(_) => unreachable!("the lock is held"),
    }
    held.commit(&mut store, &committer()).unwrap();
}

#[test]
fn release_options_from_flags() {
    let opts = refstore::release::Options::from_flags(
        false, false, true, false, false, false, false, false, false, false, false, false, false,
    );
    assert!(opts.dry_run, "not executing means a dry run");
    assert!(!opts.verbose);
    assert!(opts.no_bump_on_demand);
    let opts = refstore::release::Options::from_flags(
        true, false, false, false, false, false, false, false, false, false, false, false, false,
    );
    assert!(!opts.dry_run);
    assert!(opts.verbose, "an executing run is always verbose");
}

#[test]
fn reflog_lines_keep_order() {
    let mut store = Store::new(WriteReflog::Normal);
    let c1 = hex_to_id("134385f6d781b7e97062102c6a483440bfda2a03");
    let c2 = hex_to_id("9902e3c3e8f0c569b4ab295ddf473e6de763e1e7");
    store.reflog_append(
        &b"HEAD".to_vec(),
        Line {
            previous_oid: ObjectId::null(),
            new_oid: c1.duplicate(),
            signature: committer(),
            message: b"first".to_vec(),
        },
    );
    store.reflog_append(
        &b"HEAD".to_vec(),
        Line {
            previous_oid: c1,
            new_oid: c2,
            signature: committer(),
            message: b"second".to_vec(),
        },
    );
    let forward = store.reflog_iter(&b"HEAD".to_vec()).expect("log exists");
    assert_eq!(forward.len(), 2);
    assert_eq!(forward[0].message, b"first".to_vec());
    assert_eq!(forward[1].message, b"second".to_vec());
    let backward = store.reflog_iter_rev(&b"HEAD".to_vec()).expect("log exists");
    assert_eq!(backward[0].message, b"second".to_vec());
    assert_eq!(backward[1].message, b"first".to_vec());
    assert!(store.reflog_iter(&b"refs/heads/other".to_vec()).is_none());
}

#[test]
fn must_exist_sentinel() {
    assert!(Target::must_exist().is_must_exist());
    assert!(!Target::Peeled(hex_to_id("134385f6d781b7e97062102c6a483440bfda2a03"))
        .is_must_exist());
    assert_eq!(Target::must_exist().kind(), Kind::Peeled);
    assert_eq!(Target::Symbolic(name("refs/heads/main")).kind(), Kind::Symbolic);
}

#[test]
fn peel_fails_on_a_missing_target() {
    let mut store = Store::new(WriteReflog::Normal);
    store.write_loose_file(b"HEAD".to_vec(), b"ref: refs/heads/absent\n".to_vec());
    let head = store.loose_find_existing(&b"HEAD".to_vec()).unwrap();
    let mut head = refstore::reference::Reference::Loose(head);
    match head.peel_to_id_in_place(&store, None, None) {
        Err(refstore::reference::PeelError::NotFound { name: missing }) => {
            assert_eq!(missing.as_bytes(), b"refs/heads/absent");
        },
        other => panic!("a missing target must be reported, got {:?}", other),
    }
    assert_eq!(head.name().as_bytes(), b"HEAD", "the ref is not changed on error");
}

#[test]
fn peel_fails_on_an_unreadable_target() {
    let mut store = Store::new(WriteReflog::Normal);
    store.write_loose_file(b"HEAD".to_vec(), b"ref: refs/heads/broken\n".to_vec());
    store.write_loose_file(b"refs/heads/broken".to_vec(), b"junk".to_vec());
    let head = store.loose_find_existing(&b"HEAD".to_vec()).unwrap();
    let mut head = refstore::reference::Reference::Loose(head);
    match head.peel_to_id_in_place(&store, None, None) {
        Err(refstore::reference::PeelError::Parse(p)) => {
            assert_eq!(p.message(), b"\"junk\" could not be parsed".to_vec());
        },
        other => panic!("unreadable content must be reported, got {:?}", other),
    }
}

#[test]
fn partial_names_prefer_tags_over_heads() {
    let mut store = Store::new(WriteReflog::Normal);
    let c1 = "134385f6d781b7e97062102c6a483440bfda2a03";
    let c2 = "9902e3c3e8f0c569b4ab295ddf473e6de763e1e7";
    store.write_loose_file(b"refs/heads/x".to_vec(), format!("{}\n", c2).into_bytes());
    store.write_loose_file(b"refs/tags/x".to_vec(), format!("{}\n", c1).into_bytes());
    let found = store.find_existing(&b"x".to_vec(), None).unwrap();
    assert_eq!(found.name().as_bytes(), b"refs/tags/x", "tags come before heads");
}

#[test]
fn update_through_symbolic_head_writes_the_leaf() {
    let mut store = Store::new(WriteReflog::Normal);
    let c1 = hex_to_id("134385f6d781b7e97062102c6a483440bfda2a03");
    let c2 = hex_to_id("9902e3c3e8f0c569b4ab295ddf473e6de763e1e7");
    store.write_loose_file(b"HEAD".to_vec(), b"ref: refs/heads/main\n".to_vec());
    store.write_loose_file(
        b"refs/heads/main".to_vec(),
        b"134385f6d781b7e97062102c6a483440bfda2a03\n".to_vec(),
    );
    let tx = store.transaction();
    let prepared = tx
        .prepare(
            &mut store,
            vec![RefEdit {
                change: Change::Update {
                    log: RefLog::AndReference,
                    message: b"commit: c2".to_vec(),
                    new: Target::Peeled(c2.duplicate()),
                    previous: Some(Target::Peeled(c1)),
                },
                name: name("HEAD"),
                deref: true,
            }],
            Fail::Immediately,
        )
        .unwrap();
    let edits = prepared.commit(&mut store, &committer()).unwrap();
    assert_eq!(edits.len(), 2, "the edit splits into the symbolic ref and its leaf");
    assert_eq!(edits[1].name.as_bytes(), b"refs/heads/main");
    let main = store.loose_find_existing(&b"main".to_vec()).unwrap();
    assert_eq!(main.target, Target::Peeled(c2), "the leaf took the new value");
}
