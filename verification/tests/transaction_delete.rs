use refstore::hash::ObjectId;
use refstore::log::{Line, Signature};
use refstore::mutable::Target;
use refstore::name::FullName;
use refstore::store::{Store, WriteReflog};
use refstore::transaction::{Change, Fail, RefEdit, RefLog};

fn name(s: &str) -> FullName {
    FullName::try_from(s.as_bytes().to_vec()).expect("valid name")
}

fn hex_to_id(s: &str) -> ObjectId {
    ObjectId::from_hex(&s.as_bytes().to_vec()).expect("valid hex")
}

fn committer() -> Signature {
    Signature { name: b"committer".to_vec(), email: b"committer@example.com".to_vec(), seconds: 0 }
}

fn log_line() -> Line {
    Line {
        previous_oid: ObjectId::null(),
        new_oid: hex_to_id("02a7a22d90d7c02fb494ed25551850b868e634f0"),
        signature: committer(),
        message: b"commit (initial): main".to_vec(),
    }
}

fn empty_store() -> Store {
    Store::new(WriteReflog::Normal)
}

/// A store with a symbolic `HEAD`, its referent, and reflogs for both.
fn store_for_reflog() -> Store {
    let mut s = Store::new(WriteReflog::Normal);
    s.write_loose_file(b"HEAD".to_vec(), b"ref: refs/heads/main\n".to_vec());
    s.write_loose_file(
        b"refs/heads/main".to_vec(),
        b"02a7a22d90d7c02fb494ed25551850b868e634f0\n".to_vec(),
    );
    s.reflog_append(&b"HEAD".to_vec(), log_line());
    s.reflog_append(&b"refs/heads/main".to_vec(), log_line());
    s
}

/// A store whose references live in the packed file alone.
fn store_with_packed_refs() -> Store {
    let mut s = Store::new(WriteReflog::Normal);
    let c1 = "134385f6d781b7e97062102c6a483440bfda2a03";
    let d1 = "9902e3c3e8f0c569b4ab295ddf473e6de763e1e7";
    let mut packed = String::from("# pack-refs with: peeled fully-peeled sorted\n");
    packed.push_str(&format!("{} refs/heads/d1\n", d1));
    packed.push_str(&format!("{} refs/heads/main\n", c1));
    packed.push_str(&format!("{} refs/tags/t1\n", c1));
    s.put_packed_file(packed.into_bytes());
    s
}

/// A store with an outdated packed entry shadowed by a loose reference.
fn store_for_overlay() -> Store {
    let mut s = Store::new(WriteReflog::Normal);
    let c1 = "134385f6d781b7e97062102c6a483440bfda2a03";
    let c2 = "9902e3c3e8f0c569b4ab295ddf473e6de763e1e7";
    let mut packed = String::from("# pack-refs with: peeled fully-peeled sorted\n");
    packed.push_str(&format!("{} refs/heads/main\n", c1));
    packed.push_str(&format!("{} refs/heads/newer-as-loose\n", c1));
    s.put_packed_file(packed.into_bytes());
    s.write_loose_file(b"refs/heads/newer-as-loose".to_vec(), format!("{}\n", c2).into_bytes());
    s
}

#[test]
fn delete_a_ref_which_is_gone_succeeds() {
    let mut store = empty_store();
    let tx = store.transaction();
    let prepared = tx
        .prepare(
            &mut store,
            vec![RefEdit {
                change: Change::Delete {
                    previous: None,
                    log: RefLog::AndReference,
                },
                name: name("DOES_NOT_EXIST"),
                deref: false,
            }],
            Fail::Immediately,
        )
        .unwrap();
    let edits = prepared.commit(&mut store, &committer()).unwrap();
    assert_eq!(edits.len(), 1);
}

#[test]
fn delete_a_ref_which_is_gone_but_must_exist_fails() {
    let mut store = empty_store();
    let tx = store.transaction();
    let res = tx.prepare(
        &mut store,
        vec![RefEdit {
            change: Change::Delete {
                previous: Some(Target::must_exist()),
                log: RefLog::AndReference,
            },
            name: name("DOES_NOT_EXIST"),
            deref: false,
        }],
        Fail::Immediately,
    );
    match res {
        Ok(_) => unreachable!("must exist, but it doesn't actually exist"),
        Err(err) => assert_eq!(
            err.message(),
            b"The reference 'DOES_NOT_EXIST' for deletion did not exist or could not be parsed"
                .to_vec()
        ),
    }
}

#[test]
fn delete_ref_and_reflog_on_symbolic_no_deref() {
    let mut store = store_for_reflog();
    let head = store.loose_find_existing(&b"HEAD".to_vec()).unwrap();
    assert!(refstore::reference::Reference::Loose(head.clone()).log_exists(&store));
    let _main = store.loose_find_existing(&b"main".to_vec()).unwrap();

    let tx = store.transaction();
    let prepared = tx
        .prepare(
            &mut store,
            vec![RefEdit {
                change: Change::Delete {
                    previous: Some(Target::must_exist()),
                    log: RefLog::AndReference,
                },
                name: head.name.duplicate(),
                deref: false,
            }],
            Fail::Immediately,
        )
        .unwrap();
    let edits = prepared.commit(&mut store, &committer()).unwrap();

    assert_eq!(
        edits,
        vec![RefEdit {
            change: Change::Delete {
                previous: Some(Target::Symbolic(name("refs/heads/main"))),
                log: RefLog::AndReference,
            },
            name: head.name,
            deref: false
        }],
        "the previous value was updated with the actual one"
    );
    assert!(
        store.reflog_iter_rev(&b"HEAD".to_vec()).is_none(),
        "reflog was deleted"
    );
    assert!(store.loose_find(&b"HEAD".to_vec()).unwrap().is_none(), "ref was deleted");
    assert!(store.loose_find(&b"main".to_vec()).unwrap().is_some(), "referent still exists");
}

#[test]
fn delete_ref_with_incorrect_previous_value_fails() {
    let mut store = store_for_reflog();
    let head = store.loose_find_existing(&b"HEAD".to_vec()).unwrap();
    assert!(refstore::reference::Reference::Loose(head.clone()).log_exists(&store));

    let tx = store.transaction();
    let res = tx.prepare(
        &mut store,
        vec![RefEdit {
            change: Change::Delete {
                previous: Some(Target::Symbolic(name("refs/heads/main"))),
                log: RefLog::Only,
            },
            name: head.name,
            deref: true,
        }],
        Fail::Immediately,
    );

    match res {
        Err(err) => {
            assert_eq!(err.message(), b"The reference 'refs/heads/main' should have content ref: refs/heads/main, actual content was 02a7a22d90d7c02fb494ed25551850b868e634f0".to_vec());
        },
        Ok(_) => unreachable!("must be err"),
    }
    // everything stays as is
    let head = store.loose_find_existing(&b"HEAD".to_vec()).unwrap();
    assert!(refstore::reference::Reference::Loose(head).log_exists(&store));
    let main = store.loose_find_existing(&b"main".to_vec()).expect("referent still exists");
    assert!(refstore::reference::Reference::Loose(main).log_exists(&store));
}

#[test]
fn delete_reflog_only_of_symbolic_no_deref() {
    let mut store = store_for_reflog();
    let head = store.loose_find_existing(&b"HEAD".to_vec()).unwrap();
    assert!(refstore::reference::Reference::Loose(head.clone()).log_exists(&store));

    let tx = store.transaction();
    let prepared = tx
        .prepare(
            &mut store,
            vec![RefEdit {
                change: Change::Delete {
                    previous: Some(Target::Symbolic(name("refs/heads/main"))),
                    log: RefLog::Only,
                },
                name: head.name,
                deref: false,
            }],
            Fail::Immediately,
        )
        .unwrap();
    let edits = prepared.commit(&mut store, &committer()).unwrap();

    assert_eq!(edits.len(), 1);
    let head = store.loose_find_existing(&b"HEAD".to_vec()).unwrap();
    assert!(!refstore::reference::Reference::Loose(head.clone()).log_exists(&store));
    let main = store.loose_find_existing(&b"main".to_vec()).expect("referent still exists");
    assert!(
        refstore::reference::Reference::Loose(main.clone()).log_exists(&store),
        "log is untouched, too"
    );
    let followed = head.follow_symbolic(&store, None).expect("a symref").unwrap();
    assert_eq!(main.target, followed.target(), "head points to main");
}

#[test]
fn delete_reflog_only_of_symbolic_with_deref() {
    let mut store = store_for_reflog();
    let head = store.loose_find_existing(&b"HEAD".to_vec()).unwrap();
    assert!(refstore::reference::Reference::Loose(head.clone()).log_exists(&store));

    let tx = store.transaction();
    let prepared = tx
        .prepare(
            &mut store,
            vec![RefEdit {
                change: Change::Delete {
                    previous: Some(Target::must_exist()),
                    log: RefLog::Only,
                },
                name: head.name,
                deref: true,
            }],
            Fail::Immediately,
        )
        .unwrap();
    let edits = prepared.commit(&mut store, &committer()).unwrap();

    assert_eq!(edits.len(), 2);
    let head = store.loose_find_existing(&b"HEAD".to_vec()).unwrap();
    assert!(!refstore::reference::Reference::Loose(head.clone()).log_exists(&store));
    let main = store.loose_find_existing(&b"main".to_vec()).expect("referent still exists");
    assert!(
        !refstore::reference::Reference::Loose(main.clone()).log_exists(&store),
        "log is removed"
    );
    let followed = head.follow_symbolic(&store, None).expect("a symref").unwrap();
    assert_eq!(main.target, followed.target(), "head points to main");
}

#[test]
fn delete_broken_ref_that_must_exist_fails_as_it_is_no_valid_ref() {
    let mut store = empty_store();
    store.write_loose_file(b"HEAD".to_vec(), b"broken".to_vec());
    assert!(store.loose_find(&b"HEAD".to_vec()).is_err(), "the ref is truly broken");

    let tx = store.transaction();
    let res = tx.prepare(
        &mut store,
        vec![RefEdit {
            change: Change::Delete {
                previous: Some(Target::must_exist()),
                log: RefLog::AndReference,
            },
            name: name("HEAD"),
            deref: true,
        }],
        Fail::Immediately,
    );
    match res {
        Err(err) => {
            assert_eq!(
                err.message(),
                b"The reference 'HEAD' for deletion did not exist or could not be parsed".to_vec()
            );
        },
        Ok(_) => unreachable!("expected error"),
    }
}

#[test]
fn delete_broken_ref_that_may_not_exist_works_even_in_deref_mode() {
    let mut store = empty_store();
    store.write_loose_file(b"HEAD".to_vec(), b"broken".to_vec());
    assert!(store.loose_find(&b"HEAD".to_vec()).is_err(), "the ref is truly broken");

    let tx = store.transaction();
    let prepared = tx
        .prepare(
            &mut store,
            vec![RefEdit {
                change: Change::Delete {
                    previous: None,
                    log: RefLog::AndReference,
                },
                name: name("HEAD"),
                deref: true,
            }],
            Fail::Immediately,
        )
        .unwrap();
    let edits = prepared.commit(&mut store, &committer()).unwrap();

    assert!(store.loose_find(&b"HEAD".to_vec()).unwrap().is_none(), "the ref was deleted");
    assert_eq!(
        edits,
        vec![RefEdit {
            change: Change::Delete {
                previous: None,
                log: RefLog::AndReference,
            },
            name: name("HEAD"),
            deref: false,
        }]
    );
}

#[test]
fn store_write_mode_has_no_effect_and_reflogs_are_always_deleted() {
    for reflog_writemode in &[WriteReflog::Normal, WriteReflog::Disable] {
        let mut store = store_for_reflog();
        store.write_reflog = *reflog_writemode;
        assert!(
            refstore::reference::Reference::Loose(
                store.loose_find_existing(&b"HEAD".to_vec()).unwrap()
            )
            .log_exists(&store)
        );
        assert!(store.packed_buffer().unwrap().is_none(), "there is no pack");

        let tx = store.transaction();
        let prepared = tx
            .prepare(
                &mut store,
                vec![RefEdit {
                    change: Change::Delete {
                        previous: None,
                        log: RefLog::Only,
                    },
                    name: name("HEAD"),
                    deref: false,
                }],
                Fail::Immediately,
            )
            .unwrap();
        let edits = prepared.commit(&mut store, &committer()).unwrap();
        assert_eq!(edits.len(), 1);
        assert!(
            !refstore::reference::Reference::Loose(
                store.loose_find_existing(&b"HEAD".to_vec()).unwrap()
            )
            .log_exists(&store),
            "log was deleted"
        );
        assert!(store.packed_buffer().unwrap().is_none(), "there still is no pack");
    }
}

#[test]
fn packed_refs_are_consulted_when_determining_previous_value_of_ref_to_be_deleted_and_are_deleted_from_packed_ref_file(
) {
    let mut store = store_with_packed_refs();
    assert!(
        store.loose_find(&b"main".to_vec()).unwrap().is_none(),
        "no loose main available, it's packed"
    );
    assert!(
        store
            .packed_buffer()
            .unwrap()
            .expect("packed")
            .find(&b"main".to_vec())
            .is_some(),
        "packed main is available"
    );

    let old_id = hex_to_id("134385f6d781b7e97062102c6a483440bfda2a03");
    let tx = store.transaction();
    let prepared = tx
        .prepare(
            &mut store,
            vec![RefEdit {
                change: Change::Delete {
                    previous: Some(Target::Peeled(old_id)),
                    log: RefLog::AndReference,
                },
                name: name("refs/heads/main"),
                deref: false,
            }],
            Fail::Immediately,
        )
        .unwrap();
    let edits = prepared.commit(&mut store, &committer()).unwrap();

    assert_eq!(edits.len(), 1, "an edit was performed in the packed refs store");
    let packed = store.packed_buffer().unwrap().expect("packed ref present");
    assert!(packed.find(&b"main".to_vec()).is_none(), "no main present after deletion");
}

#[test]
fn a_loose_ref_with_old_value_check_and_outdated_packed_refs_value_deletes_both_refs() {
    let mut store = store_for_overlay();
    let packed = store.packed_buffer().unwrap().expect("packed-refs");
    let branch = store.find_existing(&b"newer-as-loose".to_vec(), Some(&packed)).unwrap();
    let branch_id = branch.target().as_id().map(|id| id.duplicate()).expect("peeled");
    assert_ne!(
        packed.find(&b"newer-as-loose".to_vec()).unwrap().target(),
        branch_id,
        "the packed ref is outdated"
    );

    let tx = store.transaction();
    let prepared = tx
        .prepare(
            &mut store,
            vec![RefEdit {
                change: Change::Delete {
                    previous: Some(Target::Peeled(branch_id)),
                    log: RefLog::AndReference,
                },
                name: branch.name().duplicate(),
                deref: false,
            }],
            Fail::Immediately,
        )
        .unwrap();
    let edits = prepared.commit(&mut store, &committer()).unwrap();

    assert_eq!(
        edits.len(),
        1,
        "only one edit even though technically two places were changed"
    );
    let packed = store.packed_buffer().unwrap();
    assert!(
        store.find(&b"newer-as-loose".to_vec(), packed.as_ref()).unwrap().is_none(),
        "reference is deleted everywhere"
    );
}

#[test]
fn all_contained_references_deletes_the_packed_ref_file_too() {
    let mut store = store_with_packed_refs();

    let edits: Vec<RefEdit> = store
        .packed_buffer()
        .unwrap()
        .expect("packed-refs")
        .iter()
        .iter()
        .map(|r| RefEdit {
            change: Change::Delete {
                previous: Some(Target::Peeled(r.target())),
                log: RefLog::AndReference,
            },
            name: r.name.duplicate(),
            deref: false,
        })
        .collect();
    let tx = store.transaction();
    let prepared = tx.prepare(&mut store, edits, Fail::Immediately).unwrap();
    let edits = prepared.commit(&mut store, &committer()).unwrap();

    let packed = store.packed_buffer().unwrap();
    assert!(packed.is_none(), "packed-refs was entirely removed");
    assert!(packed.is_none(), "it won't make up packed refs");
    for edit in edits {
        assert!(
            store.find(edit.name.as_bytes(), packed.as_ref()).unwrap().is_none(),
            "delete ref cannot be found"
        );
    }
}
