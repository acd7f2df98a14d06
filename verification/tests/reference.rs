use refstore::hash::ObjectId;
use refstore::log::{Line, Signature};
use refstore::loose;
use refstore::mutable::{Kind, Target};
use refstore::name::FullName;
use refstore::reference::{PeelError, Reference};
use refstore::store::{Store, WriteReflog};

fn name(s: &str) -> FullName {
    FullName::try_from(s.as_bytes().to_vec()).expect("valid name")
}

fn hex_to_id(s: &str) -> ObjectId {
    ObjectId::from_hex(&s.as_bytes().to_vec()).expect("valid hex")
}

fn committer() -> Signature {
    Signature { name: b"committer".to_vec(), email: b"committer@example.com".to_vec(), seconds: 0 }
}

fn log_line() -> Line {
    Line {
        previous_oid: ObjectId::null(),
        new_oid: hex_to_id("134385f6d781b7e97062102c6a483440bfda2a03"),
        signature: committer(),
        message: b"commit (initial): c1".to_vec(),
    }
}

/// The all-loose store, with one broken reference and a reflog for `HEAD`.
fn store() -> Store {
    let mut s = Store::new(WriteReflog::Normal);
    let c1 = "134385f6d781b7e97062102c6a483440bfda2a03";
    let t1 = "4c3f4cce493d7beb45012e478021b5f65295e5a3";
    let d1 = "9902e3c3e8f0c569b4ab295ddf473e6de763e1e7";
    s.write_loose_file(b"HEAD".to_vec(), b"ref: refs/heads/main\n".to_vec());
    s.write_loose_file(b"refs/broken".to_vec(), b"broken".to_vec());
    s.write_loose_file(b"refs/d1".to_vec(), format!("{}\n", d1).into_bytes());
    s.write_loose_file(b"refs/heads/d1".to_vec(), format!("{}\n", d1).into_bytes());
    s.write_loose_file(b"refs/heads/dt1".to_vec(), format!("{}\n", t1).into_bytes());
    s.write_loose_file(b"refs/heads/main".to_vec(), format!("{}\n", c1).into_bytes());
    s.write_loose_file(
        b"refs/heads/multi-link-target1".to_vec(),
        b"ref: refs/tags/multi-link-target2\n".to_vec(),
    );
    s.write_loose_file(b"refs/loop-a".to_vec(), b"ref: refs/loop-b\n".to_vec());
    s.write_loose_file(b"refs/loop-b".to_vec(), b"ref: refs/loop-a\n".to_vec());
    s.write_loose_file(b"refs/multi-link".to_vec(), b"ref: refs/heads/multi-link-target1\n".to_vec());
    s.write_loose_file(b"refs/remotes/origin/HEAD".to_vec(), b"ref: refs/remotes/origin/main\n".to_vec());
    s.write_loose_file(b"refs/remotes/origin/main".to_vec(), format!("{}\n", c1).into_bytes());
    s.write_loose_file(
        b"refs/remotes/origin/multi-link-target3".to_vec(),
        format!("{}\n", c1).into_bytes(),
    );
    s.write_loose_file(b"refs/tags/dt1".to_vec(), format!("{}\n", t1).into_bytes());
    s.write_loose_file(
        b"refs/tags/multi-link-target2".to_vec(),
        b"ref: refs/remotes/origin/multi-link-target3\n".to_vec(),
    );
    s.write_loose_file(b"refs/tags/t1".to_vec(), format!("{}\n", c1).into_bytes());
    s.reflog_append(&b"HEAD".to_vec(), log_line());
    s
}

/// A store whose references live in the packed file, plus a loose `HEAD`.
fn store_with_packed_refs() -> Store {
    let mut s = Store::new(WriteReflog::Normal);
    let c1 = "134385f6d781b7e97062102c6a483440bfda2a03";
    let t1 = "4c3f4cce493d7beb45012e478021b5f65295e5a3";
    let d1 = "9902e3c3e8f0c569b4ab295ddf473e6de763e1e7";
    let mut packed = String::from("# pack-refs with: peeled fully-peeled sorted\n");
    packed.push_str(&format!("{} refs/d1\n", d1));
    packed.push_str(&format!("{} refs/heads/d1\n", d1));
    packed.push_str(&format!("{} refs/heads/dt1\n", t1));
    packed.push_str(&format!("{} refs/heads/main\n", c1));
    packed.push_str(&format!("{} refs/heads/multi-link-target1\n", c1));
    packed.push_str(&format!("{} refs/remotes/origin/main\n", c1));
    packed.push_str(&format!("{} refs/tags/dt1\n^{}\n", t1, c1));
    packed.push_str(&format!("{} refs/tags/t1\n", c1));
    s.put_packed_file(packed.into_bytes());
    s.write_loose_file(b"HEAD".to_vec(), b"ref: refs/heads/main\n".to_vec());
    s.reflog_append(&b"HEAD".to_vec(), log_line());
    s.reflog_append(&b"refs/heads/main".to_vec(), log_line());
    s
}

#[test]
fn iter() {
    let store = store_with_packed_refs();
    let packed = store.packed_buffer().unwrap();
    let r = store.find_existing(&b"main".to_vec(), packed.as_ref()).unwrap();
    assert_eq!(r.log_iter(&store).expect("log exists").len(), 1);
    assert!(r.log_exists(&store), "it exists if its readable");
}

#[test]
fn iter_rev() {
    let store = store_with_packed_refs();
    let packed = store.packed_buffer().unwrap();
    let r = store.find_existing(&b"main".to_vec(), packed.as_ref()).unwrap();
    assert_eq!(r.log_iter_rev(&store).expect("log exists").len(), 1);
}

#[test]
fn reference_iter() {
    let store = store();
    let r = store.loose_find_existing(&b"HEAD".to_vec()).unwrap();
    let r = Reference::Loose(r);
    assert_eq!(r.log_iter(&store).expect("log exists").len(), 1);
    assert!(r.log_exists(&store), "it exists if its readable");
}

#[test]
fn reference_iter_rev() {
    let store = store();
    let r = store.loose_find_existing(&b"HEAD".to_vec()).unwrap();
    let r = Reference::Loose(r);
    assert_eq!(r.log_iter_rev(&store).expect("log exists").len(), 1);
}

#[test]
fn one_level() {
    let store = store();
    let r = store.loose_find_existing(&b"HEAD".to_vec()).unwrap();
    assert_eq!(r.kind(), Kind::Symbolic, "there is something to peel");

    let followed = r.follow_symbolic(&store, None).expect("exists").expect("no failure");
    let nr = match followed {
        Reference::Loose(l) => l,
        Reference::Packed(_) => panic!("loose ref"),
    };
    assert!(
        matches!(nr.target, Target::Peeled(_)),
        "iteration peels a single level"
    );
    assert!(nr.follow_symbolic(&store, None).is_none(), "end of iteration");
    assert_eq!(
        nr.target,
        Target::Peeled(hex_to_id("134385f6d781b7e97062102c6a483440bfda2a03")),
        "we still have the peeled target"
    );
}

#[test]
fn peel_with_packed_involvement() {
    let store = store_with_packed_refs();
    let head = store.loose_find_existing(&b"HEAD".to_vec()).unwrap();
    let mut head = Reference::Loose(head);
    let packed = store.packed_buffer().unwrap();
    let expected = hex_to_id("134385f6d781b7e97062102c6a483440bfda2a03");
    assert_eq!(head.peel_to_id_in_place(&store, packed.as_ref(), None).unwrap(), expected);
    assert_eq!(head.target().as_id().map(|id| id.duplicate()), Some(expected.duplicate()));

    let mut head = store.find_existing(&b"dt1".to_vec(), packed.as_ref()).unwrap();
    assert_eq!(head.peel_to_id_in_place(&store, packed.as_ref(), None).unwrap(), expected);
    assert_eq!(head.target().as_id().map(|id| id.duplicate()), Some(expected));
}

#[test]
fn peel_one_level_with_pack() {
    let store = store_with_packed_refs();
    let packed = store.packed_buffer().unwrap();

    let head = store.find_existing(&b"dt1".to_vec(), packed.as_ref()).unwrap();
    assert!(head.is_packed());
    assert_eq!(
        head.target().as_id().map(|id| id.duplicate()),
        Some(hex_to_id("4c3f4cce493d7beb45012e478021b5f65295e5a3"))
    );
    assert_eq!(
        head.kind(),
        Kind::Peeled,
        "its peeled, but does have another step to peel to"
    );

    let peeled = head
        .peel_one_level(&store, packed.as_ref())
        .expect("a peeled ref for the object")
        .unwrap();
    assert_eq!(
        peeled.target().as_id().map(|id| id.duplicate()),
        Some(hex_to_id("134385f6d781b7e97062102c6a483440bfda2a03")),
        "packed refs are always peeled (at least the ones we choose to read)"
    );
    assert_eq!(peeled.kind(), Kind::Peeled, "it's terminally peeled now");
    assert!(peeled.peel_one_level(&store, packed.as_ref()).is_none());
}

#[test]
fn to_id_multi_hop() {
    let store = store();
    let r = store.loose_find_existing(&b"multi-link".to_vec()).unwrap();
    let mut r = Reference::Loose(r);
    assert_eq!(r.kind(), Kind::Symbolic, "there is something to peel");

    let commit = hex_to_id("134385f6d781b7e97062102c6a483440bfda2a03");
    assert_eq!(r.peel_to_id_in_place(&store, None, None).unwrap(), commit);
    assert_eq!(r.name().as_bytes(), b"refs/remotes/origin/multi-link-target3");

    let r2 = store.loose_find_existing(&b"dt1".to_vec()).unwrap();
    let mut r2 = Reference::Loose(r2);
    assert_eq!(
        r2.peel_to_id_in_place(&store, None, None).unwrap(),
        hex_to_id("4c3f4cce493d7beb45012e478021b5f65295e5a3"),
        "points to a tag object without actual object lookup"
    );

    let tag_data = b"object 134385f6d781b7e97062102c6a483440bfda2a03\ntype commit\ntag dt1\n".to_vec();
    let odb = refstore::odb::Store::at(
        refstore::odb::Db {
            objects: vec![refstore::odb::StoredObject {
                id: hex_to_id("4c3f4cce493d7beb45012e478021b5f65295e5a3"),
                kind: refstore::objects::Kind::Tag,
                data: tag_data,
            }],
        },
        Vec::new(),
    )
    .unwrap();
    let r3 = store.loose_find_existing(&b"dt1".to_vec()).unwrap();
    let mut r3 = Reference::Loose(r3);
    assert_eq!(
        r3.peel_to_id_in_place(&store, None, Some(&odb)).unwrap(),
        commit,
        "points to the commit with lookup"
    );
}

#[test]
fn to_id_cycle() {
    let store = store();
    let r = store.loose_find_existing(&b"loop-a".to_vec()).unwrap();
    let mut r = Reference::Loose(r);
    assert_eq!(r.kind(), Kind::Symbolic, "there is something to peel");
    assert_eq!(r.name().as_bytes(), b"refs/loop-a");

    assert!(matches!(
        r.peel_to_id_in_place(&store, None, None).unwrap_err(),
        PeelError::Cycle { .. }
    ));
    assert_eq!(r.name().as_bytes(), b"refs/loop-a", "the ref is not changed on error");
}

#[test]
fn hex_id() {
    let err = loose::Reference::try_from_path(name("HEAD"), &b"foobar".to_vec()).unwrap_err();
    assert_eq!(err.message(), b"\"foobar\" could not be parsed".to_vec());
}

#[test]
fn ref_tag() {
    let err = loose::Reference::try_from_path(name("HEAD"), &b"reff: hello".to_vec()).unwrap_err();
    assert_eq!(err.message(), b"\"reff: hello\" could not be parsed".to_vec());
}

#[test]
fn peeled() {
    let reference = loose::Reference::try_from_path(
        name("HEAD"),
        &b"c5241b835b93af497cda80ce0dceb8f49800df1c\n".to_vec(),
    )
    .unwrap();
    assert_eq!(reference.kind(), Kind::Peeled);
    assert_eq!(
        reference.target.as_id().map(|id| id.duplicate()),
        Some(hex_to_id("c5241b835b93af497cda80ce0dceb8f49800df1c"))
    );
    assert!(reference.target.as_name().is_none());
}

#[test]
fn symbolic() {
    let reference =
        loose::Reference::try_from_path(name("HEAD"), &b"ref: refs/heads/main\n".to_vec()).unwrap();
    assert_eq!(reference.kind(), Kind::Symbolic);
    assert!(reference.target.as_id().is_none());
    assert_eq!(
        reference.target.as_name().map(|n| n.as_bytes().clone()),
        Some(b"refs/heads/main".to_vec())
    );
}

#[test]
fn symbolic_more_than_one_space() {
    let reference =
        loose::Reference::try_from_path(name("HEAD"), &b"ref:        refs/foobar\n".to_vec())
            .unwrap();
    assert_eq!(reference.kind(), Kind::Symbolic);
    assert!(reference.target.as_id().is_none());
    assert_eq!(
        reference.target.as_name().map(|n| n.as_bytes().clone()),
        Some(b"refs/foobar".to_vec())
    );
}
