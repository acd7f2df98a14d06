use refstore::hash::ObjectId;
use refstore::mutable::Target;
use refstore::store::{Store, WriteReflog};

fn hex_to_id(s: &str) -> ObjectId {
    ObjectId::from_hex(&s.as_bytes().to_vec()).expect("valid hex")
}

fn store() -> Store {
    let mut s = Store::new(WriteReflog::Normal);
    let c1 = "134385f6d781b7e97062102c6a483440bfda2a03";
    let t1 = "4c3f4cce493d7beb45012e478021b5f65295e5a3";
    let d1 = "9902e3c3e8f0c569b4ab295ddf473e6de763e1e7";
    s.write_loose_file(b"HEAD".to_vec(), b"ref: refs/heads/main\n".to_vec());
    s.write_loose_file(b"refs/broken".to_vec(), b"broken".to_vec());
    s.write_loose_file(b"refs/d1".to_vec(), format!("{}\n", d1).into_bytes());
    s.write_loose_file(b"refs/heads/d1".to_vec(), format!("{}\n", d1).into_bytes());
    s.write_loose_file(b"refs/heads/dt1".to_vec(), format!("{}\n", t1).into_bytes());
    s.write_loose_file(b"refs/heads/main".to_vec(), format!("{}\n", c1).into_bytes());
    s.write_loose_file(
        b"refs/heads/multi-link-target1".to_vec(),
        b"ref: refs/tags/multi-link-target2\n".to_vec(),
    );
    s.write_loose_file(b"refs/loop-a".to_vec(), b"ref: refs/loop-b\n".to_vec());
    s.write_loose_file(b"refs/loop-b".to_vec(), b"ref: refs/loop-a\n".to_vec());
    s.write_loose_file(b"refs/multi-link".to_vec(), b"ref: refs/heads/multi-link-target1\n".to_vec());
    s.write_loose_file(b"refs/remotes/origin/HEAD".to_vec(), b"ref: refs/remotes/origin/main\n".to_vec());
    s.write_loose_file(b"refs/remotes/origin/main".to_vec(), format!("{}\n", c1).into_bytes());
    s.write_loose_file(
        b"refs/remotes/origin/multi-link-target3".to_vec(),
        format!("{}\n", c1).into_bytes(),
    );
    s.write_loose_file(b"refs/tags/dt1".to_vec(), format!("{}\n", t1).into_bytes());
    s.write_loose_file(
        b"refs/tags/multi-link-target2".to_vec(),
        b"ref: refs/remotes/origin/multi-link-target3\n".to_vec(),
    );
    s.write_loose_file(b"refs/tags/t1".to_vec(), format!("{}\n", c1).into_bytes());
    s
}

fn store_with_packed_refs() -> Store {
    let mut s = Store::new(WriteReflog::Normal);
    let c1 = "134385f6d781b7e97062102c6a483440bfda2a03";
    let t1 = "4c3f4cce493d7beb45012e478021b5f65295e5a3";
    let d1 = "9902e3c3e8f0c569b4ab295ddf473e6de763e1e7";
    let mut packed = String::from("# pack-refs with: peeled fully-peeled sorted\n");
    packed.push_str(&format!("{} refs/d1\n", d1));
    packed.push_str(&format!("{} refs/heads/d1\n", d1));
    packed.push_str(&format!("{} refs/heads/dt1\n", t1));
    packed.push_str(&format!("{} refs/heads/main\n", c1));
    packed.push_str(&format!("{} refs/heads/multi-link-target1\n", c1));
    packed.push_str(&format!("{} refs/remotes/origin/main\n", c1));
    packed.push_str(&format!("{} refs/tags/dt1\n^{}\n", t1, c1));
    packed.push_str(&format!("{} refs/tags/t1\n", c1));
    s.put_packed_file(packed.into_bytes());
    s.write_loose_file(b"HEAD".to_vec(), b"ref: refs/heads/main\n".to_vec());
    s
}

fn store_for_overlay() -> Store {
    let mut s = Store::new(WriteReflog::Normal);
    let c1 = "134385f6d781b7e97062102c6a483440bfda2a03";
    let c2 = "9902e3c3e8f0c569b4ab295ddf473e6de763e1e7";
    let tag = "b3109a7e51fc593f85b145a76c70ddd1d133fafd";
    let mut packed = String::from("# pack-refs with: peeled fully-peeled sorted\n");
    packed.push_str(&format!("{} refs/heads/main\n", c1));
    packed.push_str(&format!("{} refs/heads/newer-as-loose\n", c1));
    packed.push_str(&format!("{} refs/remotes/origin/main\n", c1));
    packed.push_str(&format!("{} refs/tags/tag-object\n", tag));
    s.put_packed_file(packed.into_bytes());
    s.write_loose_file(b"refs/heads/newer-as-loose".to_vec(), format!("{}\n", c2).into_bytes());
    s.write_loose_file(b"refs/remotes/origin/HEAD".to_vec(), b"ref: refs/remotes/origin/main\n".to_vec());
    s
}

fn store_namespaced() -> Store {
    let mut s = Store::new(WriteReflog::Normal);
    let c1 = "134385f6d781b7e97062102c6a483440bfda2a03";
    let mut packed = String::from("# pack-refs with: peeled fully-peeled sorted\n");
    packed.push_str(&format!("{} refs/namespaces/bar/refs/heads/multi-link-target1\n", c1));
    packed.push_str(&format!("{} refs/namespaces/bar/refs/multi-link\n", c1));
    packed.push_str(&format!("{} refs/namespaces/bar/refs/remotes/origin/multi-link-target3\n", c1));
    packed.push_str(&format!("{} refs/namespaces/bar/refs/tags/multi-link-target2\n", c1));
    s.put_packed_file(packed.into_bytes());
    s.write_loose_file(b"refs/heads/d1".to_vec(), format!("{}\n", c1).into_bytes());
    s.write_loose_file(b"refs/heads/dt1".to_vec(), format!("{}\n", c1).into_bytes());
    s.write_loose_file(b"refs/heads/main".to_vec(), format!("{}\n", c1).into_bytes());
    s.write_loose_file(b"refs/namespaces/foo/refs/d1".to_vec(), format!("{}\n", c1).into_bytes());
    s.write_loose_file(
        b"refs/namespaces/foo/refs/remotes/origin/HEAD".to_vec(),
        b"ref: refs/namespaces/foo/refs/remotes/origin/main\n".to_vec(),
    );
    s.write_loose_file(
        b"refs/namespaces/foo/refs/remotes/origin/main".to_vec(),
        format!("{}\n", c1).into_bytes(),
    );
    s.write_loose_file(b"refs/tags/dt1".to_vec(), format!("{}\n", c1).into_bytes());
    s.write_loose_file(b"refs/tags/t1".to_vec(), format!("{}\n", c1).into_bytes());
    s
}

#[test]
fn general_iteration_can_trivially_use_namespaces_as_prefixes() {
    let store = store_namespaced();
    let packed = store.packed_buffer().unwrap();

    let ns_two = refstore::name::expand(&b"bar".to_vec()).unwrap();
    assert_eq!(
        store
            .iter_prefixed(packed.as_ref(), ns_two.to_path())
            .unwrap()
            .into_iter()
            .map(|r| r.unwrap().name().as_bytes().clone())
            .collect::<Vec<_>>(),
        vec![
            b"refs/namespaces/bar/refs/heads/multi-link-target1".to_vec(),
            b"refs/namespaces/bar/refs/multi-link".to_vec(),
            b"refs/namespaces/bar/refs/remotes/origin/multi-link-target3".to_vec(),
            b"refs/namespaces/bar/refs/tags/multi-link-target2".to_vec(),
        ]
    );

    let ns_one = refstore::name::expand(&b"foo".to_vec()).unwrap();
    assert_eq!(
        store
            .iter_prefixed(packed.as_ref(), ns_one.to_path())
            .unwrap()
            .into_iter()
            .map(|r| {
                let r = r.unwrap();
                (
                    r.name().as_bytes().clone(),
                    r.name_without_namespace(&ns_one)
                        .expect("stripping correct namespace always works")
                        .as_bytes()
                        .clone(),
                )
            })
            .collect::<Vec<_>>(),
        vec![
            (b"refs/namespaces/foo/refs/d1".to_vec(), b"refs/d1".to_vec()),
            (
                b"refs/namespaces/foo/refs/remotes/origin/HEAD".to_vec(),
                b"refs/remotes/origin/HEAD".to_vec()
            ),
            (
                b"refs/namespaces/foo/refs/remotes/origin/main".to_vec(),
                b"refs/remotes/origin/main".to_vec()
            ),
        ]
    );

    assert_eq!(
        store
            .iter(packed.as_ref())
            .unwrap()
            .into_iter()
            .filter_map(|r| {
                let r = r.unwrap();
                if r.name().as_bytes().starts_with(b"refs/namespaces") {
                    None
                } else {
                    Some(r.name().as_bytes().clone())
                }
            })
            .collect::<Vec<_>>(),
        vec![
            b"refs/heads/d1".to_vec(),
            b"refs/heads/dt1".to_vec(),
            b"refs/heads/main".to_vec(),
            b"refs/tags/dt1".to_vec(),
            b"refs/tags/t1".to_vec(),
        ],
        "we can find refs without namespace by manual filter, really just for testing purposes"
    );
}

#[test]
fn no_packed_available_thus_no_iteration_possible() {
    let store_without_packed = store();
    assert!(
        store_without_packed.packed_buffer().unwrap().is_none(),
        "there is no packed refs in this store"
    );
}

#[test]
fn packed_file_iter() {
    let store = store_with_packed_refs();
    assert_eq!(store.packed_buffer().unwrap().expect("pack available").iter().len(), 8);
}

#[test]
fn loose_iter_with_broken_refs() {
    let store = store();

    let mut actual: Vec<_> = store.loose_iter();
    assert_eq!(actual.len(), 15);
    actual.sort_by_key(|r| r.is_err());
    let first_error = actual
        .iter()
        .enumerate()
        .find_map(|(idx, r)| if r.is_err() { Some(idx) } else { None })
        .expect("there is an error");

    assert_eq!(
        first_error, 14,
        "there is exactly one invalid item, and it didn't abort the iterator most importantly"
    );
    let msg = b"The reference at 'refs/broken' could not be instantiated".to_vec();
    assert_eq!(
        actual[first_error].as_ref().expect_err("unparseable ref").message(),
        msg
    );
    let ref_paths: Vec<_> = actual
        .drain(..first_error)
        .filter_map(|e| e.ok().map(|e| e.name.into_inner()))
        .collect();

    assert_eq!(
        ref_paths,
        vec![
            "d1",
            "heads/d1",
            "heads/dt1",
            "heads/main",
            "heads/multi-link-target1",
            "loop-a",
            "loop-b",
            "multi-link",
            "remotes/origin/HEAD",
            "remotes/origin/main",
            "remotes/origin/multi-link-target3",
            "tags/dt1",
            "tags/multi-link-target2",
            "tags/t1"
        ]
        .into_iter()
        .map(|p| format!("refs/{}", p).into_bytes())
        .collect::<Vec<_>>(),
        "all paths are as expected"
    );
}

#[test]
fn loose_iter_with_prefix_wont_allow_absolute_paths() {
    let store = store();
    let abs_path = b"/hello".to_vec();

    match store.loose_iter_prefixed(&abs_path) {
        Ok(_) => unreachable!("absolute paths aren't allowed"),
        Err(err) => assert_eq!(
            err.message(),
            b"prefix must be a relative path, like 'refs/heads'".to_vec()
        ),
    }
}

#[test]
fn loose_iter_with_prefix() {
    let store = store();

    let actual = store
        .loose_iter_prefixed(&b"refs/heads/".to_vec())
        .unwrap()
        .into_iter()
        .collect::<Result<Vec<_>, _>>()
        .expect("no broken ref in this subset")
        .into_iter()
        .map(|e| e.name.into_inner())
        .collect::<Vec<_>>();

    assert_eq!(
        actual,
        vec![
            "refs/heads/d1",
            "refs/heads/dt1",
            "refs/heads/main",
            "refs/heads/multi-link-target1",
        ]
        .into_iter()
        .map(|s| s.as_bytes().to_vec())
        .collect::<Vec<_>>(),
        "all paths are as expected"
    );
}

#[test]
fn overlay_iter() {
    let store = store_for_overlay();
    let packed = store.packed_buffer().unwrap();
    let ref_names = store
        .iter(packed.as_ref())
        .unwrap()
        .into_iter()
        .map(|r| {
            let r = r.unwrap();
            (r.name().as_bytes().clone(), r.target(), r.is_packed())
        })
        .collect::<Vec<_>>();
    let c1 = hex_to_id("134385f6d781b7e97062102c6a483440bfda2a03");
    let c2 = hex_to_id("9902e3c3e8f0c569b4ab295ddf473e6de763e1e7");
    assert_eq!(
        ref_names,
        vec![
            (b"refs/heads/main".to_vec(), Target::Peeled(c1.duplicate()), true),
            (b"refs/heads/newer-as-loose".to_vec(), Target::Peeled(c2), false),
            (
                b"refs/remotes/origin/HEAD".to_vec(),
                Target::Symbolic(
                    refstore::name::FullName::try_from(b"refs/remotes/origin/main".to_vec())
                        .unwrap()
                ),
                false
            ),
            (b"refs/remotes/origin/main".to_vec(), Target::Peeled(c1), true),
            (
                b"refs/tags/tag-object".to_vec(),
                Target::Peeled(hex_to_id("b3109a7e51fc593f85b145a76c70ddd1d133fafd")),
                true
            )
        ]
    );
}

#[test]
fn overlay_iter_with_prefix_wont_allow_absolute_paths() {
    let store = store_with_packed_refs();
    let abs_path = b"/hello".to_vec();

    match store.iter_prefixed(store.packed_buffer().unwrap().as_ref(), &abs_path) {
        Ok(_) => unreachable!("absolute paths aren't allowed"),
        Err(err) => assert_eq!(
            err.message(),
            b"prefix must be a relative path, like 'refs/heads'".to_vec()
        ),
    }
}

#[test]
fn overlay_prefixed_iter() {
    let store = store_for_overlay();
    let packed = store.packed_buffer().unwrap();
    let ref_names = store
        .iter_prefixed(packed.as_ref(), &b"refs/heads".to_vec())
        .unwrap()
        .into_iter()
        .map(|r| {
            let r = r.unwrap();
            (r.name().as_bytes().clone(), r.target(), r.is_packed())
        })
        .collect::<Vec<_>>();
    let c1 = hex_to_id("134385f6d781b7e97062102c6a483440bfda2a03");
    let c2 = hex_to_id("9902e3c3e8f0c569b4ab295ddf473e6de763e1e7");
    assert_eq!(
        ref_names,
        vec![
            (b"refs/heads/main".to_vec(), Target::Peeled(c1), true),
            (b"refs/heads/newer-as-loose".to_vec(), Target::Peeled(c2), false),
        ]
    );
}
