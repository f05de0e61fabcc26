use aequorea::add::add;
use aequorea::entry::{Entry, FsChild, FsEntry};
use aequorea::error::Error;
use aequorea::ignore::Ignore;
use aequorea::index::Index;
use aequorea::io::{compress_by_zlib, decompress_by_zlib, extract_last_line, generate_hash, split_lines};
use aequorea::object::{Object, ObjectType};
use aequorea::path::{contain_child, RepoPath};
use aequorea::repo::Repo;

fn p(parts: &[&str]) -> RepoPath {
    RepoPath::new(parts.iter().map(|s| s.as_bytes().to_vec()).collect())
}

fn file(data: &[u8]) -> FsEntry {
    FsEntry::File { data: data.to_vec() }
}

fn dir(children: Vec<(&str, FsEntry)>) -> FsEntry {
    FsEntry::Dir {
        entries: children
            .into_iter()
            .map(|(n, e)| FsChild { name: n.as_bytes().to_vec(), entry: e })
            .collect(),
    }
}

fn no_ignore() -> Ignore {
    Ignore::new(Vec::new())
}

#[test]
fn test_split_lines() {
    let bytes = vec![
        // 123 456 お腹空いた\n
        49, 50, 51, 32, 52, 53, 54, 32, 227, 129, 138, 232, 133, 185, 231, 169, 186, 227, 129,
        132, 227, 129, 159, 10, // 234 567 :divide: 10/0
        50, 51, 52, 32, 53, 54, 55, 32, 58, 100, 105, 118, 105, 100, 101, 58, 32, 49, 48, 47,
        48,
    ];
    let lines = split_lines(bytes).unwrap();
    let s1 = String::from("123 456 お腹空いた");
    let s2 = String::from("234 567 :divide: 10/0");
    assert_eq!(vec![s1, s2], lines);
}

#[test]
fn test_extract_last_line() {
    let bytes = vec![
        // 123 456 お腹空いた\n
        49, 50, 51, 32, 52, 53, 54, 32, 227, 129, 138, 232, 133, 185, 231, 169, 186, 227, 129,
        132, 227, 129, 159, 10, // 234 567 :divide: 10/0
        50, 51, 52, 32, 53, 54, 55, 32, 58, 100, 105, 118, 105, 100, 101, 58, 32, 49, 48, 47,
        48,
    ];
    let line = extract_last_line(bytes).unwrap();
    let s = String::from("234 567 :divide: 10/0");
    assert_eq!(s, line);
}

#[test]
fn test_extract_last_line2() {
    let bytes = vec![];
    let line = extract_last_line(bytes).unwrap();
    assert!(line.is_empty());
}

fn setup() -> Object {
    let blob1 = Object::Blob { data: vec![1, 1, 1, 1], path: p(&["first", "one"]) };
    let blob2 = Object::Blob { data: vec![2, 2, 2, 2], path: p(&["first", "two"]) };
    let blob3 = Object::Blob { data: vec![3, 3, 3, 3], path: p(&["second", "three"]) };
    let blob4 = Object::Blob { data: vec![4, 4, 4, 4], path: p(&["secondfour"]) };
    let blob5 = Object::Blob { data: vec![5, 5, 5, 5], path: p(&["five"]) };

    let children1 = vec![blob1, blob2];
    let children2 = vec![blob4, blob3];

    let tree1 = Object::Tree { path: p(&["first"]), children: children1 };
    let tree2 = Object::Tree { path: p(&["second"]), children: children2 };

    let blob5_and_trees = vec![tree1, blob5, tree2];

    Object::Tree { path: RepoPath::root(), children: blob5_and_trees }
}

#[test]
fn test_replace() {
    let mut root = setup();
    let new_blob3 = Object::Blob { data: vec![4, 5, 6, 7], path: p(&["second", "three"]) };
    root.replace(new_blob3.path(), new_blob3).unwrap();
}

#[test]
fn replace_outside_fails_and_changes_nothing() {
    let mut t = Object::Tree { path: p(&["a"]), children: vec![] };
    let before = t.data();
    let blob = Object::Blob { data: vec![1], path: p(&["b"]) };
    let r = t.replace(p(&["b"]), blob);
    assert_eq!(r, Err(Error::PathMismatch));
    assert_eq!(t.data(), before);
}

#[test]
fn replace_keeps_siblings() {
    let mut root = setup();
    let keep1 = {
        // the sibling subtree under "first", before the replace
        let probe = setup();
        match probe {
            Object::Tree { children, .. } => children.into_iter().next().unwrap().data(),
            _ => unreachable!(),
        }
    };
    let new_blob3 = Object::Blob { data: vec![9, 9], path: p(&["second", "three"]) };
    root.replace(new_blob3.path(), new_blob3).unwrap();
    match root {
        Object::Tree { children, .. } => {
            let first = children.into_iter().next().unwrap();
            assert_eq!(first.data(), keep1);
        },
        _ => unreachable!(),
    }
}

#[test]
fn hash_of_empty_input_is_sha1_of_nothing() {
    let h = generate_hash(b"");
    assert_eq!(h, b"da39a3ee5e6b4b0d3255bfef95601890afd80709".to_vec());
}

#[test]
fn compression_round_trips() {
    let data = b"some bytes that the codec must give back".to_vec();
    let packed = compress_by_zlib(&data);
    assert_eq!(decompress_by_zlib(&packed), Some(data));
}

#[test]
fn decompression_of_garbage_fails() {
    assert_eq!(decompress_by_zlib(b"not a zlib stream"), None);
}

#[test]
fn split_lines_rejects_invalid_utf8() {
    let r = split_lines(vec![0xff, 0xfe]);
    assert_eq!(r, Err(Error::FormatError));
}

#[test]
fn object_type_tokens() {
    assert!(matches!(ObjectType::from_str("tree"), Ok(ObjectType::Tree)));
    assert!(matches!(ObjectType::from_str("blob"), Ok(ObjectType::Blob)));
    assert_eq!(ObjectType::from_str("commit").unwrap_err(), Error::FormatError);
}

#[test]
fn modelize_entry_cases() {
    assert!(matches!(Entry::modelize_entry(true, false), Some(Entry::Dir)));
    assert!(matches!(Entry::modelize_entry(true, true), Some(Entry::Dir)));
    assert!(matches!(Entry::modelize_entry(false, true), Some(Entry::File)));
    assert!(Entry::modelize_entry(false, false).is_none());
}

#[test]
fn contain_child_is_strict() {
    assert!(contain_child(&RepoPath::root(), &p(&["a"])));
    assert!(contain_child(&p(&["a"]), &p(&["a", "b"])));
    assert!(!contain_child(&p(&["a"]), &p(&["a"])));
    assert!(!contain_child(&p(&["a", "b"]), &p(&["a"])));
    assert!(!contain_child(&p(&["a"]), &p(&["b"])));
}

#[test]
fn ignore_matches_trailing_components() {
    let ig = Ignore::new(vec![b"b.txt".to_vec(), b"sub/deep.txt".to_vec()]);
    assert!(ig.for_path(&p(&["src", "b.txt"])));
    assert!(ig.for_path(&p(&["b.txt"])));
    assert!(ig.for_path(&p(&["src", "sub", "deep.txt"])));
    assert!(!ig.for_path(&p(&["src", "a.txt"])));
    assert!(!ig.for_path(&p(&["deep.txt"])));
    // the store's own directory is always ignored
    assert!(ig.for_path(&p(&[".aequorea"])));
}

#[test]
fn build_skips_ignored_children() {
    let ig = Ignore::new(vec![b"b.txt".to_vec()]);
    let e = dir(vec![("b.txt", file(b"skip me")), ("a.txt", file(b"keep me"))]);
    let o = Object::from_path(RepoPath::root(), &e, &ig);
    match o {
        Object::Tree { children, .. } => {
            assert_eq!(children.len(), 1);
            assert_eq!(children[0].name_bytes(), &b"a.txt".to_vec());
        },
        _ => unreachable!(),
    }
}

#[test]
fn canonical_content_is_order_independent() {
    let ig = no_ignore();
    let e1 = dir(vec![("a.txt", file(b"hello")), ("b.txt", file(b"world"))]);
    let e2 = dir(vec![("b.txt", file(b"world")), ("a.txt", file(b"hello"))]);
    let o1 = Object::from_path(RepoPath::root(), &e1, &ig);
    let o2 = Object::from_path(RepoPath::root(), &e2, &ig);
    assert_eq!(o1.data(), o2.data());
    assert_eq!(o1.hash(), o2.hash());
}

#[test]
fn put_twice_stores_identical_bytes() {
    let ig = no_ignore();
    let e = dir(vec![("a.txt", file(b"hello")), ("sub", dir(vec![("b.txt", file(b"world"))]))]);
    let o = Object::from_path(RepoPath::root(), &e, &ig);
    let mut repo = Repo::new();
    o.write(&mut repo);
    let first = repo.entries().clone();
    o.write(&mut repo);
    assert_eq!(repo.entries(), &first);
}

#[test]
fn round_trip_reproduces_canonical_content() {
    let ig = no_ignore();
    let e = dir(vec![
        ("a.txt", file(b"hello")),
        ("sub", dir(vec![("b.txt", file(b"world")), ("c.txt", file(b""))])),
    ]);
    let o = Object::from_path(RepoPath::root(), &e, &ig);
    let mut repo = Repo::new();
    o.write(&mut repo);
    let h = o.hash();
    let back = Object::from_compressed_obj(RepoPath::root(), &h, ObjectType::Tree, &repo).unwrap();
    assert_eq!(back.data(), o.data());
    assert_eq!(back.hash(), h);
}

#[test]
fn round_trip_blob() {
    let o = Object::Blob { path: p(&["a.txt"]), data: b"payload".to_vec() };
    let mut repo = Repo::new();
    o.write(&mut repo);
    let h = o.hash();
    let back = Object::from_compressed_obj(p(&["a.txt"]), &h, ObjectType::Blob, &repo).unwrap();
    assert_eq!(back.data(), b"payload".to_vec());
    assert_eq!(back.hash(), h);
}

#[test]
fn rehydrate_missing_hash_is_not_found() {
    let repo = Repo::new();
    let r = Object::from_compressed_obj(RepoPath::root(), &b"feed".to_vec(), ObjectType::Blob, &repo);
    assert_eq!(r.unwrap_err(), Error::NotFound);
}

#[test]
fn rehydrate_corrupt_bytes_is_codec_error() {
    let mut repo = Repo::new();
    repo.insert_object(b"k".to_vec(), b"garbage".to_vec());
    let r = Object::from_compressed_obj(RepoPath::root(), &b"k".to_vec(), ObjectType::Blob, &repo);
    assert_eq!(r.unwrap_err(), Error::CodecError);
}

#[test]
fn rehydrate_malformed_listing_is_format_error() {
    let mut repo = Repo::new();
    repo.insert_object(b"k".to_vec(), compress_by_zlib(b"no-spaces-here"));
    let r = Object::from_compressed_obj(RepoPath::root(), &b"k".to_vec(), ObjectType::Tree, &repo);
    assert_eq!(r.unwrap_err(), Error::FormatError);
}

#[test]
fn rehydrate_missing_child_is_not_found() {
    // A present, decompressable tree listing that names an absent child hash:
    // the failure surfaces as NotFound for the child.
    let mut repo = Repo::new();
    let mut listing = b"blob ".to_vec();
    listing.extend_from_slice(&[b'a'; 40]);
    listing.extend_from_slice(b" child");
    repo.insert_object(b"k".to_vec(), compress_by_zlib(&listing));
    let r = Object::from_compressed_obj(RepoPath::root(), &b"k".to_vec(), ObjectType::Tree, &repo);
    assert_eq!(r.unwrap_err(), Error::NotFound);
}

#[test]
fn index_of_empty_file_is_unset() {
    assert!(Index::new(&Vec::new()).is_none());
    let ix = Index::new(&b"abc123".to_vec()).unwrap();
    assert_eq!(ix.hash(), b"abc123".to_vec());
}

#[test]
fn store_layout_paths() {
    let ip = Index::index_path();
    assert_eq!(ip.len(), 2);
    assert_eq!(ip.component(0), &b".aequorea".to_vec());
    assert_eq!(ip.component(1), &b"index".to_vec());
    let op = Object::obj_recorded_path(b"cafe".to_vec());
    assert_eq!(op.len(), 3);
    assert_eq!(op.component(1), &b"objects".to_vec());
    assert_eq!(op.component(2), &b"cafe".to_vec());
}

#[test]
fn to_show_renders_text() {
    let o = Object::Blob { path: p(&["a"]), data: b"hello".to_vec() };
    assert_eq!(o.to_show(), Some(String::from("hello")));
    let bad = Object::Blob { path: p(&["a"]), data: vec![0xff, 0xfe] };
    assert!(bad.to_show().is_none());
}

#[test]
fn first_add_records_sorted_listing_and_index() {
    // Scenario: a directory of a.txt = "hello", b.txt = "world", added on a
    // fresh repository.
    let ig = no_ignore();
    let e = dir(vec![("b.txt", file(b"world")), ("a.txt", file(b"hello"))]);
    let mut repo = Repo::new();
    let h = add(&RepoPath::root(), &e, &ig, &mut repo).unwrap();

    let blob_a = Object::Blob { path: p(&["a.txt"]), data: b"hello".to_vec() };
    let blob_b = Object::Blob { path: p(&["b.txt"]), data: b"world".to_vec() };
    let mut expected = b"blob ".to_vec();
    expected.extend_from_slice(&blob_a.hash());
    expected.extend_from_slice(b" a.txt\nblob ");
    expected.extend_from_slice(&blob_b.hash());
    expected.extend_from_slice(b" b.txt");

    let root = Object::from_compressed_obj(RepoPath::root(), &h, ObjectType::Tree, &repo).unwrap();
    assert_eq!(root.data(), expected);
    assert_eq!(repo.index_hash(), Some(h));
}

#[test]
fn second_add_extends_existing_root() {
    // Scenario: the root holds only a.txt; a later add of b.txt keeps a.txt,
    // with unchanged hash and stored bytes, and advances the index.
    let ig = no_ignore();
    let mut repo = Repo::new();
    let first = dir(vec![("a.txt", file(b"hello"))]);
    let h1 = add(&RepoPath::root(), &first, &ig, &mut repo).unwrap();
    let stored_a = {
        let blob_a = Object::Blob { path: p(&["a.txt"]), data: b"hello".to_vec() };
        repo.get(&blob_a.hash()).unwrap()
    };

    let h2 = add(&p(&["b.txt"]), &file(b"world"), &ig, &mut repo).unwrap();
    assert_ne!(h1, h2);
    assert_eq!(repo.index_hash(), Some(h2.clone()));

    let root = Object::from_compressed_obj(RepoPath::root(), &h2, ObjectType::Tree, &repo).unwrap();
    match root {
        Object::Tree { children, .. } => {
            assert_eq!(children.len(), 2);
            assert_eq!(children[0].name_bytes(), &b"a.txt".to_vec());
            assert_eq!(children[1].name_bytes(), &b"b.txt".to_vec());
            let blob_a = Object::Blob { path: p(&["a.txt"]), data: b"hello".to_vec() };
            assert_eq!(children[0].hash(), blob_a.hash());
            assert_eq!(repo.get(&blob_a.hash()).unwrap(), stored_a);
        },
        _ => unreachable!(),
    }
}

#[test]
fn nested_add_builds_ancestor_chain() {
    // Scenario: src/sub/file.txt added to an empty repository yields
    // root -> src -> sub -> file.txt, each tree with exactly one child.
    let ig = no_ignore();
    let mut repo = Repo::new();
    let h = add(&p(&["src", "sub", "file.txt"]), &file(b"deep"), &ig, &mut repo).unwrap();
    let root = Object::from_compressed_obj(RepoPath::root(), &h, ObjectType::Tree, &repo).unwrap();
    assert_eq!(root.all_contained_hash().len(), 4);
    let mut node = root;
    for expected_name in [b"src".to_vec(), b"sub".to_vec()] {
        node = match node {
            Object::Tree { mut children, .. } => {
                assert_eq!(children.len(), 1);
                assert_eq!(children[0].name_bytes(), &expected_name);
                children.pop().unwrap()
            },
            _ => unreachable!(),
        };
    }
    match node {
        Object::Tree { children, .. } => {
            assert_eq!(children.len(), 1);
            assert_eq!(children[0].name_bytes(), &b"file.txt".to_vec());
            assert_eq!(children[0].data(), b"deep".to_vec());
        },
        _ => unreachable!(),
    }
}

#[test]
fn insert_child_keeps_order_and_rejects_blob() {
    let mut t = Object::Tree { path: RepoPath::root(), children: vec![] };
    let b2 = Object::Blob { path: p(&["b"]), data: vec![2] };
    let a1 = Object::Blob { path: p(&["a"]), data: vec![1] };
    assert!(t.insert_child(b2).is_some());
    assert!(t.insert_child(a1).is_some());
    match &t {
        Object::Tree { children, .. } => {
            assert_eq!(children[0].name_bytes(), &b"a".to_vec());
            assert_eq!(children[1].name_bytes(), &b"b".to_vec());
        },
        _ => unreachable!(),
    }
    let mut lone = Object::Blob { path: p(&["x"]), data: vec![] };
    assert!(lone.insert_child(Object::Blob { path: p(&["x", "y"]), data: vec![] }).is_none());
}

#[test]
fn path_parent_and_equality() {
    let deep = p(&["a", "b"]);
    let up = deep.parent();
    assert!(up.same_as(&p(&["a"])));
    assert!(!up.same_as(&deep));
    assert_eq!(RepoPath::root().parent().len(), 0);
    assert_eq!(deep.file_name(), &b"b".to_vec());
}

#[test]
fn all_contained_hash_lists_parent_first() {
    let ig = no_ignore();
    let e = dir(vec![("a", file(b"1")), ("d", dir(vec![("b", file(b"2"))]))]);
    let o = Object::from_path(RepoPath::root(), &e, &ig);
    let hashes = o.all_contained_hash();
    assert_eq!(hashes.len(), 4);
    assert_eq!(hashes[0], o.hash());
}
