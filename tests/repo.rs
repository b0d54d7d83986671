use mid::{
    hash_blob, Branch, ComHash, Commit, DirHash, FileHash, HeadState, Object, ObjectKind, Repo,
    RepoError, StagePath, WorkNode,
};

fn path(p: &str) -> Vec<Vec<u8>> {
    p.split('/').map(|c| c.as_bytes().to_vec()).collect()
}

fn file(p: &str, bytes: &[u8]) -> StagePath {
    StagePath { components: path(p), node: WorkNode::File(hash_blob(bytes), p.to_string()) }
}

fn gone(p: &str) -> StagePath {
    StagePath { components: path(p), node: WorkNode::Missing }
}

fn dir(p: &str) -> StagePath {
    StagePath { components: path(p), node: WorkNode::Dir }
}

fn tree_of(repo: &Repo, h: DirHash) -> Vec<(Vec<u8>, Object)> {
    repo.get_dir(h).expect("tree is cached").objs.iter().map(|e| (e.0.clone(), e.1)).collect()
}

fn sub_dir(repo: &Repo, h: DirHash, name: &[u8]) -> DirHash {
    match repo.get_dir(h).unwrap().get(name) {
        Some(Object::Dir(d)) => d,
        _ => panic!("expected a directory entry"),
    }
}

fn file_entry(repo: &Repo, h: DirHash, name: &[u8]) -> [u8; 20] {
    match repo.get_dir(h).unwrap().get(name) {
        Some(Object::File(f)) => f.0,
        _ => panic!("expected a file entry"),
    }
}

#[test]
fn fresh_repository_head_is_zero() {
    let repo = Repo::init();
    assert_eq!(repo.get_head().0, [0u8; 20]);
    let c = repo.get_commit(ComHash([0u8; 20])).unwrap();
    assert_eq!(c.prev.0, [0u8; 20]);
    assert_eq!(c.objs.0, [0u8; 20]);
    assert_eq!(c.msg, "init");
    assert!(repo.get_dir(DirHash([0u8; 20])).unwrap().objs.is_empty());
    assert!(repo.index.is_none());
    assert!(matches!(&repo.head, HeadState::Branch(n) if n == "main"));
    assert!(repo.save_plan().is_empty());
}

#[test]
fn commit_without_staging_fails_with_empty_index() {
    let mut repo = Repo::init();
    let r = repo.commit_index("msg".to_string());
    assert!(matches!(r, Err(RepoError::EmptyIndex)));
    assert_eq!(repo.get_head().0, [0u8; 20]);
    assert!(repo.save_plan().is_empty());
}

#[test]
fn load_checks_the_head_branch() {
    let branches = vec![("main".to_string(), Branch::new(ComHash([0u8; 20])))];
    let r = Repo::load(None, branches, HeadState::Branch("dev".to_string()), None);
    assert!(matches!(r, Err(RepoError::CorruptManifest)));
    let branches = vec![("main".to_string(), Branch::new(ComHash([3u8; 20])))];
    let repo = Repo::load(None, branches, HeadState::Branch("main".to_string()), None).unwrap();
    assert_eq!(repo.get_head().0, [3u8; 20]);
    let repo = Repo::load(Some("url".to_string()), vec![], HeadState::Commit(ComHash([4u8; 20])), None).unwrap();
    assert_eq!(repo.get_head().0, [4u8; 20]);
}

#[test]
fn load_rejects_duplicate_branch_names() {
    let branches = vec![
        ("main".to_string(), Branch::new(ComHash([0u8; 20]))),
        ("main".to_string(), Branch::new(ComHash([1u8; 20]))),
    ];
    let r = Repo::load(None, branches, HeadState::Commit(ComHash([0u8; 20])), None);
    assert!(matches!(r, Err(RepoError::CorruptManifest)));
}

#[test]
fn end_to_end_commit_and_reload() {
    let mut repo = Repo::init();
    repo.index_paths(vec![file("README.md", b"hi")]).unwrap();
    repo.commit_index("first".to_string()).unwrap();
    assert!(repo.index.is_none());
    let head = repo.get_head();
    assert_ne!(head.0, [0u8; 20]);

    // What a save writes.
    let plan = repo.save_plan();
    assert_eq!(plan.iter().filter(|w| w.kind == ObjectKind::Commit).count(), 1);
    assert_eq!(plan.iter().filter(|w| w.kind == ObjectKind::Tree).count(), 1);
    assert_eq!(plan.iter().filter(|w| w.kind == ObjectKind::Blob).count(), 1);
    let blob = plan.iter().find(|w| w.kind == ObjectKind::Blob).unwrap();
    assert_eq!(blob.name, "c22b5f9178342609428d6f51b2c5af4c0bde6a42");
    assert_eq!(blob.source.as_deref(), Some("README.md"));
    let commit = repo.get_commit(head).unwrap();
    let stored_commit = Commit::new(commit.msg.clone(), commit.prev, commit.objs);
    let tree_hash = commit.objs;
    let stored_tree = tree_of(&repo, tree_hash);

    // A new session over what was written.
    let branches: Vec<(String, Branch)> = repo.branches.iter().map(|b| (b.0.clone(), b.1)).collect();
    let mut again = Repo::load(None, branches, HeadState::Branch("main".to_string()), None).unwrap();
    assert_eq!(again.get_head().0, head.0);
    assert!(again.get_commit(head).is_none());
    let c = again.commit_from_hash(head, Some(stored_commit)).unwrap();
    assert_eq!(c.msg, "first");
    assert_eq!(c.objs.0, tree_hash.0);
    let t = again.dir_from_hash(tree_hash, Some(stored_tree)).unwrap();
    assert_eq!(t.objs.len(), 1);
    assert_eq!(t.objs[0].0, b"README.md".to_vec());
    match t.objs[0].1 {
        Object::File(h) => assert_eq!(h.0, hash_blob(b"hi").0),
        Object::Dir(_) => panic!("README.md is a file"),
    }
    assert_eq!(t.hash().0, tree_hash.0);
}

#[test]
fn identical_files_are_stored_once() {
    let mut repo = Repo::init();
    repo.index_paths(vec![file("a.txt", b"same"), file("docs/b.txt", b"same")]).unwrap();
    let plan = repo.save_plan();
    let blobs: Vec<_> = plan.iter().filter(|w| w.kind == ObjectKind::Blob).collect();
    assert_eq!(blobs.len(), 1);
    assert_eq!(blobs[0].digest, hash_blob(b"same").0);
    let root = repo.index.unwrap();
    assert_eq!(file_entry(&repo, root, b"a.txt"), hash_blob(b"same").0);
    let docs = sub_dir(&repo, root, b"docs");
    assert_eq!(file_entry(&repo, docs, b"b.txt"), hash_blob(b"same").0);
}

#[test]
fn deleting_a_file_keeps_its_sibling() {
    let mut repo = Repo::init();
    repo.index_paths(vec![file("src/a.txt", b"A"), file("src/b.txt", b"B")]).unwrap();
    repo.commit_index("two files".to_string()).unwrap();
    let head_tree = repo.get_commit(repo.get_head()).unwrap().objs;
    let b_before = file_entry(&repo, sub_dir(&repo, head_tree, b"src"), b"b.txt");

    repo.index_paths(vec![gone("src/a.txt")]).unwrap();
    repo.commit_index("drop a".to_string()).unwrap();
    let tree = repo.get_commit(repo.get_head()).unwrap().objs;
    let root = tree_of(&repo, tree);
    assert_eq!(root.len(), 1);
    assert_eq!(root[0].0, b"src".to_vec());
    let src = sub_dir(&repo, tree, b"src");
    let entries = tree_of(&repo, src);
    assert_eq!(entries.len(), 1);
    assert_eq!(entries[0].0, b"b.txt".to_vec());
    assert_eq!(file_entry(&repo, src, b"b.txt"), b_before);
    assert_eq!(b_before, hash_blob(b"B").0);
}

#[test]
fn staging_unchanged_path_twice_is_idempotent() {
    let mut repo = Repo::init();
    repo.index_paths(vec![file("src/a.txt", b"A"), file("top.txt", b"T")]).unwrap();
    let once = repo.index.unwrap();
    repo.index_paths(vec![file("src/a.txt", b"A")]).unwrap();
    assert_eq!(repo.index.unwrap().0, once.0);
    repo.index_paths(vec![file("src/a.txt", b"A"), file("src/a.txt", b"A")]).unwrap();
    assert_eq!(repo.index.unwrap().0, once.0);
}

#[test]
fn staging_nothing_keeps_the_starting_tree() {
    let mut repo = Repo::init();
    repo.index_paths(vec![]).unwrap();
    assert_eq!(repo.index.unwrap().0, [0u8; 20]);
    repo.index_paths(vec![file("x", b"1")]).unwrap();
    let staged = repo.index.unwrap();
    repo.index_paths(vec![]).unwrap();
    assert_eq!(repo.index.unwrap().0, staged.0);
}

#[test]
fn staging_a_directory_rebuilds_it() {
    let mut repo = Repo::init();
    repo.index_paths(vec![file("d/old.txt", b"old"), file("keep.txt", b"k")]).unwrap();
    repo.index_paths(vec![dir("d"), file("d/new.txt", b"new")]).unwrap();
    let root = repo.index.unwrap();
    let d = sub_dir(&repo, root, b"d");
    let entries = tree_of(&repo, d);
    assert_eq!(entries.len(), 1);
    assert_eq!(entries[0].0, b"new.txt".to_vec());
    assert_eq!(file_entry(&repo, root, b"keep.txt"), hash_blob(b"k").0);
}

#[test]
fn staging_an_empty_directory() {
    let mut repo = Repo::init();
    repo.index_paths(vec![dir("empty")]).unwrap();
    let root = repo.index.unwrap();
    let e = sub_dir(&repo, root, b"empty");
    assert!(tree_of(&repo, e).is_empty());
    assert_eq!(e.0, hash_blob(b"").0);
}

#[test]
fn staging_the_root_as_a_file_is_invalid() {
    let mut repo = Repo::init();
    let root_file = StagePath { components: vec![], node: WorkNode::File(FileHash([1u8; 20]), ".".to_string()) };
    let r = repo.index_paths(vec![root_file]);
    assert!(matches!(r, Err(RepoError::InvalidPath(_))));
    assert!(repo.index.is_none());
}

#[test]
fn staging_needs_the_head_commit_cached() {
    let branches = vec![("main".to_string(), Branch::new(ComHash([3u8; 20])))];
    let mut repo = Repo::load(None, branches, HeadState::Branch("main".to_string()), None).unwrap();
    let r = repo.index_paths(vec![file("a", b"a")]);
    assert!(matches!(r, Err(RepoError::MissingObject(ObjectKind::Commit, d)) if d == [3u8; 20]));
    assert!(repo.index.is_none());
}

#[test]
fn staging_needs_the_inherited_tree_cached() {
    let branches = vec![("main".to_string(), Branch::new(ComHash([0u8; 20])))];
    let mut repo =
        Repo::load(None, branches, HeadState::Branch("main".to_string()), Some(DirHash([5u8; 20]))).unwrap();
    let r = repo.index_paths(vec![file("a", b"a")]);
    assert!(matches!(r, Err(RepoError::MissingObject(ObjectKind::Tree, d)) if d == [5u8; 20]));
    assert_eq!(repo.index.unwrap().0, [5u8; 20]);
    assert!(repo.save_plan().is_empty());
}

#[test]
fn loading_objects_checks_their_digest() {
    let mut repo = Repo::init();
    let good = Commit::new("m".to_string(), ComHash([0u8; 20]), DirHash([1u8; 20]));
    let h = good.hash();
    let wrong = ComHash([9u8; 20]);
    assert!(matches!(repo.commit_from_hash(wrong, None), Err(RepoError::MissingObject(ObjectKind::Commit, _))));
    let r = repo.commit_from_hash(wrong, Some(Commit::new("m".to_string(), ComHash([0u8; 20]), DirHash([1u8; 20]))));
    assert!(matches!(r, Err(RepoError::CorruptObject(ObjectKind::Commit, d)) if d == [9u8; 20]));
    assert_eq!(repo.commit_from_hash(h, Some(good)).unwrap().objs.0, [1u8; 20]);
    assert!(repo.get_commit(h).is_some());

    let listing = vec![(b"b".to_vec(), Object::File(FileHash([2u8; 20]))), (b"a".to_vec(), Object::File(FileHash([1u8; 20])))];
    assert!(matches!(repo.dir_from_hash(DirHash([8u8; 20]), Some(listing.clone())), Err(RepoError::CorruptObject(ObjectKind::Tree, _))));
    assert!(matches!(repo.dir_from_hash(DirHash([8u8; 20]), None), Err(RepoError::MissingObject(ObjectKind::Tree, _))));
    let expected = DirHash(hex_digest("c2b5910db80d3e69dc002a0184c99250e598ffcc"));
    let t = repo.dir_from_hash(expected, Some(listing)).unwrap();
    assert_eq!(t.objs[0].0, b"a".to_vec());

    let fh = hash_blob(b"hi");
    assert!(matches!(repo.file_from_hash(fh, Some((0, b"ho".to_vec()))), Err(RepoError::CorruptObject(ObjectKind::Blob, _))));
    assert!(matches!(repo.file_from_hash(fh, None), Err(RepoError::MissingObject(ObjectKind::Blob, _))));
    assert_eq!(repo.file_from_hash(fh, Some((0o644, b"hi".to_vec()))).unwrap().permissions, 0o644);
    assert!(repo.get_file(fh).is_some());
    assert!(repo.save_plan().is_empty());
}

fn hex_digest(s: &str) -> [u8; 20] {
    let mut out = [0u8; 20];
    for i in 0..20 {
        out[i] = u8::from_str_radix(&s[2 * i..2 * i + 2], 16).unwrap();
    }
    out
}

#[test]
fn detached_head_moves_to_the_new_commit() {
    let mut repo = Repo::load(None, vec![], HeadState::Commit(ComHash([0u8; 20])), None).unwrap();
    repo.append_commit("c".to_string(), DirHash([0u8; 20]));
    let expected = Commit::new("c".to_string(), ComHash([0u8; 20]), DirHash([0u8; 20])).hash();
    assert!(matches!(repo.head, HeadState::Commit(h) if h.0 == expected.0));
    assert_eq!(repo.get_head().0, expected.0);
}

#[test]
fn branch_head_advances_on_commit() {
    let mut repo = Repo::init();
    repo.index_paths(vec![file("f", b"1")]).unwrap();
    let staged = repo.index.unwrap();
    repo.commit_index("one".to_string()).unwrap();
    let expected = Commit::new("one".to_string(), ComHash([0u8; 20]), staged).hash();
    assert_eq!(repo.branches[0].1.head.0, expected.0);
    assert!(matches!(&repo.head, HeadState::Branch(n) if n == "main"));
    let c = repo.get_commit(expected).unwrap();
    assert_eq!(c.prev.0, [0u8; 20]);
    assert_eq!(c.objs.0, staged.0);
}

#[test]
fn index_path_of_file_dir_and_missing() {
    let mut repo = Repo::init();
    let f = vec![StagePath { components: vec![], node: WorkNode::File(hash_blob(b"hi"), "x".to_string()) }];
    match repo.index_path(f) {
        Some(Object::File(h)) => assert_eq!(h.0, hash_blob(b"hi").0),
        _ => panic!("a file indexes as a file"),
    }
    let m = vec![StagePath { components: vec![], node: WorkNode::Missing }];
    assert!(repo.index_path(m).is_none());
    let d = vec![
        StagePath { components: vec![], node: WorkNode::Dir },
        file("README.md", b"hi"),
    ];
    match repo.index_path(d) {
        Some(Object::Dir(h)) => {
            assert_eq!(mid::to_hex(&h.0), "a695c2057f96a9465b9cc5be505812382536f6de");
            assert_eq!(tree_of(&repo, h).len(), 1);
        }
        _ => panic!("a directory indexes as a tree"),
    }
    let plan = repo.save_plan();
    assert_eq!(plan.iter().filter(|w| w.kind == ObjectKind::Blob).count(), 1);
    assert_eq!(plan.iter().filter(|w| w.kind == ObjectKind::Tree).count(), 1);
}

#[test]
fn staging_registers_blobs_and_every_built_tree() {
    let mut repo = Repo::init();
    repo.index_paths(vec![file("a/b/c.txt", b"deep")]).unwrap();
    let root = repo.index.unwrap();
    let a = sub_dir(&repo, root, b"a");
    let b = sub_dir(&repo, a, b"b");
    assert_eq!(file_entry(&repo, b, b"c.txt"), hash_blob(b"deep").0);
    for h in [root, a, b] {
        assert!(matches!(repo.get_dir(h).unwrap().state, mid::ObjectState::New));
    }
    let blob = repo.get_file(hash_blob(b"deep")).unwrap();
    assert!(matches!(&blob.state, mid::FileState::New(p) if p == "a/b/c.txt"));
    let plan = repo.save_plan();
    assert_eq!(plan.iter().filter(|w| w.kind == ObjectKind::Tree).count(), 3);
    assert_eq!(plan.iter().filter(|w| w.kind == ObjectKind::Blob).count(), 1);
}

#[test]
fn zero_digest_is_never_planned_for_writing() {
    let mut repo = Repo::init();
    repo.index_paths(vec![]).unwrap();
    repo.commit_index("empty".to_string()).unwrap();
    assert!(matches!(repo.get_dir(DirHash([0u8; 20])).unwrap().state, mid::ObjectState::Existing));
    let plan = repo.save_plan();
    assert_eq!(plan.len(), 1);
    assert!(plan.iter().all(|w| w.digest != [0u8; 20]));
}

#[test]
fn index_path_of_missing_changes_nothing() {
    let mut repo = Repo::init();
    let m = vec![StagePath { components: vec![], node: WorkNode::Missing }];
    assert!(repo.index_path(m).is_none());
    assert!(repo.save_plan().is_empty());
    let f = vec![StagePath { components: vec![], node: WorkNode::File(hash_blob(b"x"), "x.txt".to_string()) }];
    repo.index_path(f).unwrap();
    let plan = repo.save_plan();
    assert_eq!(plan.len(), 1);
    assert_eq!(plan[0].source.as_deref(), Some("x.txt"));
}
