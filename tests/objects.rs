use mid::{
    hash_blob, to_hex, Branch, ComHash, Commit, DirHash, DirObject, FileHash, FileObject, FileState,
    Object, ObjectState,
};

fn hex(d: &[u8; 20]) -> String {
    to_hex(d)
}

#[test]
fn blob_digest_is_sha1_of_bytes() {
    assert_eq!(hex(&hash_blob(b"hi").0), "c22b5f9178342609428d6f51b2c5af4c0bde6a42");
    assert_eq!(hex(&hash_blob(b"").0), "da39a3ee5e6b4b0d3255bfef95601890afd80709");
}

#[test]
fn hashing_same_bytes_twice_gives_same_digest() {
    let a = hash_blob(b"some content");
    let b = hash_blob(b"some content");
    assert_eq!(a.0, b.0);
    assert_ne!(a.0, hash_blob(b"other content").0);
}

#[test]
fn hex_is_lowercase_two_digits_per_byte() {
    let mut d = [0u8; 20];
    d[0] = 0xab;
    d[1] = 0x0f;
    d[19] = 0xff;
    assert_eq!(hex(&d), "ab0f0000000000000000000000000000000000ff");
}

#[test]
fn tree_digest_ignores_insertion_order() {
    let x = Object::File(FileHash([1u8; 20]));
    let y = Object::File(FileHash([2u8; 20]));
    let mut t1 = DirObject::empty();
    t1.insert(b"a".to_vec(), x);
    t1.insert(b"b".to_vec(), y);
    let mut t2 = DirObject::empty();
    t2.insert(b"b".to_vec(), y);
    t2.insert(b"a".to_vec(), x);
    assert_eq!(t1.hash().0, t2.hash().0);
    assert_eq!(hex(&t1.hash().0), "c2b5910db80d3e69dc002a0184c99250e598ffcc");
}

#[test]
fn tree_digest_of_one_entry() {
    let mut t = DirObject::empty();
    t.insert(b"README.md".to_vec(), Object::File(hash_blob(b"hi")));
    assert_eq!(hex(&t.hash().0), "a695c2057f96a9465b9cc5be505812382536f6de");
    assert_eq!(hex(&DirObject::empty().hash().0), "da39a3ee5e6b4b0d3255bfef95601890afd80709");
}

#[test]
fn tree_entries_stay_sorted_and_unique() {
    let mut t = DirObject::empty();
    t.insert(b"zeta".to_vec(), Object::File(FileHash([1u8; 20])));
    t.insert(b"alpha".to_vec(), Object::Dir(DirHash([2u8; 20])));
    t.insert(b"al".to_vec(), Object::File(FileHash([3u8; 20])));
    t.insert(b"zeta".to_vec(), Object::File(FileHash([4u8; 20])));
    let names: Vec<Vec<u8>> = t.objs.iter().map(|e| e.0.clone()).collect();
    assert_eq!(names, vec![b"al".to_vec(), b"alpha".to_vec(), b"zeta".to_vec()]);
    assert_eq!(t.len(), 3);
    match t.get(b"zeta") {
        Some(Object::File(h)) => assert_eq!(h.0, [4u8; 20]),
        _ => panic!("zeta should be a file"),
    }
    t.remove(b"alpha");
    assert!(t.get(b"alpha").is_none());
    assert_eq!(t.len(), 2);
    t.remove(b"missing");
    assert_eq!(t.len(), 2);
}

#[test]
fn default_tree_holds_one_file() {
    let h = FileHash([7u8; 20]);
    let t = DirObject::new(h);
    assert_eq!(t.len(), 1);
    assert_eq!(t.objs[0].0, b"default".to_vec());
    assert!(matches!(t.state, ObjectState::New));
}

#[test]
fn commit_digest_covers_parent_and_tree_only() {
    let c = Commit::new("first".to_string(), ComHash([0u8; 20]), DirHash([0u8; 20]));
    assert_eq!(hex(&c.hash().0), "b80de5d138758541c5f05265ad144ab9fa86d1db");
    let d = Commit::new("another message".to_string(), ComHash([0u8; 20]), DirHash([0u8; 20]));
    assert_eq!(c.hash().0, d.hash().0);
    let mut both = [0u8; 40];
    both[..20].copy_from_slice(&[5u8; 20]);
    both[20..].copy_from_slice(&[6u8; 20]);
    let e = Commit::new("x".to_string(), ComHash([5u8; 20]), DirHash([6u8; 20]));
    assert_eq!(e.hash().0, hash_blob(&both).0);
    assert!(matches!(c.state, ObjectState::New));
}

#[test]
fn zero_commit_is_the_root_commit() {
    let c = Commit::from_hash(ComHash([0u8; 20])).unwrap();
    assert_eq!(c.msg, "init");
    assert_eq!(c.prev.0, [0u8; 20]);
    assert_eq!(c.objs.0, [0u8; 20]);
    assert!(matches!(c.state, ObjectState::Existing));
    assert!(Commit::from_hash(ComHash([1u8; 20])).is_none());
}

#[test]
fn branch_and_file_object_constructors() {
    let b = Branch::new(ComHash([9u8; 20]));
    assert_eq!(b.head.0, [9u8; 20]);
    let f = FileObject::new("src/a.txt".to_string());
    assert_eq!(f.permissions, 0);
    match f.state {
        FileState::New(p) => assert_eq!(p, "src/a.txt"),
        FileState::Existing => panic!("a new blob is New"),
    }
}

