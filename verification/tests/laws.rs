use willow_data_model::{FakePayloadDigest, InvalidPathError, Path, PathComponentLocal, PathLocal};

const MCL: usize = 8;
const MCC: usize = 4;
const MPL: usize = 16;

type TestPath = PathLocal<MCL, MCC, MPL>;

fn comp(bytes: &[u8]) -> PathComponentLocal<MCL> {
    PathComponentLocal::<MCL>::new(bytes).unwrap()
}

fn path(components: &[&[u8]]) -> TestPath {
    let comps: Vec<PathComponentLocal<MCL>> = components.iter().map(|c| comp(c)).collect();
    TestPath::new(&comps).unwrap()
}

fn bytes_of(p: &TestPath) -> Vec<Vec<u8>> {
    p.components().iter().map(|c| c.as_ref().to_vec()).collect()
}

#[test]
fn component_too_long_is_refused() {
    assert!(PathComponentLocal::<MCL>::new(&[b'a'; 9]).is_err());
    let c = PathComponentLocal::<MCL>::new(&[b'a'; 8]).unwrap();
    assert_eq!(c.as_ref(), &[b'a'; 8]);
    let empty = PathComponentLocal::<MCL>::new(&[]).unwrap();
    assert_eq!(empty.as_ref().len(), 0);
}

#[test]
fn append_too_long_leaves_path_unchanged() {
    let mut p = path(&[&[b'a'; 8], &[b'b'; 7]]);
    let before = p.clone();
    let r = p.append(comp(&[b'c', b'd']));
    assert!(matches!(r, Err(InvalidPathError::PathTooLong)));
    assert_eq!(p, before);
    let r = p.append(comp(&[b'c']));
    assert!(r.is_ok());
    assert_eq!(bytes_of(&p).len(), 3);
}

#[test]
fn append_too_many_leaves_path_unchanged() {
    let mut p = path(&[&[b'a'], &[b'b'], &[b'c'], &[b'd']]);
    let before = p.clone();
    let r = p.append(comp(&[]));
    assert!(matches!(r, Err(InvalidPathError::TooManyComponents)));
    assert_eq!(p, before);
}

#[test]
fn append_then_prefix_gives_old_path() {
    let mut p = path(&[&[b'a'], &[b'b']]);
    let before = p.clone();
    assert!(p.append(comp(&[b'c'])).is_ok());
    assert_eq!(p.prefix(2), before);
    assert!(p.is_prefixed_by(&before));
    assert_eq!(p.components()[2].as_ref(), &[b'c']);
}

#[test]
fn new_at_the_limits() {
    let full = TestPath::new(&[comp(&[1; 4]), comp(&[2; 4]), comp(&[3; 4]), comp(&[4; 4])]);
    assert!(full.is_ok());
    assert_eq!(bytes_of(&full.unwrap()), vec![vec![1; 4], vec![2; 4], vec![3; 4], vec![4; 4]]);
    let none = TestPath::new(&[]);
    assert_eq!(none.unwrap(), TestPath::empty());
}

#[test]
fn new_reports_the_first_broken_limit() {
    // The length limit breaks at the third component, before the count limit.
    let r = TestPath::new(&[comp(&[1; 8]), comp(&[2; 8]), comp(&[3]), comp(&[4]), comp(&[5])]);
    assert!(matches!(r, Err(InvalidPathError::PathTooLong)));
    // The count limit breaks before the length limit.
    let r = TestPath::new(&[comp(&[1]), comp(&[2]), comp(&[3]), comp(&[4]), comp(&[5; 8]), comp(&[6; 8])]);
    assert!(matches!(r, Err(InvalidPathError::TooManyComponents)));
}

#[test]
fn new_of_components_gives_path_back() {
    let p = path(&[&[b'a'], &[], &[b'c', b'd']]);
    let q = TestPath::new(p.components()).unwrap();
    assert_eq!(p, q);
}

#[test]
fn new_is_appending_in_turn() {
    let comps = [comp(&[1; 8]), comp(&[2; 5]), comp(&[3; 4]), comp(&[4])];
    let mut by_append = TestPath::empty();
    let mut first_error = None;
    for c in comps.iter() {
        if let Err(e) = by_append.append(c.clone()) {
            first_error = Some(e);
            break;
        }
    }
    let built = TestPath::new(&comps);
    assert!(matches!(first_error, Some(InvalidPathError::PathTooLong)));
    assert!(matches!(built, Err(InvalidPathError::PathTooLong)));
}

#[test]
fn prefix_is_prefix_of_path() {
    let p = path(&[&[b'a'], &[b'b'], &[b'c']]);
    for k in 0..6 {
        assert!(p.prefix(k).is_prefix_of(&p));
        assert!(p.is_prefixed_by(&p.prefix(k)));
    }
    assert_eq!(p.prefix(2).prefix(1), p.prefix(1));
    assert_eq!(p.prefix(1).prefix(2), p.prefix(1));
}

#[test]
fn prefixes_are_the_prefixes() {
    let p = path(&[&[b'a'], &[b'b'], &[b'c']]);
    let all = p.prefixes();
    assert_eq!(all.len(), 4);
    for (i, q) in all.iter().enumerate() {
        assert_eq!(*q, p.prefix(i));
        assert_eq!(bytes_of(q).len(), i);
    }
    assert_eq!(TestPath::empty().prefixes(), vec![TestPath::empty()]);
}

#[test]
fn prefix_relation_is_an_order() {
    let a = path(&[&[b'a']]);
    let b = path(&[&[b'a'], &[b'b']]);
    let c = path(&[&[b'a'], &[b'b'], &[b'c']]);
    assert!(a.is_prefix_of(&a));
    assert!(a.is_prefix_of(&b) && b.is_prefix_of(&c) && a.is_prefix_of(&c));
    assert!(!b.is_prefix_of(&a));
    assert!(TestPath::empty().is_prefix_of(&a));
    assert!(!a.is_prefix_of(&TestPath::empty()));
}

#[test]
fn longest_common_prefix_is_symmetric_and_fixes_prefixes() {
    let a = path(&[&[b'a'], &[b'b']]);
    let b = path(&[&[b'a'], &[b'b'], &[b'c']]);
    assert_eq!(a.longest_common_prefix(&b), a);
    assert_eq!(b.longest_common_prefix(&a), a);
    assert_eq!(b.longest_common_prefix(&b), b);
}

#[test]
fn longest_common_prefix_stops_at_the_first_difference() {
    let a = path(&[&[b'a'], &[b'x'], &[b'c']]);
    let b = path(&[&[b'a'], &[b'y'], &[b'c'], &[b'd']]);
    let common = a.longest_common_prefix(&b);
    assert_eq!(common, path(&[&[b'a']]));
    assert_eq!(b.longest_common_prefix(&a), common);
    assert!(common.is_prefix_of(&a));
    assert!(common.is_prefix_of(&b));
    assert!(!a.is_prefix_of(&b));
    assert!(!b.is_prefixed_by(&a));
    let c = path(&[&[b'a'], &[b'x'], &[b'c']]);
    let d = path(&[&[b'a'], &[b'b'], &[b'c']]);
    assert_eq!(c.longest_common_prefix(&d), path(&[&[b'a']]));
}

#[test]
fn every_common_prefix_is_a_prefix_of_the_longest() {
    let a = path(&[&[b'a'], &[b'b'], &[b'x']]);
    let b = path(&[&[b'a'], &[b'b'], &[b'y']]);
    let common = a.longest_common_prefix(&b);
    for k in 0..4 {
        let candidate = a.prefix(k);
        if candidate.is_prefix_of(&b) {
            assert!(candidate.is_prefix_of(&common));
        }
    }
    assert_eq!(TestPath::empty().longest_common_prefix(&a), TestPath::empty());
}

#[test]
fn component_bytes_are_the_component() {
    let c = comp(&[3, 1, 4]);
    assert_eq!(TestPath::component_bytes(&c), &[3, 1, 4]);
}

#[test]
fn clone_keeps_the_path() {
    let p = path(&[&[b'a', b'b'], &[b'c']]);
    assert_eq!(p.clone(), p);
    let c = comp(&[7, 8, 9]);
    assert_eq!(c.clone().as_ref(), &[7, 8, 9]);
}

#[test]
fn digest_encode_then_decode() {
    let mut bytes = [0u8; 32];
    for (i, b) in bytes.iter_mut().enumerate() {
        *b = i as u8;
    }
    let digest = FakePayloadDigest(bytes);
    let mut out = vec![0xff, 0xee];
    digest.encode(&mut out);
    assert_eq!(out.len(), 34);
    assert_eq!(&out[..2], &[0xff, 0xee]);
    assert_eq!(&out[2..], &bytes);
    out.push(42);
    let decoded = FakePayloadDigest::decode(&out[2..]).unwrap();
    assert_eq!(decoded, digest);
}

#[test]
fn digest_decode_needs_all_bytes() {
    assert!(FakePayloadDigest::decode(&[1u8; 31]).is_none());
    assert_eq!(FakePayloadDigest::decode(&[1u8; 32]), Some(FakePayloadDigest([1u8; 32])));
    assert!(FakePayloadDigest::decode(&[]).is_none());
}

#[test]
fn longest_common_prefix_of_diverging_paths() {
    let a = path(&[&[b'a'], &[b'b'], &[b'x']]);
    let b = path(&[&[b'a'], &[b'b'], &[b'y'], &[b'z']]);
    let common = a.longest_common_prefix(&b);
    assert_eq!(common, path(&[&[b'a'], &[b'b']]));
    assert!(common.is_prefix_of(&a));
    assert!(common.is_prefix_of(&b));
}
