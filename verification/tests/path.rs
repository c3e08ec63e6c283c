use willow_data_model::{InvalidPathError, Path, PathComponentLocal, PathLocal};

const MCL: usize = 8;
const MCC: usize = 4;
const MPL: usize = 16;

type TestPath = PathLocal<MCL, MCC, MPL>;

fn comp(bytes: &[u8]) -> PathComponentLocal<MCL> {
    PathComponentLocal::<MCL>::new(bytes).unwrap()
}

fn path(components: &[&[u8]]) -> TestPath {
    let comps: Vec<PathComponentLocal<MCL>> = components.iter().map(|c| comp(c)).collect();
    TestPath::new(&comps).unwrap()
}

#[test]
fn empty() {
    let empty_path = PathLocal::<MCL, MCC, MPL>::empty();

    assert_eq!(empty_path.components().iter().count(), 0);
}

#[test]
fn new() {
    let too_many_components = PathLocal::<MCL, MCC, MPL>::new(&[
        comp(&[b'a']),
        comp(&[b'a']),
        comp(&[b'a']),
        comp(&[b'a']),
        comp(&[b'z']),
    ]);

    assert!(matches!(
        too_many_components,
        Err(InvalidPathError::TooManyComponents)
    ));

    let path_too_long = PathLocal::<MCL, MCC, MPL>::new(&[
        comp(&[b'a', b'a', b'a', b'a', b'a', b'a', b'a', b'a']),
        comp(&[b'a', b'a', b'a', b'a', b'a', b'a', b'a', b'a']),
        comp(&[b'z']),
    ]);

    assert!(matches!(path_too_long, Err(InvalidPathError::PathTooLong)));
}

#[test]
fn append() {
    let mut path = PathLocal::<MCL, MCC, MPL>::empty();

    let r1 = path.append(comp(&[b'a']));
    assert!(r1.is_ok());
    assert_eq!(path.components().iter().count(), 1);
    let r2 = path.append(comp(&[b'b']));
    assert!(r2.is_ok());
    assert_eq!(path.components().iter().count(), 2);
    let r3 = path.append(comp(&[b'c']));
    assert!(r3.is_ok());
    assert_eq!(path.components().iter().count(), 3);
    let r4 = path.append(comp(&[b'd']));
    assert!(r4.is_ok());
    assert_eq!(path.components().iter().count(), 4);
    let r5 = path.append(comp(&[b'z']));
    assert!(r5.is_err());

    let collected = path
        .components()
        .iter()
        .map(|comp| comp.as_ref())
        .collect::<Vec<&[u8]>>();

    assert_eq!(collected, vec![[b'a'], [b'b'], [b'c'], [b'd'],])
}

#[test]
fn prefix() {
    let path = path(&[&[b'a'], &[b'b'], &[b'c']]);

    let prefix0 = path.prefix(0);

    assert_eq!(prefix0, PathLocal::empty());

    let prefix1 = path.prefix(1);

    assert_eq!(prefix1, self::path(&[&[b'a']]));

    let prefix2 = path.prefix(2);

    assert_eq!(prefix2, self::path(&[&[b'a'], &[b'b']]));

    let prefix3 = path.prefix(3);

    assert_eq!(prefix3, self::path(&[&[b'a'], &[b'b'], &[b'c']]));

    let prefix4 = path.prefix(4);

    assert_eq!(prefix4, self::path(&[&[b'a'], &[b'b'], &[b'c']]))
}

#[test]
fn prefixes() {
    let path = path(&[&[b'a'], &[b'b'], &[b'c']]);

    let prefixes = path.prefixes();

    assert_eq!(
        prefixes,
        vec![
            self::path(&[]),
            self::path(&[&[b'a']]),
            self::path(&[&[b'a'], &[b'b']]),
            self::path(&[&[b'a'], &[b'b'], &[b'c']]),
        ]
    )
}

#[test]
fn is_prefix_of() {
    let path_a = path(&[&[b'a'], &[b'b']]);
    let path_b = path(&[&[b'a'], &[b'b'], &[b'c']]);
    let path_c = path(&[&[b'x'], &[b'y'], &[b'z']]);

    assert!(path_a.is_prefix_of(&path_b));
    assert!(!path_a.is_prefix_of(&path_c));
}

#[test]
fn is_prefixed_by() {
    let path_a = path(&[&[b'a'], &[b'b']]);
    let path_b = path(&[&[b'a'], &[b'b'], &[b'c']]);
    let path_c = path(&[&[b'x'], &[b'y'], &[b'z']]);

    assert!(path_b.is_prefixed_by(&path_a));
    assert!(!path_c.is_prefixed_by(&path_a));
}

#[test]
fn longest_common_prefix() {
    let path_a = path(&[&[b'a'], &[b'x']]);
    let path_b = path(&[&[b'a'], &[b'b'], &[b'c']]);
    let path_c = path(&[&[b'x'], &[b'y'], &[b'z']]);

    let lcp_a_b = path_a.longest_common_prefix(&path_b);

    assert_eq!(lcp_a_b, path(&[&[b'a']]));

    let lcp_b_a = path_b.longest_common_prefix(&path_a);

    assert_eq!(lcp_b_a, lcp_a_b);

    let lcp_a_x = path_a.longest_common_prefix(&path_c);

    assert_eq!(lcp_a_x, PathLocal::empty());
}
