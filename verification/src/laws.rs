use vstd::prelude::*;

use crate::digest::{digest_decode_outcome, DIGEST_LENGTH};
use crate::path::{
    append_outcome, fits_limits, total_length, is_longest_common_prefix, lemma_longest_common_prefix_len,
    lemma_total_length_prefix, lemma_total_length_step, min_nat, new_outcome, InvalidPathError,
};

verus! {

/// The outcome of appending `components` one after the other to `path`,
/// stopping at the first append that fails.
pub open spec fn append_in_turn(path: Seq<Seq<u8>>, components: Seq<Seq<u8>>, mcc: nat, mpl: nat) -> Result<
    Seq<Seq<u8>>,
    InvalidPathError,
>
    decreases components.len(),
{
    if components.len() == 0 {
        Ok(path)
    } else {
        match append_outcome(path, components[0], mcc, mpl) {
            Ok(longer) => append_in_turn(longer, components.drop_first(), mcc, mpl),
            Err(e) => Err(e),
        }
    }
}

/// Appending components in turn to a path within the limits gives what
/// building a path from all of them at once gives.
pub proof fn law_append_in_turn_is_new(path: Seq<Seq<u8>>, components: Seq<Seq<u8>>, mcc: nat, mpl: nat)
    requires
        fits_limits(path, mcc, mpl),
    ensures
        append_in_turn(path, components, mcc, mpl) == new_outcome(path + components, mcc, mpl),
    decreases components.len(),
{
    let all = path + components;
    if components.len() == 0 {
        assert(all =~= path);
    } else {
        let c = components[0];
        lemma_total_length_step(all, path.len() as int);
        assert(all.take(path.len() as int) =~= path);
        lemma_total_length_prefix(all, path.len() as int, all.len() as int);
        match append_outcome(path, c, mcc, mpl) {
            Ok(longer) => {
                assert(longer.drop_last() =~= path);
                assert(longer + components.drop_first() =~= all);
                law_append_in_turn_is_new(longer, components.drop_first(), mcc, mpl);
            },
            Err(e) => {
                let n = min_nat(all.len(), mcc) as int;
                if path.len() + 1 > mcc {
                    assert(all.take(n) =~= path);
                } else {
                    lemma_total_length_prefix(all, path.len() + 1int, n);
                }
            },
        }
    }
}

/// Building a path from components is appending them in turn to the empty
/// path.
pub proof fn law_new_appends_in_turn(components: Seq<Seq<u8>>, mcc: nat, mpl: nat)
    ensures
        new_outcome(components, mcc, mpl) == append_in_turn(Seq::empty(), components, mcc, mpl),
{
    law_append_in_turn_is_new(Seq::empty(), components, mcc, mpl);
    assert(Seq::<Seq<u8>>::empty() + components =~= components);
}

/// Building a path from the components of a path gives that path back.
pub proof fn law_new_of_components(components: Seq<Seq<u8>>, mcc: nat, mpl: nat)
    requires
        fits_limits(components, mcc, mpl),
    ensures
        new_outcome(components, mcc, mpl) == Ok::<Seq<Seq<u8>>, InvalidPathError>(components),
{
}

/// A failed append leaves nothing to undo; a successful one adds exactly the
/// component at the end, so the old path is the prefix of the new one by its
/// old length.
pub proof fn law_append_then_prefix(path: Seq<Seq<u8>>, component: Seq<u8>, mcc: nat, mpl: nat)
    requires
        append_outcome(path, component, mcc, mpl) is Ok,
    ensures
        append_outcome(path, component, mcc, mpl)->Ok_0.take(path.len() as int) == path,
        path.is_prefix_of(append_outcome(path, component, mcc, mpl)->Ok_0),
        append_outcome(path, component, mcc, mpl)->Ok_0.len() == path.len() + 1,
        append_outcome(path, component, mcc, mpl)->Ok_0.last() == component,
{
    assert(path.push(component).take(path.len() as int) =~= path);
    assert(path.push(component).subrange(0, path.len() as int) =~= path);
}

/// Appending to a path within the limits keeps it within the limits.
pub proof fn law_append_keeps_limits(path: Seq<Seq<u8>>, component: Seq<u8>, mcc: nat, mpl: nat)
    requires
        fits_limits(path, mcc, mpl),
    ensures
        match append_outcome(path, component, mcc, mpl) {
            Ok(longer) => fits_limits(longer, mcc, mpl),
            Err(_) => true,
        },
{
    assert(path.push(component).drop_last() =~= path);
}

/// Every prefix of a path is a prefix of it, and the empty path and the
/// path itself are among its prefixes.
pub proof fn law_prefix_is_prefix(path: Seq<Seq<u8>>, length: nat)
    ensures
        path.take(min_nat(length, path.len()) as int).is_prefix_of(path),
        length == 0 ==> path.take(min_nat(length, path.len()) as int) == Seq::<Seq<u8>>::empty(),
        length >= path.len() ==> path.take(min_nat(length, path.len()) as int) == path,
{
    let n = min_nat(length, path.len()) as int;
    assert(path.take(n) =~= path.subrange(0, n));
    if length >= path.len() {
        assert(path.take(n) =~= path);
    }
    if length == 0 {
        assert(path.take(n) =~= Seq::<Seq<u8>>::empty());
    }
}

/// Taking a prefix of a prefix takes the shorter of the two prefixes.
pub proof fn law_prefix_of_prefix(path: Seq<Seq<u8>>, j: nat, k: nat)
    ensures
        ({
            let pj = path.take(min_nat(j, path.len()) as int);
            pj.take(min_nat(k, pj.len()) as int) == path.take(min_nat(min_nat(j, k), path.len()) as int)
        }),
{
    let pj = path.take(min_nat(j, path.len()) as int);
    assert(pj.take(min_nat(k, pj.len()) as int) =~= path.take(
        min_nat(min_nat(j, k), path.len()) as int,
    ));
}

/// The prefixes of a path, one for each length up to its own, are each a
/// prefix of it, each one component longer than the one before.
pub proof fn law_prefixes_are_prefixes(path: Seq<Seq<u8>>, i: int)
    requires
        0 <= i <= path.len(),
    ensures
        path.take(i).is_prefix_of(path),
        path.take(i).len() == i,
        path.take(i) == path.take(min_nat(i as nat, path.len()) as int),
        i < path.len() ==> path.take(i).is_prefix_of(path.take(i + 1)),
{
    assert(path.take(i) =~= path.subrange(0, i));
    if i < path.len() {
        assert(path.take(i) =~= path.take(i + 1).subrange(0, i));
    }
}

/// Being a prefix is reflexive, antisymmetric and transitive.
pub proof fn law_prefix_order(a: Seq<Seq<u8>>, b: Seq<Seq<u8>>, c: Seq<Seq<u8>>)
    ensures
        a.is_prefix_of(a),
        a.is_prefix_of(b) && b.is_prefix_of(a) ==> a == b,
        a.is_prefix_of(b) && b.is_prefix_of(c) ==> a.is_prefix_of(c),
{
    assert(a =~= a.subrange(0, a.len() as int));
    if a.is_prefix_of(b) && b.is_prefix_of(a) {
        assert(a =~= b);
    }
    if a.is_prefix_of(b) && b.is_prefix_of(c) {
        assert(a =~= c.subrange(0, a.len() as int));
    }
}

/// Given the longest common prefix `c` of `a` and `b`: `c` is a prefix of
/// both; `a` is a prefix of `b` exactly when `c` is all of `a`, and `b` is a
/// prefix of `a` exactly when `c` is all of `b`; `c` is also the longest
/// common prefix of `b` and `a`.
pub proof fn law_prefix_of_and_prefixed_by(c: Seq<Seq<u8>>, a: Seq<Seq<u8>>, b: Seq<Seq<u8>>)
    requires
        is_longest_common_prefix(c, a, b),
    ensures
        c.is_prefix_of(a),
        c.is_prefix_of(b),
        a.is_prefix_of(b) <==> c.len() == a.len(),
        b.is_prefix_of(a) <==> c.len() == b.len(),
        is_longest_common_prefix(c, b, a),
{
    lemma_longest_common_prefix_len(c, a, b);
    lemma_longest_common_prefix_len(c, b, a);
}

/// Two paths have one longest common prefix, whatever their order.
pub proof fn law_longest_common_prefix_unique(
    c: Seq<Seq<u8>>,
    d: Seq<Seq<u8>>,
    a: Seq<Seq<u8>>,
    b: Seq<Seq<u8>>,
)
    requires
        is_longest_common_prefix(c, a, b),
        is_longest_common_prefix(d, b, a),
    ensures
        c == d,
{
    lemma_longest_common_prefix_len(d, b, a);
    if c.len() < d.len() {
        assert(a[c.len() as int] == d[c.len() as int]);
        assert(b[c.len() as int] == d[c.len() as int]);
    } else if d.len() < c.len() {
        assert(a[d.len() as int] == c[d.len() as int]);
        assert(b[d.len() as int] == c[d.len() as int]);
    }
    assert(c =~= d);
}

/// Every prefix common to two paths is a prefix of their longest common
/// prefix.
pub proof fn law_common_prefixes_are_prefixes_of_longest(
    c: Seq<Seq<u8>>,
    d: Seq<Seq<u8>>,
    a: Seq<Seq<u8>>,
    b: Seq<Seq<u8>>,
)
    requires
        is_longest_common_prefix(c, a, b),
        d.is_prefix_of(a),
        d.is_prefix_of(b),
    ensures
        d.is_prefix_of(c),
{
    if d.len() > c.len() {
        assert(a[c.len() as int] == d[c.len() as int]);
        assert(b[c.len() as int] == d[c.len() as int]);
    }
    assert(d =~= c.subrange(0, d.len() as int));
}

/// The longest common prefix of a path and a path that it prefixes is the
/// first path; in particular that of a path and itself is the path.
pub proof fn law_longest_common_prefix_of_prefix(c: Seq<Seq<u8>>, a: Seq<Seq<u8>>, b: Seq<Seq<u8>>)
    requires
        is_longest_common_prefix(c, a, b),
        a.is_prefix_of(b),
    ensures
        c == a,
{
    lemma_longest_common_prefix_len(c, a, b);
    assert(c =~= a);
}

/// The longest common prefix of two paths, the first within the limits, is
/// within the limits too.
pub proof fn law_longest_common_prefix_within_limits(
    c: Seq<Seq<u8>>,
    a: Seq<Seq<u8>>,
    b: Seq<Seq<u8>>,
    mcc: nat,
    mpl: nat,
)
    requires
        is_longest_common_prefix(c, a, b),
        fits_limits(a, mcc, mpl),
    ensures
        fits_limits(c, mcc, mpl),
{
    assert(c =~= a.take(c.len() as int));
    lemma_total_length_prefix(a, c.len() as int, a.len() as int);
}

/// The total length of no components is zero, and adding a component adds
/// its length.
pub proof fn law_total_length_sums(components: Seq<Seq<u8>>, component: Seq<u8>)
    ensures
        total_length(Seq::<Seq<u8>>::empty()) == 0,
        total_length(components.push(component)) == total_length(components) + component.len(),
{
    assert(components.push(component).drop_last() =~= components);
}

/// Appending succeeds exactly when the longer path has at most `mcc`
/// components and at most `mpl` bytes, and then gives the path followed by
/// the component. It fails with `TooManyComponents` exactly when the path
/// already holds `mcc` components or more, and with `PathTooLong` exactly
/// when the count fits but the bytes do not.
pub proof fn law_append_decides_by_limits(path: Seq<Seq<u8>>, component: Seq<u8>, mcc: nat, mpl: nat)
    ensures
        append_outcome(path, component, mcc, mpl) is Ok <==> (path.len() + 1 <= mcc
            && total_length(path) + component.len() <= mpl),
        append_outcome(path, component, mcc, mpl) is Ok ==> append_outcome(
            path,
            component,
            mcc,
            mpl,
        )->Ok_0 == path.push(component),
        append_outcome(path, component, mcc, mpl) == Err::<Seq<Seq<u8>>, InvalidPathError>(
            InvalidPathError::TooManyComponents,
        ) <==> path.len() >= mcc,
        append_outcome(path, component, mcc, mpl) == Err::<Seq<Seq<u8>>, InvalidPathError>(
            InvalidPathError::PathTooLong,
        ) <==> (path.len() < mcc && total_length(path) + component.len() > mpl),
{
}

/// Building a path succeeds exactly when all the components together respect
/// both limits, and then the path holds exactly those components. It fails
/// with `PathTooLong` exactly when some component among the first `mcc`
/// brings the running total over `mpl`, and with `TooManyComponents` exactly
/// when there are more than `mcc` components and the first `mcc` of them fit
/// in `mpl` bytes.
pub proof fn law_new_decides_by_limits(components: Seq<Seq<u8>>, mcc: nat, mpl: nat)
    ensures
        new_outcome(components, mcc, mpl) is Ok <==> (components.len() <= mcc && total_length(
            components,
        ) <= mpl),
        new_outcome(components, mcc, mpl) is Ok ==> new_outcome(components, mcc, mpl)->Ok_0
            == components,
        new_outcome(components, mcc, mpl) == Err::<Seq<Seq<u8>>, InvalidPathError>(
            InvalidPathError::PathTooLong,
        ) <==> (exists|i: int|
            0 <= i < components.len() && i < mcc && #[trigger] total_length(components.take(i + 1))
                > mpl),
        new_outcome(components, mcc, mpl) == Err::<Seq<Seq<u8>>, InvalidPathError>(
            InvalidPathError::TooManyComponents,
        ) <==> (components.len() > mcc && total_length(components.take(mcc as int)) <= mpl),
{
    let len = components.len();
    let n = min_nat(len, mcc) as int;
    lemma_total_length_prefix(components, 0, len as int);
    assert(components.take(0) =~= Seq::<Seq<u8>>::empty());
    if len <= mcc {
        assert(components.take(n) =~= components);
    }
    if new_outcome(components, mcc, mpl) == Err::<Seq<Seq<u8>>, InvalidPathError>(
        InvalidPathError::PathTooLong,
    ) {
        assert(total_length(components.take(n)) > mpl);
        assert(n > 0);
        assert(components.take((n - 1) + 1) == components.take(n));
    }
    if exists|i: int|
        0 <= i < components.len() && i < mcc && #[trigger] total_length(components.take(i + 1))
            > mpl {
        let i = choose|i: int|
            0 <= i < components.len() && i < mcc && #[trigger] total_length(components.take(i + 1))
                > mpl;
        lemma_total_length_prefix(components, i + 1, n);
        lemma_total_length_prefix(components, i + 1, len as int);
    }
}

/// Decoding a digest gives one exactly when the input holds at least 32
/// bytes, and then it is the first 32 bytes of the input.
pub proof fn law_digest_decode_needs_all_bytes(input: Seq<u8>)
    ensures
        digest_decode_outcome(input) is Some <==> input.len() >= DIGEST_LENGTH,
        digest_decode_outcome(input) is Some ==> digest_decode_outcome(input)->Some_0.len()
            == DIGEST_LENGTH,
        digest_decode_outcome(input) is Some ==> forall|k: int|
            0 <= k < DIGEST_LENGTH ==> #[trigger] digest_decode_outcome(input)->Some_0[k]
                == input[k],
{
}

/// Decoding the encoding of a digest, whatever follows it, gives the digest
/// back.
pub proof fn law_digest_roundtrip(digest: Seq<u8>, rest: Seq<u8>)
    requires
        digest.len() == DIGEST_LENGTH,
    ensures
        digest_decode_outcome(digest + rest) == Some(digest),
{
    assert((digest + rest).take(DIGEST_LENGTH as int) =~= digest);
}

} // verus!
