use vstd::prelude::*;

verus! {

/// Why a sequence of components cannot form a path.
#[derive(Debug, Clone, Copy, PartialEq, Eq)]
pub enum InvalidPathError {
    /// The components hold more bytes in total than the path may hold.
    PathTooLong,
    /// There are more components than the path may hold.
    TooManyComponents,
}

/// The number of bytes over all components, in order.
pub open spec fn total_length(components: Seq<Seq<u8>>) -> nat
    decreases components.len(),
{
    if components.len() == 0 {
        0
    } else {
        total_length(components.drop_last()) + components.last().len()
    }
}

/// Whether `components` respect a limit of `mcc` components and of `mpl`
/// bytes over all of them.
pub open spec fn fits_limits(components: Seq<Seq<u8>>, mcc: nat, mpl: nat) -> bool {
    components.len() <= mcc && total_length(components) <= mpl
}

/// What appending `component` to the path `path` gives under the limits
/// `mcc` and `mpl`: the longer path, or the first limit that it breaks.
pub open spec fn append_outcome(path: Seq<Seq<u8>>, component: Seq<u8>, mcc: nat, mpl: nat) -> Result<
    Seq<Seq<u8>>,
    InvalidPathError,
> {
    if path.len() + 1 > mcc {
        Err(InvalidPathError::TooManyComponents)
    } else if total_length(path) + component.len() > mpl {
        Err(InvalidPathError::PathTooLong)
    } else {
        Ok(path.push(component))
    }
}

/// What building a path from `components` under the limits `mcc` and `mpl`
/// gives: the components themselves when they respect both limits; otherwise
/// the error of the first component that breaks one, checking the number of
/// components before the length.
pub open spec fn new_outcome(components: Seq<Seq<u8>>, mcc: nat, mpl: nat) -> Result<
    Seq<Seq<u8>>,
    InvalidPathError,
> {
    if fits_limits(components, mcc, mpl) {
        Ok(components)
    } else if total_length(components.take(min_nat(components.len(), mcc) as int)) > mpl {
        Err(InvalidPathError::PathTooLong)
    } else {
        Err(InvalidPathError::TooManyComponents)
    }
}

/// The smaller of two natural numbers.
pub open spec fn min_nat(a: nat, b: nat) -> nat {
    if a <= b {
        a
    } else {
        b
    }
}

/// Whether `c` is the longest common prefix of `a` and `b`: a prefix of both
/// that either covers all positions that both have or stops at the first
/// position where they differ.
pub open spec fn is_longest_common_prefix(c: Seq<Seq<u8>>, a: Seq<Seq<u8>>, b: Seq<Seq<u8>>) -> bool {
    &&& c.is_prefix_of(a)
    &&& c.is_prefix_of(b)
    &&& (c.len() == min_nat(a.len(), b.len()) || a[c.len() as int] != b[c.len() as int])
}

/// The total length of a prefix grows with the prefix.
pub proof fn lemma_total_length_prefix(s: Seq<Seq<u8>>, i: int, j: int)
    requires
        0 <= i <= j <= s.len(),
    ensures
        total_length(s.take(i)) <= total_length(s.take(j)),
        total_length(s.take(s.len() as int)) == total_length(s),
    decreases j - i,
{
    assert(s.take(s.len() as int) =~= s);
    if i < j {
        assert(s.take(j).drop_last() =~= s.take(j - 1));
        lemma_total_length_prefix(s, i, j - 1);
    }
}

/// Taking one more component of `s` adds its length to the total.
pub proof fn lemma_total_length_step(s: Seq<Seq<u8>>, i: int)
    requires
        0 <= i < s.len(),
    ensures
        total_length(s.take(i + 1)) == total_length(s.take(i)) + s[i].len(),
{
    assert(s.take(i + 1).drop_last() =~= s.take(i));
}

/// The longest common prefix of `a` and `b` is all of `a` exactly when `a` is
/// a prefix of `b`.
pub proof fn lemma_longest_common_prefix_len(c: Seq<Seq<u8>>, a: Seq<Seq<u8>>, b: Seq<Seq<u8>>)
    requires
        is_longest_common_prefix(c, a, b),
    ensures
        (c.len() == a.len()) == a.is_prefix_of(b),
        is_longest_common_prefix(c, b, a),
{
    if c.len() == a.len() {
        assert(c =~= a);
    }
    if a.is_prefix_of(b) && c.len() < a.len() {
        assert(a[c.len() as int] == b.subrange(0, a.len() as int)[c.len() as int]);
    }
}

/// The error returned when a byte string is too long to be a path component.
#[derive(Debug)]
pub struct ComponentTooLongError;

/// A path component that holds at most `MCL` bytes.
#[derive(Debug, PartialEq, Eq, PartialOrd, Ord)]
pub struct PathComponentLocal<const MCL: usize>(Vec<u8>);

impl<const MCL: usize> View for PathComponentLocal<MCL> {
    type V = Seq<u8>;

    closed spec fn view(&self) -> Seq<u8> {
        self.0@
    }
}

impl<const MCL: usize> Clone for PathComponentLocal<MCL> {
    fn clone(&self) -> (r: Self)
        ensures
            r@ == self@,
    {
        proof {
            use_type_invariant(self);
        }
        let mut bytes: Vec<u8> = Vec::new();
        bytes.extend_from_slice(self.0.as_slice());
        assert(bytes@ =~= self.0@);
        PathComponentLocal(bytes)
    }
}

impl<const MCL: usize> PathComponentLocal<MCL> {
    #[verifier::type_invariant]
    spec fn inv(self) -> bool {
        self.0@.len() <= MCL
    }

    /// Creates a component holding a copy of `bytes`, or fails when `bytes` is
    /// longer than `MCL`.
    pub fn new(bytes: &[u8]) -> (r: Result<Self, ComponentTooLongError>)
        ensures
            match r {
                Ok(c) => bytes@.len() <= MCL && c@ == bytes@,
                Err(_) => bytes@.len() > MCL,
            },
    {
        if bytes.len() > MCL {
            return Err(ComponentTooLongError);
        }
        let mut vec: Vec<u8> = Vec::new();
        vec.extend_from_slice(bytes);
        assert(vec@ =~= bytes@);
        Ok(PathComponentLocal(vec))
    }

    /// The bytes of the component.
    pub fn as_ref(&self) -> (r: &[u8])
        ensures
            r@ == self@,
            r@.len() <= MCL,
    {
        proof {
            use_type_invariant(self);
        }
        self.0.as_slice()
    }
}

/// Whether `a` and `b` hold the same bytes.
pub fn bytes_equal(a: &[u8], b: &[u8]) -> (r: bool)
    ensures
        r == (a@ == b@),
{
    if a.len() != b.len() {
        return false;
    }
    let mut i: usize = 0;
    while i < a.len()
        invariant
            a@.len() == b@.len(),
            i <= a@.len(),
            forall|k: int| 0 <= k < i ==> a@[k] == b@[k],
        decreases a@.len() - i,
    {
        if a[i] != b[i] {
            assert(a@[i as int] != b@[i as int]);
            return false;
        }
        i = i + 1;
    }
    assert(a@ =~= b@);
    true
}

/// A Willow path: a sequence of byte-string components under limits on the
/// length of a component, on the number of components and on the total
/// length. A path is seen as the sequence of its components' bytes.
///
/// An implementation provides the limits, `new`, `empty`, `append` and
/// `components`; the other operations are built on those.
pub trait Path: Sized + Clone + PartialEq + Eq + PartialOrd + Ord + View<V = Seq<Seq<u8>>> {
    /// The type of the components.
    type Component: Eq + Clone + PartialOrd + Ord + View<V = Seq<u8>>;

    /// The most bytes that one component may hold.
    const MAX_COMPONENT_LENGTH: usize;

    /// The most components that a path may hold.
    const MAX_COMPONENT_COUNT: usize;

    /// The most bytes that a path may hold over all its components.
    const MAX_PATH_LENGTH: usize;

    /// `MAX_COMPONENT_LENGTH` as a number, for contracts.
    spec fn max_component_length() -> nat;

    /// `MAX_COMPONENT_COUNT` as a number, for contracts.
    spec fn max_component_count() -> nat;

    /// `MAX_PATH_LENGTH` as a number, for contracts.
    spec fn max_path_length() -> nat;

    /// The limits that contracts speak of are the constants of the type.
    proof fn lemma_limits()
        ensures
            Self::max_component_length() == Self::MAX_COMPONENT_LENGTH,
            Self::max_component_count() == Self::MAX_COMPONENT_COUNT,
            Self::max_path_length() == Self::MAX_PATH_LENGTH,
    ;

    /// A clone of a component or of a path holds the same bytes.
    proof fn lemma_clone_keeps_bytes()
        ensures
            forall|a: Self::Component, b: Self::Component| #[trigger] cloned(a, b) ==> a@ == b@,
            forall|p: Self, q: Self| #[trigger] cloned(p, q) ==> p@ == q@,
    ;

    /// The bytes of `component`: the byte string that a component stands
    /// for, through which components are compared.
    fn component_bytes(component: &Self::Component) -> (r: &[u8])
        ensures
            r@ == component@,
    ;

    /// Builds a path by appending `components` in turn to the empty path; the
    /// first append that fails gives the error.
    fn new(components: &[Self::Component]) -> (r: Result<Self, InvalidPathError>)
        ensures
            match r {
                Ok(p) => new_outcome(
                    components@.map_values(|c: Self::Component| c@),
                    Self::max_component_count(),
                    Self::max_path_length(),
                ) == Ok::<Seq<Seq<u8>>, InvalidPathError>(p@),
                Err(e) => new_outcome(
                    components@.map_values(|c: Self::Component| c@),
                    Self::max_component_count(),
                    Self::max_path_length(),
                ) == Err::<Seq<Seq<u8>>, InvalidPathError>(e),
            },
            r is Ok <==> (components@.len() <= Self::max_component_count() && total_length(
                components@.map_values(|c: Self::Component| c@),
            ) <= Self::max_path_length()),
            r is Ok ==> r->Ok_0@ == components@.map_values(|c: Self::Component| c@),
    ;

    /// The path with no components.
    fn empty() -> (r: Self)
        ensures
            r@ == Seq::<Seq<u8>>::empty(),
    ;

    /// Appends `component` to the path, or leaves the path unchanged and
    /// reports the limit that the longer path would break.
    fn append(&mut self, component: Self::Component) -> (r: Result<(), InvalidPathError>)
        ensures
            match append_outcome(
                old(self)@,
                component@,
                Self::max_component_count(),
                Self::max_path_length(),
            ) {
                Ok(p) => r is Ok && final(self)@ == p,
                Err(e) => r == Err::<(), InvalidPathError>(e) && final(self)@ == old(self)@,
            },
            r is Ok <==> (old(self)@.len() + 1 <= Self::max_component_count() && total_length(
                old(self)@,
            ) + component@.len() <= Self::max_path_length()),
            r is Ok ==> final(self)@ == old(self)@.push(component@),
            r == Err::<(), InvalidPathError>(InvalidPathError::TooManyComponents) <==> old(
                self,
            )@.len() >= Self::max_component_count(),
            fits_limits(final(self)@, Self::max_component_count(), Self::max_path_length()),
    ;

    /// The components of the path, in order; each holds at most
    /// `MAX_COMPONENT_LENGTH` bytes, and together they respect the limits.
    fn components(&self) -> (r: &[Self::Component])
        ensures
            r@.map_values(|c: Self::Component| c@) == self@,
            fits_limits(self@, Self::max_component_count(), Self::max_path_length()),
            forall|i: int|
                0 <= i < self@.len() ==> #[trigger] self@[i].len() <= Self::max_component_length(),
    ;

    /// The path made of the first `length` components, or the whole path
    /// when it has fewer.
    fn prefix(&self, length: usize) -> (r: Self)
        ensures
            r@ == self@.take(min_nat(length as nat, self@.len()) as int),
            fits_limits(r@, Self::max_component_count(), Self::max_path_length()),
    {
        let comps = self.components();
        proof {
            Self::lemma_clone_keeps_bytes();
        }
        let ghost view = self@;
        if length == 0 {
            let r = Self::empty();
            assert(r@ =~= view.take(0));
            assert(total_length(r@) == 0);
            return r;
        }
        if length > comps.len() {
            let r = self.clone();
            assert(cloned(*self, r));
            assert(r@ =~= view.take(view.len() as int));
            return r;
        }
        let mut new_path = Self::empty();
        let mut i: usize = 0;
        while i < length
            invariant
                view == self@,
                comps@.map_values(|c: Self::Component| c@) == view,
                fits_limits(view, Self::max_component_count(), Self::max_path_length()),
                length <= view.len(),
                i <= length,
                new_path@ == view.take(i as int),
            decreases length - i,
        {
            proof {
                Self::lemma_clone_keeps_bytes();
                lemma_total_length_step(view, i as int);
                lemma_total_length_prefix(view, i + 1, view.len() as int);
                assert(view.take(i + 1) =~= view.take(i as int).push(view[i as int]));
                assert(comps@.map_values(|c: Self::Component| c@)[i as int] == comps@[i as int]@);
            }
            let component = comps[i].clone();
            proof {
                assert(cloned(comps@[i as int], component));
            }
            new_path.append(component).unwrap();
            i = i + 1;
        }
        proof {
            lemma_total_length_prefix(view, length as int, view.len() as int);
        }
        new_path
    }

    /// Every prefix of the path, from the empty one to the path itself, by
    /// increasing length.
    fn prefixes(&self) -> (r: Vec<Self>)
        ensures
            r@.len() == self@.len() + 1,
            forall|i: int| 0 <= i <= self@.len() ==> #[trigger] r@[i]@ == self@.take(i),
    {
        let self_len = self.components().len();
        let mut res: Vec<Self> = Vec::new();
        let mut i: usize = 0;
        loop
            invariant_except_break
                res@.len() == i,
                forall|k: int| 0 <= k < i ==> #[trigger] res@[k]@ == self@.take(k),
            invariant
                self_len == self@.len(),
                i <= self_len,
            ensures
                res@.len() == self_len + 1,
                forall|k: int| 0 <= k <= self_len ==> #[trigger] res@[k]@ == self@.take(k),
            decreases self_len - i,
        {
            res.push(self.prefix(i));
            if i == self_len {
                break;
            }
            i = i + 1;
        }
        res
    }

    /// Whether the path is a prefix of `other`.
    fn is_prefix_of(&self, other: &Self) -> (r: bool)
        ensures
            r == self@.is_prefix_of(other@),
    {
        let lcp = self.longest_common_prefix(other);
        proof {
            lemma_longest_common_prefix_len(lcp@, self@, other@);
        }
        lcp.components().len() == self.components().len()
    }

    /// Whether `other` is a prefix of the path.
    fn is_prefixed_by(&self, other: &Self) -> (r: bool)
        ensures
            r == other@.is_prefix_of(self@),
    {
        let lcp = self.longest_common_prefix(other);
        proof {
            lemma_longest_common_prefix_len(lcp@, self@, other@);
            lemma_longest_common_prefix_len(lcp@, other@, self@);
        }
        lcp.components().len() == other.components().len()
    }

    /// The longest path that is a prefix of both this path and `other`.
    fn longest_common_prefix(&self, other: &Self) -> (r: Self)
        ensures
            is_longest_common_prefix(r@, self@, other@),
            fits_limits(r@, Self::max_component_count(), Self::max_path_length()),
    {
        let a_comps = self.components();
        let b_comps = other.components();
        let ghost a = self@;
        let ghost b = other@;
        let n = if a_comps.len() <= b_comps.len() {
            a_comps.len()
        } else {
            b_comps.len()
        };
        let mut new_path = Self::empty();
        let mut i: usize = 0;
        loop
            invariant
                a == self@,
                b == other@,
                a_comps@.map_values(|c: Self::Component| c@) == a,
                b_comps@.map_values(|c: Self::Component| c@) == b,
                fits_limits(a, Self::max_component_count(), Self::max_path_length()),
                n == min_nat(a.len(), b.len()),
                i <= n,
                new_path@ == a.take(i as int),
                forall|k: int| 0 <= k < i ==> #[trigger] a[k] == b[k],
            ensures
                i == n || a[i as int] != b[i as int],
            decreases n - i,
        {
            if i >= n {
                break;
            }
            proof {
                Self::lemma_clone_keeps_bytes();
                assert(a_comps@.map_values(|c: Self::Component| c@)[i as int] == a_comps@[i as int]@);
                assert(b_comps@.map_values(|c: Self::Component| c@)[i as int] == b_comps@[i as int]@);
            }
            if !bytes_equal(Self::component_bytes(&a_comps[i]), Self::component_bytes(&b_comps[i])) {
                break;
            }
            proof {
                lemma_total_length_step(a, i as int);
                lemma_total_length_prefix(a, i + 1, a.len() as int);
                assert(a.take(i + 1) =~= a.take(i as int).push(a[i as int]));
            }
            let component = a_comps[i].clone();
            proof {
                assert(cloned(a_comps@[i as int], component));
            }
            new_path.append(component).unwrap();
            i = i + 1;
        }
        proof {
            assert(new_path@ =~= a.subrange(0, i as int));
            assert(new_path@ =~= b.subrange(0, i as int));
            lemma_total_length_prefix(a, i as int, a.len() as int);
        }
        new_path
    }
}

/// A path of at most `MCC` components, holding at most `MPL` bytes in total,
/// each component holding at most `MCL` bytes.
#[derive(Debug, PartialEq, Eq, PartialOrd, Ord)]
pub struct PathLocal<const MCL: usize, const MCC: usize, const MPL: usize>(
    Vec<PathComponentLocal<MCL>>,
);

impl<const MCL: usize, const MCC: usize, const MPL: usize> View for PathLocal<MCL, MCC, MPL> {
    type V = Seq<Seq<u8>>;

    closed spec fn view(&self) -> Seq<Seq<u8>> {
        self.0@.map_values(|c: PathComponentLocal<MCL>| c@)
    }
}

impl<const MCL: usize, const MCC: usize, const MPL: usize> PathLocal<MCL, MCC, MPL> {
    #[verifier::type_invariant]
    spec fn inv(self) -> bool {
        &&& fits_limits(self@, MCC as nat, MPL as nat)
        &&& forall|i: int| 0 <= i < self@.len() ==> #[trigger] self@[i].len() <= MCL
    }

    /// The number of bytes over all components.
    fn total_path_length(&self) -> (r: usize)
        ensures
            r == total_length(self@),
    {
        proof {
            use_type_invariant(self);
        }
        let ghost view = self@;
        let mut total: usize = 0;
        let mut i: usize = 0;
        while i < self.0.len()
            invariant
                view == self@,
                fits_limits(view, MCC as nat, MPL as nat),
                i <= view.len(),
                total == total_length(view.take(i as int)),
            decreases view.len() - i,
        {
            proof {
                lemma_total_length_step(view, i as int);
                lemma_total_length_prefix(view, i + 1, view.len() as int);
            }
            total = total + self.0[i].0.len();
            i = i + 1;
        }
        proof {
            lemma_total_length_prefix(view, 0, view.len() as int);
        }
        total
    }
}

impl<const MCL: usize, const MCC: usize, const MPL: usize> Clone for PathLocal<MCL, MCC, MPL> {
    fn clone(&self) -> (r: Self)
        ensures
            r@ == self@,
    {
        proof {
            use_type_invariant(self);
        }
        let mut comps: Vec<PathComponentLocal<MCL>> = Vec::new();
        let mut i: usize = 0;
        while i < self.0.len()
            invariant
                i <= self.0@.len(),
                comps@.len() == i,
                forall|k: int| 0 <= k < i ==> #[trigger] comps@[k]@ == self.0@[k]@,
            decreases self.0@.len() - i,
        {
            comps.push(self.0[i].clone());
            i = i + 1;
        }
        assert(comps@.map_values(|c: PathComponentLocal<MCL>| c@) =~= self@);
        PathLocal(comps)
    }
}

impl<const MCL: usize, const MCC: usize, const MPL: usize> Path for PathLocal<MCL, MCC, MPL> {
    type Component = PathComponentLocal<MCL>;

    const MAX_COMPONENT_LENGTH: usize = MCL;

    const MAX_COMPONENT_COUNT: usize = MCC;

    const MAX_PATH_LENGTH: usize = MPL;

    open spec fn max_component_length() -> nat {
        MCL as nat
    }

    open spec fn max_component_count() -> nat {
        MCC as nat
    }

    open spec fn max_path_length() -> nat {
        MPL as nat
    }

    proof fn lemma_limits() {
    }

    proof fn lemma_clone_keeps_bytes() {
        assert forall|a: PathComponentLocal<MCL>, b: PathComponentLocal<MCL>| #[trigger] cloned(a, b) implies a@ == b@ by {
            if vstd::pervasive::strictly_cloned(a, b) {
                assert(call_ensures(PathComponentLocal::<MCL>::clone, (&a,), b));
            }
        }
        assert forall|p: Self, q: Self| #[trigger] cloned(p, q) implies p@ == q@ by {
            if vstd::pervasive::strictly_cloned(p, q) {
                assert(call_ensures(Self::clone, (&p,), q));
            }
        }
    }

    fn new(components: &[PathComponentLocal<MCL>]) -> (r: Result<Self, InvalidPathError>) {
        let ghost comps = components@.map_values(|c: PathComponentLocal<MCL>| c@);
        let mut path = Self::empty();
        let mut i: usize = 0;
        while i < components.len()
            invariant
                comps == components@.map_values(|c: PathComponentLocal<MCL>| c@),
                i <= components@.len(),
                path@ == comps.take(i as int),
                fits_limits(path@, MCC as nat, MPL as nat),
            decreases components@.len() - i,
        {
            proof {
                use_type_invariant(&path);
                lemma_total_length_step(comps, i as int);
            }
            let res = path.append(components[i].clone());
            match res {
                Ok(()) => {},
                Err(e) => {
                    proof {
                        let n = min_nat(comps.len(), MCC as nat) as int;
                        if i >= MCC {
                            assert(comps.take(n) =~= comps.take(i as int));
                        } else {
                            lemma_total_length_prefix(comps, i + 1, n);
                        }
                        if MCC < comps.len() {
                            lemma_total_length_prefix(comps, 0, MCC as int);
                        }
                    }
                    return Err(e);
                },
            }
            proof {
                assert(comps.take(i + 1) =~= comps.take(i as int).push(comps[i as int]));
            }
            i = i + 1;
        }
        proof {
            assert(comps.take(i as int) =~= comps);
        }
        Ok(path)
    }

    fn empty() -> (r: Self) {
        let r = PathLocal(Vec::new());
        assert(r@ =~= Seq::<Seq<u8>>::empty());
        r
    }

    fn append(&mut self, component: PathComponentLocal<MCL>) -> (r: Result<(), InvalidPathError>) {
        proof {
            use_type_invariant(&*self);
        }
        let total_component_count = self.0.len();
        if total_component_count >= MCC {
            return Err(InvalidPathError::TooManyComponents);
        }
        let total_path_length = self.total_path_length();
        if component.0.len() > MPL - total_path_length {
            return Err(InvalidPathError::PathTooLong);
        }
        proof {
            use_type_invariant(&component);
        }
        let ghost before = self@;
        let mut comps: Vec<PathComponentLocal<MCL>> = Vec::new();
        std::mem::swap(&mut comps, &mut self.0);
        comps.push(component);
        proof {
            assert(comps@.map_values(|c: PathComponentLocal<MCL>| c@) =~= before.push(component@));
            assert(before.push(component@).drop_last() =~= before);
        }
        self.0 = comps;
        proof {
            use_type_invariant(&*self);
        }
        Ok(())
    }

    fn component_bytes(component: &PathComponentLocal<MCL>) -> (r: &[u8]) {
        component.as_ref()
    }

    fn components(&self) -> (r: &[PathComponentLocal<MCL>]) {
        proof {
            use_type_invariant(self);
            assert(Self::max_component_length() == MCL);
            assert forall|i: int| 0 <= i < self@.len() implies #[trigger] self@[i].len() <= Self::max_component_length() by {
                assert(self@[i].len() <= MCL);
            }
        }
        self.0.as_slice()
    }

}

} // verus!
