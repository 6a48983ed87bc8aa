use vstd::prelude::*;
use vstd::std_specs::cmp::OrdSpec;

verus! {

/// An ordering strategy: `less(a, b)` decides whether `a` has strictly
/// higher priority than `b`, so that `a` should end up closer to the root.
///
/// The strategy must be pure and stateless: the spec function `less_spec`
/// is its mathematical meaning, and whenever `obeys` holds, every call of
/// `less` agrees with `less_spec`.
pub trait Compare<T>: Sized {
    /// The mathematical relation that `less` computes.
    spec fn less_spec(&self, a: T, b: T) -> bool;

    /// Whether `less` may be invoked on every pair of elements.
    spec fn callable(&self) -> bool;

    /// Whether calls of `less` are known to agree with `less_spec`.
    spec fn obeys(&self) -> bool;

    /// Decide whether `a` has strictly higher priority than `b`.
    fn less(&self, a: &T, b: &T) -> (r: bool)
        requires
            self.callable(),
        ensures
            self.obeys() ==> r == self.less_spec(*a, *b),
    ;
}

/// A strict weak ordering: asymmetric, transitive, and with a transitive
/// complement. Every natural total order satisfies this, as does its
/// reversal. A strategy whose relation is not of this shape leaves the
/// container's ordering guarantees void, though every operation still
/// runs and keeps the same elements.
pub open spec fn consistent<T, C: Compare<T>>(c: C) -> bool {
    &&& forall|a: T, b: T| #[trigger] c.less_spec(a, b) ==> !c.less_spec(b, a)
    &&& forall|a: T, b: T, x: T|
        #![trigger c.less_spec(a, b), c.less_spec(b, x)]
        c.less_spec(a, b) && c.less_spec(b, x) ==> c.less_spec(a, x)
    &&& forall|a: T, b: T, x: T|
        #![trigger c.less_spec(a, b), c.less_spec(b, x)]
        !c.less_spec(a, b) && !c.less_spec(b, x) ==> !c.less_spec(a, x)
}

/// The default strategy: the element type's natural total order,
/// `a` preceding `b` exactly when `a.cmp(b)` is `Less`.
pub struct NaturalLess;

impl<T: Ord> Compare<T> for NaturalLess {
    open spec fn less_spec(&self, a: T, b: T) -> bool {
        a.cmp_spec(&b) == core::cmp::Ordering::Less
    }

    open spec fn callable(&self) -> bool {
        true
    }

    open spec fn obeys(&self) -> bool {
        T::obeys_cmp_spec()
    }

    fn less(&self, a: &T, b: &T) -> (r: bool) {
        match a.cmp(b) {
            core::cmp::Ordering::Less => true,
            _ => false,
        }
    }
}

/// The function decides the relation: whatever answer a call on a pair
/// may give equals the relation on that pair.
pub open spec fn decides<T, F: Fn(&T, &T) -> bool>(f: F, p: spec_fn(T, T) -> bool) -> bool {
    forall|a: &T, b: &T, r: bool| #[trigger] call_ensures(f, (a, b), r) ==> r == p(*a, *b)
}

/// A strategy given as a plain function value, as handed to `new_cmp`:
/// `less` calls the function, and the ghost relation beside it is the
/// strategy's meaning. The two agree (`obeys`) exactly when the function
/// decides the relation, and the strategy may be invoked only when the
/// function accepts every pair (`callable`).
#[verifier::reject_recursive_types(T)]
pub struct FnLess<T, F>(pub F, pub Ghost<spec_fn(T, T) -> bool>);

impl<T, F: Fn(&T, &T) -> bool> Compare<T> for FnLess<T, F> {
    open spec fn less_spec(&self, a: T, b: T) -> bool {
        (self.1@)(a, b)
    }

    open spec fn callable(&self) -> bool {
        forall|a: &T, b: &T| #[trigger] call_requires(self.0, (a, b))
    }

    open spec fn obeys(&self) -> bool {
        decides(self.0, self.1@)
    }

    fn less(&self, a: &T, b: &T) -> (r: bool) {
        (self.0)(a, b)
    }
}

/// Wrap a plain function as a strategy, taking as its relation whichever
/// relation the function decides, where it decides one.
pub fn fn_less<T, F: Fn(&T, &T) -> bool>(f: F) -> (r: FnLess<T, F>)
    ensures
        r.0 == f,
        forall|p: spec_fn(T, T) -> bool| #[trigger] decides(f, p) ==> r.obeys(),
{
    let rel: Ghost<spec_fn(T, T) -> bool> = Ghost(choose|p: spec_fn(T, T) -> bool| decides(f, p));
    FnLess(f, rel)
}

/// What the relation of a function strategy is: the ghost relation it
/// was built with.
pub proof fn lemma_fn_less_spec<T, F: Fn(&T, &T) -> bool>(c: FnLess<T, F>, a: T, b: T)
    ensures
        c.less_spec(a, b) == (c.1@)(a, b),
{
}

/// A function strategy whose function accepts every pair may be invoked
/// on every pair.
pub proof fn lemma_fn_less_callable<T, F: Fn(&T, &T) -> bool>(c: FnLess<T, F>)
    requires
        forall|a: &T, b: &T| #[trigger] call_requires(c.0, (a, b)),
    ensures
        c.callable(),
{
}

/// A function strategy agrees with its relation when the function
/// decides that relation.
pub proof fn lemma_fn_less_obeys<T, F: Fn(&T, &T) -> bool>(c: FnLess<T, F>)
    requires
        decides(c.0, c.1@),
    ensures
        c.obeys(),
{
}

/// A function strategy is consistent when its relation is a strict weak
/// ordering.
pub proof fn lemma_fn_less_consistent<T, F: Fn(&T, &T) -> bool>(c: FnLess<T, F>)
    requires
        forall|a: T, b: T| #[trigger] (c.1@)(a, b) ==> !(c.1@)(b, a),
        forall|a: T, b: T, x: T|
            #![trigger (c.1@)(a, b), (c.1@)(b, x)]
            (c.1@)(a, b) && (c.1@)(b, x) ==> (c.1@)(a, x),
        forall|a: T, b: T, x: T|
            #![trigger (c.1@)(a, b), (c.1@)(b, x)]
            !(c.1@)(a, b) && !(c.1@)(b, x) ==> !(c.1@)(a, x),
    ensures
        consistent(c),
{
}

} // verus!
