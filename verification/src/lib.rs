pub mod order;

use vstd::prelude::*;

use crate::order::{consistent, Compare, NaturalLess};

verus! {

/// A priority container: a growable sequence arranged as an implicit
/// binary tree in array order (the children of index `i` sit at
/// `2 * i + 1` and `2 * i + 2`), kept so that no element ever ranks
/// strictly above its parent under the container's ordering strategy.
pub struct BinHeap<T, C = NaturalLess> {
    vec: Vec<T>,
    cmp: C,
}

/// The heap shape itself: no element at a non-root index ranks
/// strictly above the element at its parent index.
pub open spec fn heap_ordered<T, C: Compare<T>>(c: C, s: Seq<T>) -> bool {
    forall|i: int| 1 <= i < s.len() ==> !c.less_spec(#[trigger] s[i], s[(i - 1) / 2])
}

/// `s` with the elements at `a` and `b` exchanged.
pub open spec fn swapped<T>(s: Seq<T>, a: int, b: int) -> Seq<T> {
    s.update(a, s[b]).update(b, s[a])
}

/// The exact climb of sift-up from index `i`: compare the element with
/// its parent, exchange the two when the element ranks strictly above,
/// and continue from the parent's slot either way, up to the root.
/// Elements away from the climbed path keep their places.
pub open spec fn sift_up_spec<T, C: Compare<T>>(c: C, s: Seq<T>, i: int) -> Seq<T>
    decreases i,
{
    if i <= 0 {
        s
    } else {
        let t = if c.less_spec(s[i], s[(i - 1) / 2]) {
            swapped(s, (i - 1) / 2, i)
        } else {
            s
        };
        sift_up_spec(c, t, (i - 1) / 2)
    }
}

/// The exact descent of sift-down from index `i`: among the slot's
/// children, the candidate is the left one only when it ranks strictly
/// above the right one — on an even match the right child is the
/// candidate. While the candidate ranks strictly above the slot, the two
/// are exchanged and the descent continues from the candidate's slot;
/// otherwise it stops there. Elements away from the descended path keep
/// their places.
pub open spec fn sift_down_spec<T, C: Compare<T>>(c: C, s: Seq<T>, i: int) -> Seq<T>
    decreases s.len() - i,
{
    if i < 0 || 2 * i + 1 >= s.len() {
        s
    } else {
        let l = 2 * i + 1;
        let r = 2 * i + 2;
        let ch = if r < s.len() && !c.less_spec(s[l], s[r]) {
            r
        } else {
            l
        };
        if c.less_spec(s[ch], s[i]) {
            sift_down_spec(c, swapped(s, i, ch), ch)
        } else {
            s
        }
    }
}

/// The heap shape with one possible flaw on the way up: the element at
/// `e` may rank above its parent. While sift-up climbs, it additionally
/// keeps the children of `e` below the parent of `e`, so that a swap at
/// `e` leaves those children in place.
spec fn heap_ordered_but_up<T, C: Compare<T>>(c: C, s: Seq<T>, e: int) -> bool {
    &&& 0 <= e < s.len()
    &&& forall|i: int|
        1 <= i < s.len() && i != e ==> !c.less_spec(#[trigger] s[i], s[(i - 1) / 2])
    &&& e > 0 ==> forall|i: int|
        1 <= i < s.len() && (i - 1) / 2 == e ==> !c.less_spec(#[trigger] s[i], s[(e - 1) / 2])
}

/// Each non-root index has its parent strictly below it, and is one of
/// that parent's two child slots.
proof fn lemma_parent_child(i: int)
    requires
        1 <= i,
    ensures
        0 <= (i - 1) / 2 < i,
        i == 2 * ((i - 1) / 2) + 1 || i == 2 * ((i - 1) / 2) + 2,
{
    assert(0 <= (i - 1) / 2 < i && (i == 2 * ((i - 1) / 2) + 1 || i == 2 * ((i - 1) / 2) + 2))
        by (nonlinear_arith)
        requires 1 <= i;
}

/// Exchanging two elements keeps the length and the multiset of elements.
proof fn lemma_swapped_multiset<T>(s: Seq<T>, a: int, b: int)
    requires
        0 <= a < s.len(),
        0 <= b < s.len(),
    ensures
        swapped(s, a, b).len() == s.len(),
        swapped(s, a, b).to_multiset() == s.to_multiset(),
{
    broadcast use vstd::seq_lib::group_to_multiset_ensures;
    broadcast use vstd::multiset::group_multiset_axioms;
    broadcast use vstd::multiset::group_multiset_properties;

    if a == b {
        assert(swapped(s, a, b) =~= s);
    } else {
        let t = s.update(a, s[b]);
        assert(t.to_multiset() == s.to_multiset().insert(s[b]).remove(s[a]));
        assert(t[b] == s[b]);
        assert(t.update(b, s[a]).to_multiset() == t.to_multiset().insert(s[a]).remove(s[b]));
        assert(s.to_multiset().insert(s[b]).remove(s[a]).insert(s[a]).remove(s[b]) =~= s
            .to_multiset()) by {
            assert(s.to_multiset().contains(s[a]));
            assert(s.to_multiset().contains(s[b]));
        }
    }
}

/// One climbing step of sift-up where the element at `i` ranks above its
/// parent: after the exchange, the possible flaw sits at the parent.
proof fn lemma_sift_up_swap<T, C: Compare<T>>(c: C, s: Seq<T>, i: int)
    requires
        consistent(c),
        1 <= i < s.len(),
        heap_ordered_but_up(c, s, i),
        c.less_spec(s[i], s[(i - 1) / 2]),
    ensures
        heap_ordered_but_up(c, swapped(s, (i - 1) / 2, i), (i - 1) / 2),
{
    let p = (i - 1) / 2;
    let t = swapped(s, p, i);
    lemma_parent_child(i);
    assert forall|j: int| 1 <= j < t.len() && j != p implies !c.less_spec(
        #[trigger] t[j],
        t[(j - 1) / 2],
    ) by {
        lemma_parent_child(j);
        if j == i {
            assert(t[j] == s[p] && t[p] == s[i]);
        } else if (j - 1) / 2 == i {
            assert(t[j] == s[j] && t[i] == s[p]);
        } else if (j - 1) / 2 == p {
            assert(t[j] == s[j] && t[p] == s[i]);
        } else {
            assert(t[j] == s[j] && t[(j - 1) / 2] == s[(j - 1) / 2]);
        }
    }
    if p > 0 {
        assert forall|j: int| 1 <= j < t.len() && (j - 1) / 2 == p implies !c.less_spec(
            #[trigger] t[j],
            t[(p - 1) / 2],
        ) by {
            lemma_parent_child(j);
            lemma_parent_child(p);
            if j == i {
                assert(t[j] == s[p]);
            } else {
                assert(t[j] == s[j]);
            }
        }
    }
}

/// The child slots of index `p` are `2 * p + 1` and `2 * p + 2`.
proof fn lemma_child_index(p: int)
    requires
        0 <= p,
    ensures
        (2 * p + 1 - 1) / 2 == p,
        (2 * p + 2 - 1) / 2 == p,
{
    assert((2 * p + 1 - 1) / 2 == p && (2 * p + 2 - 1) / 2 == p) by (nonlinear_arith)
        requires 0 <= p;
}

/// Halving an index, doubled back, loses at most one.
proof fn lemma_half(n: int)
    requires
        0 <= n,
    ensures
        n - 1 <= 2 * (n / 2) <= n,
{
    assert(n - 1 <= 2 * (n / 2) <= n) by (nonlinear_arith)
        requires 0 <= n;
}

/// The heap shape with one possible flaw on the way down: the children
/// of `e` may rank above the element at `e`. While sift-down descends,
/// it additionally keeps the children of `e` below the parent of `e`,
/// so that a swap at `e` leaves the grandparent relation intact.
spec fn heap_ordered_but_down<T, C: Compare<T>>(c: C, s: Seq<T>, e: int) -> bool {
    &&& 0 <= e
    &&& forall|i: int|
        1 <= i < s.len() && (i - 1) / 2 != e ==> !c.less_spec(#[trigger] s[i], s[(i - 1) / 2])
    &&& e > 0 ==> forall|i: int|
        1 <= i < s.len() && (i - 1) / 2 == e ==> !c.less_spec(#[trigger] s[i], s[(e - 1) / 2])
}

/// One descending step of sift-down: the chosen child `ch` of `e` ranks
/// above `e` and no sibling ranks above `ch`; after the exchange, the
/// possible flaw sits at `ch`.
proof fn lemma_sift_down_swap<T, C: Compare<T>>(c: C, s: Seq<T>, e: int, ch: int)
    requires
        consistent(c),
        heap_ordered_but_down(c, s, e),
        0 <= e,
        1 <= ch < s.len(),
        (ch - 1) / 2 == e,
        c.less_spec(s[ch], s[e]),
        forall|o: int|
            1 <= o < s.len() && (o - 1) / 2 == e && o != ch ==> !c.less_spec(#[trigger] s[o], s[ch]),
    ensures
        heap_ordered_but_down(c, swapped(s, e, ch), ch),
{
    let t = swapped(s, e, ch);
    lemma_parent_child(ch);
    assert forall|j: int| 1 <= j < t.len() && (j - 1) / 2 != ch implies !c.less_spec(
        #[trigger] t[j],
        t[(j - 1) / 2],
    ) by {
        lemma_parent_child(j);
        if j == ch {
            assert(t[j] == s[e] && t[e] == s[ch]);
        } else if (j - 1) / 2 == e {
            assert(t[j] == s[j] && t[e] == s[ch]);
        } else if j == e {
            assert(t[j] == s[ch] && t[(j - 1) / 2] == s[(j - 1) / 2]);
        } else {
            assert(t[j] == s[j] && t[(j - 1) / 2] == s[(j - 1) / 2]);
        }
    }
    assert forall|j: int| 1 <= j < t.len() && (j - 1) / 2 == ch implies !c.less_spec(
        #[trigger] t[j],
        t[(ch - 1) / 2],
    ) by {
        lemma_parent_child(j);
        assert(t[j] == s[j] && t[e] == s[ch]);
    }
}

/// Sift-down may stop: when no child of `e` ranks above `e`, the one
/// possible flaw is absent and the heap shape holds everywhere.
proof fn lemma_sift_down_done<T, C: Compare<T>>(c: C, s: Seq<T>, e: int)
    requires
        heap_ordered_but_down(c, s, e),
        forall|o: int|
            1 <= o < s.len() && (o - 1) / 2 == e ==> !c.less_spec(#[trigger] s[o], s[e]),
    ensures
        heap_ordered(c, s),
{
}

/// One climbing step of sift-up where the element at `i` stays put: the
/// possible flaw still moves to the parent, which already dominated `i`.
proof fn lemma_sift_up_pass<T, C: Compare<T>>(c: C, s: Seq<T>, i: int)
    requires
        consistent(c),
        1 <= i < s.len(),
        heap_ordered_but_up(c, s, i),
        !c.less_spec(s[i], s[(i - 1) / 2]),
    ensures
        heap_ordered_but_up(c, s, (i - 1) / 2),
{
    let p = (i - 1) / 2;
    lemma_parent_child(i);
    if p > 0 {
        lemma_parent_child(p);
        assert forall|j: int| 1 <= j < s.len() && (j - 1) / 2 == p implies !c.less_spec(
            #[trigger] s[j],
            s[(p - 1) / 2],
        ) by {
            lemma_parent_child(j);
        }
    }
}

/// The heap shape never lets an element rank above the root: whatever
/// index an element sits at, it never has strictly higher priority than
/// the element at index zero, so the root is always of maximal priority.
pub proof fn lemma_top_has_highest_priority<T, C: Compare<T>>(c: C, s: Seq<T>, i: int)
    requires
        consistent(c),
        heap_ordered(c, s),
        0 <= i < s.len(),
    ensures
        !c.less_spec(s[i], s[0]),
    decreases i,
{
    if i > 0 {
        lemma_parent_child(i);
        lemma_top_has_highest_priority(c, s, (i - 1) / 2);
    }
}

/// Extraction never ascends: whatever still remains after the root of a
/// well-shaped heap is taken out ranks no higher than that root. Since
/// each removal leaves the remaining elements a well-shaped heap again,
/// repeated removal hands the elements out in priority-descending order.
pub proof fn lemma_removal_order_descends<T, C: Compare<T>>(c: C, s: Seq<T>, t: Seq<T>, x: T)
    requires
        consistent(c),
        heap_ordered(c, s),
        s.len() > 0,
        t.to_multiset() == s.to_multiset().remove(s[0]),
        t.to_multiset().contains(x),
    ensures
        !c.less_spec(x, s[0]),
{
    broadcast use vstd::seq_lib::group_to_multiset_ensures;
    broadcast use vstd::multiset::group_multiset_axioms;

    assert(s.to_multiset().contains(x));
    assert(s.contains(x));
    let j = choose|j: int| 0 <= j < s.len() && s[j] == x;
    lemma_top_has_highest_priority(c, s, j);
}

/// With pairwise-distinct elements and a strategy that ranks every two
/// distinct elements one way or the other, extraction strictly descends:
/// the root strictly precedes whatever element remains after it is taken
/// out.
pub proof fn lemma_removal_order_strictly_descends<T, C: Compare<T>>(c: C, s: Seq<T>, t: Seq<T>, x: T)
    requires
        consistent(c),
        forall|a: T, b: T| a != b ==> #[trigger] c.less_spec(a, b) || #[trigger] c.less_spec(b, a),
        heap_ordered(c, s),
        s.no_duplicates(),
        s.len() > 0,
        t.to_multiset() == s.to_multiset().remove(s[0]),
        t.to_multiset().contains(x),
    ensures
        c.less_spec(s[0], x),
{
    broadcast use vstd::seq_lib::group_to_multiset_ensures;
    broadcast use vstd::multiset::group_multiset_axioms;

    lemma_removal_order_descends(c, s, t, x);
    s.lemma_multiset_has_no_duplicates();
    assert(s.to_multiset().contains(s[0]));
    assert(x != s[0]);
}

impl<T, C> View for BinHeap<T, C> {
    type V = Seq<T>;

    /// The elements in implicit-tree array order.
    closed spec fn view(&self) -> Seq<T> {
        self.vec@
    }
}

impl<T, C: Compare<T>> BinHeap<T, C> {
    /// The container's ordering strategy.
    pub closed spec fn order(self) -> C {
        self.cmp
    }

    /// The strategy both agrees with its own relation and that relation
    /// is a strict weak ordering: under this, and only this, the
    /// container's ordering guarantees hold.
    pub open spec fn order_ok(self) -> bool {
        self.order().obeys() && consistent(self.order())
    }

    /// The heap shape holds of the stored elements.
    pub open spec fn ordered(self) -> bool {
        heap_ordered(self.order(), self@)
    }

    /// Create an empty container over a caller-supplied ordering strategy.
    pub fn new_cmp(f: C) -> (r: Self)
        ensures
            r@ == Seq::<T>::empty(),
            r.order() == f,
    {
        BinHeap { vec: Vec::new(), cmp: f }
    }

    /// Create an empty container over a caller-supplied ordering strategy.
    /// with storage pre-reserved for `cap` elements. The capacity is a
    /// performance hint only; the container grows past it freely.
    pub fn with_capacity_cmp(cap: usize, f: C) -> (r: Self)
        ensures
            r@ == Seq::<T>::empty(),
            r.order() == f,
    {
        BinHeap { vec: Vec::with_capacity(cap), cmp: f }
    }

    /// The number of stored elements.
    pub fn len(&self) -> (r: usize)
        ensures
            r == self@.len(),
    {
        self.vec.len()
    }

    /// Whether the container holds no element.
    pub fn is_empty(&self) -> (r: bool)
        ensures
            r == (self@.len() == 0),
    {
        self.vec.is_empty()
    }

    /// Give up the container, handing back its elements in implicit-tree
    /// array order — not sorted order.
    pub fn into_vec(self) -> (r: Vec<T>)
        ensures
            r@ == self@,
    {
        self.vec
    }

    /// The element of highest priority, or nothing when empty.
    /// The container is left unchanged.
    pub fn peek(&self) -> (r: Option<&T>)
        ensures
            match r {
                Option::None => self@.len() == 0,
                Option::Some(x) => self@.len() > 0 && *x == self@[0],
            },
    {
        if self.vec.is_empty() {
            None
        } else {
            Some(&self.vec[0])
        }
    }
}

/// Relies on `<[T]>::swap`: it exchanges the slice's elements at the two
/// given indices, and panics only when an index is out of bounds.
#[verifier::external_body]
fn swap_cells<T>(v: &mut Vec<T>, a: usize, b: usize)
    requires
        a < old(v)@.len(),
        b < old(v)@.len(),
    ensures
        final(v)@ == swapped(old(v)@, a as int, b as int),
{
    v.swap(a, b);
}

impl<T, C: Compare<T>> BinHeap<T, C> {
    /// Append `entry` at the end of the sequence, then repair the heap
    /// shape by sifting it up toward the root.
    pub fn push(&mut self, entry: T)
        requires
            old(self).order().callable(),
        ensures
            final(self).order() == old(self).order(),
            final(self)@.len() == old(self)@.len() + 1,
            final(self)@.to_multiset() == old(self)@.to_multiset().insert(entry),
            old(self).order().obeys() ==> final(self)@ == sift_up_spec(
                old(self).order(),
                old(self)@.push(entry),
                old(self)@.len() as int,
            ),
            old(self).order_ok() && old(self).ordered() ==> final(self).ordered(),
    {
        let idx = self.vec.len();
        self.vec.push(entry);
        proof {
            broadcast use vstd::seq_lib::group_to_multiset_ensures;

            assert(self@ == old(self)@.push(entry));
            assert(self@.to_multiset() == old(self)@.to_multiset().insert(entry));
            if old(self).order_ok() && old(self).ordered() {
                assert forall|i: int| 1 <= i < self@.len() && i != idx implies !self
                    .order()
                    .less_spec(#[trigger] self@[i], self@[(i - 1) / 2]) by {
                    lemma_parent_child(i);
                    assert(self@[i] == old(self)@[i]);
                    assert(self@[(i - 1) / 2] == old(self)@[(i - 1) / 2]);
                }
                assert forall|i: int|
                    1 <= i < self@.len() && (i - 1) / 2 == idx implies !self.order().less_spec(
                    #[trigger] self@[i],
                    self@[(idx - 1) / 2],
                ) by {
                    lemma_parent_child(i);
                }
                assert(heap_ordered_but_up(self.order(), self@, idx as int));
            }
        }
        self.sift_up(idx);
    }

    /// Remove and return the element of highest priority — the root —
    /// or nothing when the container is empty. The last element takes
    /// the root's place and is sifted down until the heap shape holds
    /// again. When the two children of a slot rank as equal, the right
    /// one is preferred on the way down.
    pub fn pop(&mut self) -> (r: Option<T>)
        requires
            old(self).order().callable(),
        ensures
            final(self).order() == old(self).order(),
            old(self)@.len() == 0 ==> r is None && final(self)@ == old(self)@,
            old(self)@.len() > 0 ==> {
                &&& r == Some(old(self)@[0])
                &&& final(self)@.len() == old(self)@.len() - 1
                &&& final(self)@.to_multiset() == old(self)@.to_multiset().remove(old(self)@[0])
                &&& old(self).order().obeys() ==> final(self)@ == sift_down_spec(
                    old(self).order(),
                    swapped(old(self)@, 0, old(self)@.len() - 1).drop_last(),
                    0,
                )
                &&& old(self).order_ok() && old(self).ordered() ==> final(self).ordered()
            },
            old(self).order_ok() && old(self).ordered() ==> forall|i: int|
                0 <= i < old(self)@.len() ==> !old(self).order().less_spec(
                    #[trigger] old(self)@[i],
                    old(self)@[0],
                ),
    {
        match self.len() {
            0 => None,
            _ => {
                proof {
                    if old(self).order_ok() && old(self).ordered() {
                        assert forall|i: int| 0 <= i < old(self)@.len() implies !old(self)
                            .order()
                            .less_spec(#[trigger] old(self)@[i], old(self)@[0]) by {
                            lemma_top_has_highest_priority(old(self).order(), old(self)@, i);
                        }
                    }
                }
                let len = self.len() - 1;
                swap_cells(&mut self.vec, 0, len);
                let ret = self.vec.swap_remove(len);
                proof {
                    broadcast use vstd::seq_lib::group_to_multiset_ensures;

                    let s = old(self)@;
                    let s1 = swapped(s, 0, len as int);
                    lemma_swapped_multiset(s, 0, len as int);
                    assert(s1.update(len as int, s1.last()) =~= s1);
                    assert(self@ =~= s1.remove(len as int));
                    assert(self@ =~= s1.drop_last());
                    assert(self@.to_multiset() == s.to_multiset().remove(s[0]));
                    if old(self).order_ok() && old(self).ordered() {
                        assert forall|i: int|
                            1 <= i < self@.len() && (i - 1) / 2 != 0 implies !self
                            .order()
                            .less_spec(#[trigger] self@[i], self@[(i - 1) / 2]) by {
                            lemma_parent_child(i);
                            assert(self@[i] == s[i]);
                            assert(self@[(i - 1) / 2] == s[(i - 1) / 2]);
                        }
                        assert(heap_ordered_but_down(self.order(), self@, 0));
                    }
                }
                self.sift_down();
                Some(ret)
            },
        }
    }

    /// Descend from the root, exchanging the slot with whichever of its
    /// children ranks highest while that child ranks above the slot,
    /// preferring the right child on an even match.
    fn sift_down(&mut self)
        requires
            old(self).order().callable(),
        ensures
            final(self).order() == old(self).order(),
            final(self)@.len() == old(self)@.len(),
            final(self)@.to_multiset() == old(self)@.to_multiset(),
            old(self).order().obeys() ==> final(self)@ == sift_down_spec(
                old(self).order(),
                old(self)@,
                0,
            ),
            old(self).order().obeys() && consistent(old(self).order()) && heap_ordered_but_down(
                old(self).order(),
                old(self)@,
                0,
            ) ==> final(self).ordered(),
    {
        let mut idx: usize = 0;
        let end = self.vec.len();
        while idx < end / 2
            invariant
                self.order() == old(self).order(),
                old(self).order().callable(),
                end == self@.len(),
                self@.len() == old(self)@.len(),
                self@.to_multiset() == old(self)@.to_multiset(),
                idx <= end,
                old(self).order().obeys() ==> sift_down_spec(old(self).order(), old(self)@, 0)
                    == sift_down_spec(self.order(), self@, idx as int),
                old(self).order().obeys() && consistent(old(self).order())
                    && heap_ordered_but_down(old(self).order(), old(self)@, 0)
                    ==> heap_ordered_but_down(self.order(), self@, idx as int),
            ensures
                self.order() == old(self).order(),
                end == self@.len(),
                self@.len() == old(self)@.len(),
                self@.to_multiset() == old(self)@.to_multiset(),
                old(self).order().obeys() ==> self@ == sift_down_spec(
                    old(self).order(),
                    old(self)@,
                    0,
                ) || (idx >= end / 2 && sift_down_spec(old(self).order(), old(self)@, 0)
                    == sift_down_spec(self.order(), self@, idx as int)),
                old(self).order().obeys() && consistent(old(self).order())
                    && heap_ordered_but_down(old(self).order(), old(self)@, 0)
                    ==> heap_ordered(self.order(), self@) || (idx >= end / 2
                    && heap_ordered_but_down(self.order(), self@, idx as int)),
            decreases end - idx,
        {
            proof {
                lemma_half(end as int);
            }
            let left = 2 * idx + 1;
            let right = left + 1;
            let child = if right < end {
                if self.cmp.less(&self.vec[left], &self.vec[right]) {
                    left
                } else {
                    right
                }
            } else {
                left
            };
            proof {
                lemma_child_index(idx as int);
                let c = self.order();
                let s = self@;
                if c.obeys() && consistent(c) {
                    assert forall|o: int|
                        1 <= o < s.len() && (o - 1) / 2 == idx && o != child implies !c.less_spec(
                        #[trigger] s[o],
                        s[child as int],
                    ) by {
                        lemma_parent_child(o);
                    }
                }
            }
            if self.cmp.less(&self.vec[child], &self.vec[idx]) {
                proof {
                    let c = self.order();
                    let s = self@;
                    lemma_swapped_multiset(s, idx as int, child as int);
                    if c.obeys() {
                        assert(sift_down_spec(c, s, idx as int) == sift_down_spec(
                            c,
                            swapped(s, idx as int, child as int),
                            child as int,
                        ));
                        if consistent(c) && heap_ordered_but_down(c, old(self)@, 0) {
                            lemma_sift_down_swap(c, s, idx as int, child as int);
                        }
                    }
                }
                swap_cells(&mut self.vec, idx, child);
                idx = child;
            } else {
                proof {
                    let c = self.order();
                    let s = self@;
                    if c.obeys() {
                        assert(sift_down_spec(c, s, idx as int) == s);
                        if consistent(c) && heap_ordered_but_down(c, old(self)@, 0) {
                            assert forall|o: int|
                                1 <= o < s.len() && (o - 1) / 2 == idx implies !c.less_spec(
                                #[trigger] s[o],
                                s[idx as int],
                            ) by {
                                lemma_parent_child(o);
                            }
                            lemma_sift_down_done(c, s, idx as int);
                        }
                    }
                }
                break ;
            }
        }
        proof {
            let c = old(self).order();
            let s = self@;
            if c.obeys() {
                if s != sift_down_spec(c, old(self)@, 0) {
                    lemma_half(end as int);
                    assert(sift_down_spec(c, s, idx as int) == s);
                }
                if consistent(c) && heap_ordered_but_down(c, old(self)@, 0) && !heap_ordered(
                    c,
                    s,
                ) {
                    lemma_half(end as int);
                    assert forall|o: int|
                        1 <= o < s.len() && (o - 1) / 2 == idx implies !c.less_spec(
                        #[trigger] s[o],
                        s[idx as int],
                    ) by {
                        lemma_parent_child(o);
                    }
                    lemma_sift_down_done(c, s, idx as int);
                }
            }
        }
    }

    /// Climb from `start` toward the root, exchanging any element that
    /// ranks above its parent, until the root is reached.
    fn sift_up(&mut self, start: usize)
        requires
            old(self).order().callable(),
            start < old(self)@.len(),
        ensures
            final(self).order() == old(self).order(),
            final(self)@.len() == old(self)@.len(),
            final(self)@.to_multiset() == old(self)@.to_multiset(),
            old(self).order().obeys() ==> final(self)@ == sift_up_spec(
                old(self).order(),
                old(self)@,
                start as int,
            ),
            old(self).order().obeys() && consistent(old(self).order()) && heap_ordered_but_up(
                old(self).order(),
                old(self)@,
                start as int,
            ) ==> final(self).ordered(),
    {
        let mut idx = start;
        while idx > 0
            invariant
                self.order() == old(self).order(),
                old(self).order().callable(),
                idx < self@.len(),
                self@.len() == old(self)@.len(),
                self@.to_multiset() == old(self)@.to_multiset(),
                old(self).order().obeys() ==> sift_up_spec(
                    old(self).order(),
                    old(self)@,
                    start as int,
                ) == sift_up_spec(self.order(), self@, idx as int),
                old(self).order().obeys() && consistent(old(self).order())
                    && heap_ordered_but_up(old(self).order(), old(self)@, start as int)
                    ==> heap_ordered_but_up(self.order(), self@, idx as int),
            decreases idx,
        {
            let parent = (idx - 1) / 2;
            proof {
                lemma_parent_child(idx as int);
            }
            if self.cmp.less(&self.vec[idx], &self.vec[parent]) {
                proof {
                    let c = self.order();
                    let s = self@;
                    lemma_swapped_multiset(s, parent as int, idx as int);
                    if c.obeys() {
                        assert(sift_up_spec(c, s, idx as int) == sift_up_spec(
                            c,
                            swapped(s, parent as int, idx as int),
                            parent as int,
                        ));
                        if consistent(c) && heap_ordered_but_up(c, old(self)@, start as int) {
                            lemma_sift_up_swap(c, s, idx as int);
                        }
                    }
                }
                swap_cells(&mut self.vec, parent, idx);
            } else {
                proof {
                    let c = self.order();
                    if c.obeys() {
                        assert(sift_up_spec(c, self@, idx as int) == sift_up_spec(
                            c,
                            self@,
                            parent as int,
                        ));
                        if consistent(c) && heap_ordered_but_up(c, old(self)@, start as int) {
                            lemma_sift_up_pass(c, self@, idx as int);
                        }
                    }
                }
            }
            idx = parent;
        }
        proof {
            if old(self).order().obeys() {
                assert(sift_up_spec(self.order(), self@, 0) == self@);
            }
        }
    }
}

impl<T: Ord> BinHeap<T, NaturalLess> {
    /// Create an empty container over the element type's natural order:
    /// the root is then a smallest element.
    pub fn new() -> (r: Self)
        ensures
            r@ == Seq::<T>::empty(),
            r.order() == NaturalLess,
    {
        BinHeap { vec: Vec::new(), cmp: NaturalLess }
    }

    /// Create an empty container over the natural order, with storage
    /// pre-reserved for `cap` elements. The capacity is a performance
    /// hint only; the container grows past it freely.
    pub fn with_capacity(cap: usize) -> (r: Self)
        ensures
            r@ == Seq::<T>::empty(),
            r.order() == NaturalLess,
    {
        BinHeap { vec: Vec::with_capacity(cap), cmp: NaturalLess }
    }
}


impl<T: Ord> Default for BinHeap<T, NaturalLess> {
    /// The default container is empty, over the natural order.
    fn default() -> (r: Self)
        ensures
            r@ == Seq::<T>::empty(),
            r.order() == NaturalLess,
    {
        BinHeap::new()
    }
}

} // verus!
