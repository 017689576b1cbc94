//! Nearest-hit queries over lists of primitives.
use crate::aabb::{surrounding_box, surrounding_spec, Aabb};
use crate::bvh::{index_set, BvhNode};
use vstd::prelude::*;

verus! {

/// The key of a hit, if there is one.
pub open spec fn hit_key<R>(h: Option<(u32, R)>) -> Option<u32> {
    match h {
        Some(x) => Some(x.0),
        None => None,
    }
}

/// Whether `leaf_hit` answers each primitive with one key, or always with none.
pub open spec fn keys_determined<T, R, L: Fn(&T) -> Option<(u32, R)>>(leaf_hit: &L) -> bool {
    forall|p: T, h1: Option<(u32, R)>, h2: Option<(u32, R)>|
        #[trigger] leaf_hit.ensures((&p,), h1) && #[trigger] leaf_hit.ensures((&p,), h2) ==> hit_key(h1)
            == hit_key(h2)
}

/// Whether `box_hit` never misses a box that encloses the box of a primitive
/// that `leaf_hit` reports hit.
pub open spec fn box_sound<T, R, B: Fn(Aabb) -> bool, L: Fn(&T) -> Option<(u32, R)>>(
    box_hit: &B,
    leaf_hit: &L,
    list: Seq<T>,
    boxes: Seq<Aabb>,
) -> bool {
    forall|a: Aabb, i: int, h: Option<(u32, R)>, b: bool|
        0 <= i < list.len() && a.encloses(boxes[i]) && #[trigger] leaf_hit.ensures((&list[i],), h)
            && h is Some && #[trigger] box_hit.ensures((a,), b) ==> b
}

/// `r` is a nearest of the answers `hs`: it is one of them, and no answer
/// has a smaller key.
pub open spec fn nearest_of<R>(hs: Seq<Option<(u32, R)>>, r: Option<(u32, R)>) -> bool {
    &&& r is Some ==> exists|i: int| 0 <= i < hs.len() && hs[i] == r
    &&& forall|i: int|
        0 <= i < hs.len() && (#[trigger] hs[i]) is Some ==> r is Some && r->Some_0.0
            <= hs[i]->Some_0.0
}

/// `hs` holds, for each primitive of `list`, an answer that `leaf_hit` gives it.
pub open spec fn answers<T, R, L: Fn(&T) -> Option<(u32, R)>>(
    leaf_hit: &L,
    list: Seq<T>,
    hs: Seq<Option<(u32, R)>>,
) -> bool {
    &&& hs.len() == list.len()
    &&& forall|i: int| 0 <= i < list.len() ==> leaf_hit.ensures((&list[i],), #[trigger] hs[i])
}

/// What a list's query may return: the nearest of one answer per primitive,
/// the first of them among equally near answers.
pub open spec fn list_answer<T, R, L: Fn(&T) -> Option<(u32, R)>>(
    leaf_hit: &L,
    list: Seq<T>,
    r: Option<(u32, R)>,
) -> bool {
    exists|hs: Seq<Option<(u32, R)>>|
        #[trigger] answers(leaf_hit, list, hs) && nearest_of(hs, r) && (r is Some ==> exists|i: int|
            0 <= i < hs.len() && hs[i] == r && forall|j: int|
                0 <= j < i && (#[trigger] hs[j]) is Some ==> r->Some_0.0 < hs[j]->Some_0.0)
}

/// Some box around the box of primitive `i` was tested and missed.
pub open spec fn pruned<B: Fn(Aabb) -> bool>(box_hit: &B, boxes: Seq<Aabb>, i: int) -> bool {
    exists|a: Aabb| a.encloses(boxes[i]) && #[trigger] box_hit.ensures((a,), false)
}

/// `hs` holds, for each primitive, an answer that `leaf_hit` gives it, or
/// none where a box around the primitive was missed.
pub open spec fn answers_or_pruned<T, R, B: Fn(Aabb) -> bool, L: Fn(&T) -> Option<(u32, R)>>(
    box_hit: &B,
    leaf_hit: &L,
    list: Seq<T>,
    boxes: Seq<Aabb>,
    hs: Seq<Option<(u32, R)>>,
) -> bool {
    &&& hs.len() == list.len()
    &&& forall|i: int|
        0 <= i < list.len() ==> leaf_hit.ensures((&list[i],), #[trigger] hs[i]) || (hs[i] is None
            && pruned(box_hit, boxes, i))
}

/// What a hierarchy's query may return: the nearest of one answer per
/// primitive, where a primitive inside a missed box answers none.
pub open spec fn bvh_answer<T, R, B: Fn(Aabb) -> bool, L: Fn(&T) -> Option<(u32, R)>>(
    box_hit: &B,
    leaf_hit: &L,
    list: Seq<T>,
    boxes: Seq<Aabb>,
    r: Option<(u32, R)>,
) -> bool {
    exists|hs: Seq<Option<(u32, R)>>|
        #[trigger] answers_or_pruned(box_hit, leaf_hit, list, boxes, hs) && nearest_of(hs, r)
}

/// The union box of a non-empty sequence of boxes, taken from the first on.
pub open spec fn union_of(bs: Seq<Aabb>) -> Aabb
    decreases bs.len(),
{
    if bs.len() <= 1 {
        bs[0]
    } else {
        surrounding_spec(union_of(bs.drop_last()), bs.last())
    }
}

/// An ordered list of primitives, tested one after another.
pub struct HitableList<T> {
    pub list: Vec<T>,
}

impl<T> HitableList<T> {
    pub fn new(list: Vec<T>) -> (r: HitableList<T>)
        ensures
            r.list@ == list@,
    {
        HitableList { list }
    }

    /// The nearest hit of a ray among the primitives, scanning them in order.
    ///
    /// A later hit replaces the one held only when its key is strictly
    /// smaller, so among equally near hits the first primitive's is kept.
    pub fn hit<R, L: Fn(&T) -> Option<(u32, R)>>(&self, leaf_hit: &L) -> (r: Option<(u32, R)>)
        requires
            forall|i: int| 0 <= i < self.list.len() ==> leaf_hit.requires((&self.list[i],)),
        ensures
            list_answer(leaf_hit, self.list@, r),
    {
        let n = self.list.len();
        let mut best: Option<(u32, R)> = None;
        let ghost mut hs: Seq<Option<(u32, R)>> = Seq::empty();
        let ghost mut w: int = 0;
        let mut i: usize = 0;
        while i < n
            invariant
                n == self.list.len(),
                i <= n,
                hs.len() == i,
                forall|k: int| 0 <= k < self.list.len() ==> leaf_hit.requires((&self.list[k],)),
                forall|k: int| 0 <= k < i ==> #[trigger] leaf_hit.ensures((&self.list[k],), hs[k]),
                nearest_of(hs, best),
                best is Some ==> 0 <= w < i && hs[w] == best && forall|j: int|
                    0 <= j < w && (#[trigger] hs[j]) is Some ==> best->Some_0.0 < hs[j]->Some_0.0,
            decreases n - i,
        {
            let h = leaf_hit(&self.list[i]);
            let ghost prev = best;
            let ghost next = hs.push(h);
            match h {
                Some(x) => {
                    let closer = match &best {
                        Some(b) => x.0 < b.0,
                        None => true,
                    };
                    if closer {
                        best = Some(x);
                        proof {
                            w = i as int;
                        }
                    }
                },
                None => {},
            }
            proof {
                assert(next[i as int] == h);
                assert forall|k: int| 0 <= k < i implies next[k] == hs[k] by {}
                if best is Some && best != prev {
                    assert forall|j: int| 0 <= j < i && (#[trigger] next[j]) is Some implies best->Some_0.0
                        < next[j]->Some_0.0 by {
                        assert(hs[j] is Some);
                    }
                }
                if best is Some && best == prev {
                    assert(next[w] == best);
                }
                assert forall|k: int| 0 <= k < next.len() && (#[trigger] next[k]) is Some implies best is Some
                    && best->Some_0.0 <= next[k]->Some_0.0 by {
                    if k < i {
                        assert(hs[k] is Some);
                    }
                }
                hs = next;
            }
            i = i + 1;
        }
        proof {
            assert(answers(leaf_hit, self.list@, hs));
        }
        best
    }

    /// The union of the children's boxes; none when the list is empty or a
    /// child reports none.
    pub fn bounding_box<F: Fn(&T) -> Option<Aabb>>(&self, child_box: &F) -> (r: Option<Aabb>)
        requires
            forall|i: int| 0 <= i < self.list.len() ==> child_box.requires((&self.list[i],)),
        ensures
            r is None ==> self.list.len() == 0 || exists|i: int|
                0 <= i < self.list.len() && #[trigger] child_box.ensures((&self.list[i],), None),
            r matches Some(b) ==> exists|bs: Seq<Aabb>|
                bs.len() == self.list.len() && 0 < bs.len() && b == #[trigger] union_of(bs) && (
                forall|i: int|
                    0 <= i < bs.len() ==> child_box.ensures((&self.list[i],), Some(bs[i]))),
    {
        let n = self.list.len();
        if n == 0 {
            return None;
        }
        let mut acc: Aabb = match child_box(&self.list[0]) {
            Some(b) => b,
            None => return None,
        };
        let ghost mut bs: Seq<Aabb> = seq![acc];
        let mut i: usize = 1;
        while i < n
            invariant
                n == self.list.len(),
                1 <= i <= n,
                forall|k: int| 0 <= k < self.list.len() ==> child_box.requires((&self.list[k],)),
                bs.len() == i,
                acc == union_of(bs),
                forall|k: int| 0 <= k < i ==> child_box.ensures((&self.list[k],), Some(bs[k])),
            decreases n - i,
        {
            match child_box(&self.list[i]) {
                Some(b) => {
                    proof {
                        let next = bs.push(b);
                        assert(next.drop_last() =~= bs);
                        bs = next;
                    }
                    acc = surrounding_box(acc, b);
                },
                None => return None,
            }
            i = i + 1;
        }
        Some(acc)
    }
}

/// A hierarchy and a list over the same primitives report a hit at the same
/// key, or both report none: the hierarchy changes how the nearest surface
/// is found, not which one is found. This holds when each primitive's answer
/// has one key and the box test never misses a box around a hit primitive.
pub proof fn lemma_bvh_agrees_with_list<T, R, B: Fn(Aabb) -> bool, L: Fn(&T) -> Option<(u32, R)>>(
    tree: &BvhNode<T>,
    list: &HitableList<T>,
    box_hit: &B,
    leaf_hit: &L,
    from_tree: Option<(u32, R)>,
    from_list: Option<(u32, R)>,
)
    requires
        tree.wf(),
        tree.list@ == list.list@,
        keys_determined(leaf_hit),
        box_sound(box_hit, leaf_hit, tree.list@, tree.boxes@),
        bvh_answer(box_hit, leaf_hit, tree.list@, tree.boxes@, from_tree),
        list_answer(leaf_hit, list.list@, from_list),
    ensures
        hit_key(from_tree) == hit_key(from_list),
{
    let n = tree.list.len() as int;
    let hs1 = choose|hs: Seq<Option<(u32, R)>>|
        #[trigger] answers_or_pruned(box_hit, leaf_hit, tree.list@, tree.boxes@, hs) && nearest_of(
            hs,
            from_tree,
        );
    let hs2 = choose|hs: Seq<Option<(u32, R)>>|
        #[trigger] answers(leaf_hit, list.list@, hs) && nearest_of(hs, from_list) && (from_list is Some
            ==> exists|i: int|
            0 <= i < hs.len() && hs[i] == from_list && forall|j: int|
                0 <= j < i && (#[trigger] hs[j]) is Some ==> from_list->Some_0.0 < hs[j]->Some_0.0);
    assert forall|i: int| 0 <= i < n implies hit_key(#[trigger] hs1[i]) == hit_key(hs2[i]) by {
        assert(leaf_hit.ensures((&list.list@[i],), hs2[i]));
        if !leaf_hit.ensures((&tree.list@[i],), hs1[i]) {
            assert(pruned(box_hit, tree.boxes@, i));
            let a = choose|a: Aabb| a.encloses(tree.boxes@[i]) && #[trigger] box_hit.ensures((a,), false);
            if hs2[i] is Some {
                assert(box_hit.ensures((a,), false));
            }
        }
    }
    if from_tree is Some {
        let i = choose|i: int| 0 <= i < hs1.len() && hs1[i] == from_tree;
        assert(hit_key(hs1[i]) == hit_key(hs2[i]));
        assert(hs2[i] is Some);
    }
    if from_list is Some {
        let j = choose|j: int| 0 <= j < hs2.len() && hs2[j] == from_list;
        assert(hit_key(hs1[j]) == hit_key(hs2[j]));
        assert(hs1[j] is Some);
    }
}

} // verus!
