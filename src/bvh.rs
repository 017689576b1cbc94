//! The bounding-volume hierarchy: a binary tree of boxes over a list of
//! primitives, held as an arena of branches that point at primitives by index
//! and at earlier branches by index.
use crate::hitable::{answers_or_pruned, bvh_answer, nearest_of, pruned};
use crate::aabb::{lemma_encloses_trans, lemma_surrounding_encloses, surrounding_box, surrounding_spec, Aabb};
use rand::Rng;
use vstd::prelude::*;

verus! {

/// Relies on rand::thread_rng and rand::Rng::gen_range: a value drawn from
/// `[0, high)`; gen_range panics on an empty range, which `requires` rules out.
#[verifier::external_body]
fn random_below(high: usize) -> (r: usize)
    requires
        0 < high,
    ensures
        r < high,
{
    rand::thread_rng().gen_range(0, high)
}

/// Where a branch points: at a primitive or at another branch of the arena.
#[derive(Clone, Copy, Debug, PartialEq, Eq, Structural)]
pub enum Link {
    Leaf(usize),
    Branch(usize),
}

/// An inner node: its box, the axis its primitives were sorted along, and its
/// two subtrees (which may be one leaf twice).
#[derive(Clone, Copy, Debug, PartialEq, Eq, Structural)]
pub struct Branch {
    pub bbox: Aabb,
    pub axis: usize,
    pub left: Link,
    pub right: Link,
}

/// The rank of a link: a leaf is 0, the branch at index `b` is `b + 1`.
/// A branch's children have a rank at most its index.
pub open spec fn rank(l: Link) -> nat {
    match l {
        Link::Leaf(_) => 0,
        Link::Branch(b) => b as nat + 1,
    }
}

/// `l` points at one of `n` primitives or at a branch below index `bound`.
pub open spec fn link_ok(n: int, l: Link, bound: int) -> bool {
    match l {
        Link::Leaf(i) => i < n,
        Link::Branch(b) => b < bound,
    }
}

/// The box of what `l` points at.
pub open spec fn link_box(boxes: Seq<Aabb>, branches: Seq<Branch>, l: Link) -> Aabb {
    match l {
        Link::Leaf(i) => boxes[i as int],
        Link::Branch(b) => branches[b as int].bbox,
    }
}

/// Along `axis`, no primitive reached from `left` has its box's lower corner
/// above that of a primitive reached from `right`.
pub open spec fn split_along(
    boxes: Seq<Aabb>,
    branches: Seq<Branch>,
    left: Link,
    right: Link,
    axis: int,
) -> bool {
    forall|i: int, j: int|
        #[trigger] leaves_of(branches, left).contains(i) && #[trigger] leaves_of(
            branches,
            right,
        ).contains(j) ==> boxes[i].min.at(axis) <= boxes[j].min.at(axis)
}

/// The two sides reach finitely many primitives, in numbers that differ by at
/// most one.
pub open spec fn balanced(branches: Seq<Branch>, left: Link, right: Link) -> bool {
    let l = leaves_of(branches, left);
    let r = leaves_of(branches, right);
    &&& l.finite()
    &&& r.finite()
    &&& l.len() <= r.len() + 1
    &&& r.len() <= l.len() + 1
}

/// Branch `b` points only at primitives and earlier branches, splits its
/// primitives along its axis into two halves, and its box is the union of its
/// children's boxes.
pub open spec fn branch_ok(boxes: Seq<Aabb>, branches: Seq<Branch>, b: int) -> bool {
    let br = branches[b];
    &&& link_ok(boxes.len() as int, br.left, b)
    &&& link_ok(boxes.len() as int, br.right, b)
    &&& br.axis < 3
    &&& split_along(boxes, branches, br.left, br.right, br.axis as int)
    &&& balanced(branches, br.left, br.right)
    &&& br.bbox == surrounding_spec(
        link_box(boxes, branches, br.left),
        link_box(boxes, branches, br.right),
    )
}

/// Every branch of the arena is well formed.
pub open spec fn arena_ok(boxes: Seq<Aabb>, branches: Seq<Branch>) -> bool {
    forall|b: int| 0 <= b < branches.len() ==> #[trigger] branch_ok(boxes, branches, b)
}

/// The primitives reached from `l`.
pub open spec fn leaves_of(branches: Seq<Branch>, l: Link) -> Set<int>
    decreases rank(l),
{
    match l {
        Link::Leaf(i) => set![i as int],
        Link::Branch(b) => {
            let br = branches[b as int];
            if b < branches.len() && rank(br.left) <= b && rank(br.right) <= b {
                leaves_of(branches, br.left) + leaves_of(branches, br.right)
            } else {
                Set::empty()
            }
        },
    }
}

/// The values held at positions `lo..hi` of `s`.
pub open spec fn range_set(s: Seq<usize>, lo: int, hi: int) -> Set<int> {
    Set::new(|x: int| exists|k: int| lo <= k < hi && s[k] as int == x)
}

/// The indices `0..n`.
pub open spec fn index_set(n: int) -> Set<int> {
    Set::new(|i: int| 0 <= i < n)
}

/// No value appears twice in `s`.
pub open spec fn distinct(s: Seq<usize>) -> bool {
    forall|a: int, b: int| 0 <= a < s.len() && 0 <= b < s.len() && a != b ==> s[a] != s[b]
}

/// A range of distinct values holds as many values as it has positions.
proof fn lemma_range_set_len(s: Seq<usize>, lo: int, hi: int)
    requires
        0 <= lo <= hi <= s.len(),
        distinct(s),
    ensures
        range_set(s, lo, hi).finite(),
        range_set(s, lo, hi).len() == hi - lo,
    decreases hi - lo,
{
    if hi == lo {
        assert(range_set(s, lo, hi) =~= Set::empty());
    } else {
        lemma_range_set_len(s, lo, hi - 1);
        assert(range_set(s, lo, hi) =~= range_set(s, lo, hi - 1).insert(s[hi - 1] as int));
        assert(!range_set(s, lo, hi - 1).contains(s[hi - 1] as int));
    }
}

/// The sort key of the item at position `k`: its box's lower corner on `axis`.
pub open spec fn item_key(boxes: Seq<Aabb>, items: Seq<usize>, k: int, axis: int) -> u32 {
    boxes[items[k] as int].min.at(axis)
}

/// Swapping two positions inside a range keeps the values it holds.
proof fn lemma_swap_range_set(s: Seq<usize>, a: int, b: int, lo: int, hi: int)
    requires
        0 <= lo <= a < hi,
        lo <= b < hi,
        hi <= s.len(),
    ensures
        range_set(s.update(a, s[b]).update(b, s[a]), lo, hi) == range_set(s, lo, hi),
{
    let t = s.update(a, s[b]).update(b, s[a]);
    assert forall|x: int| range_set(t, lo, hi).contains(x) implies range_set(s, lo, hi).contains(x) by {
        let k = choose|k: int| lo <= k < hi && t[k] as int == x;
        if k == b {
            assert(lo <= a < hi && s[a] as int == x);
        } else if k == a {
            assert(lo <= b < hi && s[b] as int == x);
        } else {
            assert(s[k] as int == x);
        }
    }
    assert forall|x: int| range_set(s, lo, hi).contains(x) implies range_set(t, lo, hi).contains(x) by {
        let k = choose|k: int| lo <= k < hi && s[k] as int == x;
        if k == a {
            assert(t[b] as int == x);
        } else if k == b {
            if a == b {
                assert(t[b] as int == x);
            } else {
                assert(t[a] as int == x);
            }
        } else {
            assert(t[k] as int == x);
        }
    }
    assert(range_set(t, lo, hi) =~= range_set(s, lo, hi));
}

/// A range splits into the values of its two halves.
proof fn lemma_range_set_split(s: Seq<usize>, lo: int, mid: int, hi: int)
    requires
        lo <= mid <= hi,
    ensures
        range_set(s, lo, hi) == range_set(s, lo, mid) + range_set(s, mid, hi),
{
    assert forall|x: int| range_set(s, lo, hi).contains(x) implies (range_set(s, lo, mid)
        + range_set(s, mid, hi)).contains(x) by {
        let k = choose|k: int| lo <= k < hi && s[k] as int == x;
        if k < mid {
            assert(range_set(s, lo, mid).contains(x));
        } else {
            assert(range_set(s, mid, hi).contains(x));
        }
    }
    assert forall|x: int| (range_set(s, lo, mid) + range_set(s, mid, hi)).contains(x) implies range_set(
        s,
        lo,
        hi,
    ).contains(x) by {
        if range_set(s, lo, mid).contains(x) {
            let k = choose|k: int| lo <= k < mid && s[k] as int == x;
            assert(lo <= k < hi && s[k] as int == x);
        } else {
            let k = choose|k: int| mid <= k < hi && s[k] as int == x;
            assert(lo <= k < hi && s[k] as int == x);
        }
    }
    assert(range_set(s, lo, hi) =~= range_set(s, lo, mid) + range_set(s, mid, hi));
}

/// Two sequences that agree on a range hold the same values there.
proof fn lemma_range_set_agree(s: Seq<usize>, t: Seq<usize>, lo: int, hi: int)
    requires
        hi <= s.len(),
        hi <= t.len(),
        forall|k: int| lo <= k < hi ==> s[k] == t[k],
    ensures
        range_set(s, lo, hi) == range_set(t, lo, hi),
{
    assert forall|x: int| range_set(s, lo, hi).contains(x) implies range_set(t, lo, hi).contains(x) by {
        let k = choose|k: int| lo <= k < hi && s[k] as int == x;
        assert(t[k] as int == x);
    }
    assert forall|x: int| range_set(t, lo, hi).contains(x) implies range_set(s, lo, hi).contains(x) by {
        let k = choose|k: int| lo <= k < hi && t[k] as int == x;
        assert(s[k] as int == x);
    }
    assert(range_set(s, lo, hi) =~= range_set(t, lo, hi));
}

/// Sorts `items[lo..hi]` by the lower corner of each item's box along `axis`.
fn sort_range(boxes: &Vec<Aabb>, items: &mut Vec<usize>, lo: usize, hi: usize, axis: usize)
    requires
        lo <= hi <= old(items).len(),
        axis < 3,
        forall|k: int| 0 <= k < old(items).len() ==> old(items)[k] < boxes.len(),
        distinct(old(items)@),
    ensures
        final(items).len() == old(items).len(),
        forall|k: int| 0 <= k < final(items).len() ==> final(items)[k] < boxes.len(),
        forall|k: int|
            0 <= k < final(items).len() && !(lo <= k < hi) ==> final(items)[k] == old(items)[k],
        range_set(final(items)@, lo as int, hi as int) == range_set(old(items)@, lo as int, hi as int),
        distinct(final(items)@),
        forall|a: int, b: int|
            lo <= a < b < hi ==> item_key(boxes@, final(items)@, a, axis as int) <= item_key(
                boxes@,
                final(items)@,
                b,
                axis as int,
            ),
{
    let ghost orig = items@;
    let mut i: usize = lo;
    while i < hi
        invariant
            lo <= i <= hi <= items.len(),
            items.len() == orig.len(),
            axis < 3,
            forall|k: int| 0 <= k < items.len() ==> items[k] < boxes.len(),
            forall|k: int| 0 <= k < items.len() && !(lo <= k < hi) ==> items[k] == orig[k],
            range_set(items@, lo as int, hi as int) == range_set(orig, lo as int, hi as int),
            distinct(items@),
            forall|a: int, b: int|
                lo <= a < b < i ==> item_key(boxes@, items@, a, axis as int) <= item_key(
                    boxes@,
                    items@,
                    b,
                    axis as int,
                ),
        decreases hi - i,
    {
        let mut j: usize = i;
        while j > lo && boxes[items[j - 1]].min.axis(axis) > boxes[items[j]].min.axis(axis)
            invariant
                lo <= j <= i < hi <= items.len(),
                items.len() == orig.len(),
                axis < 3,
                forall|k: int| 0 <= k < items.len() ==> items[k] < boxes.len(),
                forall|k: int| 0 <= k < items.len() && !(lo <= k < hi) ==> items[k] == orig[k],
                range_set(items@, lo as int, hi as int) == range_set(orig, lo as int, hi as int),
                distinct(items@),
                forall|a: int, b: int|
                    lo <= a < b < j ==> item_key(boxes@, items@, a, axis as int) <= item_key(
                        boxes@,
                        items@,
                        b,
                        axis as int,
                    ),
                forall|a: int, b: int|
                    j <= a < b <= i && a != j ==> item_key(boxes@, items@, a, axis as int)
                        <= item_key(boxes@, items@, b, axis as int),
                forall|a: int, b: int|
                    lo <= a < j && j < b <= i ==> item_key(boxes@, items@, a, axis as int)
                        <= item_key(boxes@, items@, b, axis as int),
                forall|b: int|
                    j < b <= i ==> item_key(boxes@, items@, j as int, axis as int) < item_key(
                        boxes@,
                        items@,
                        b,
                        axis as int,
                    ),
            decreases j,
        {
            proof {
                lemma_swap_range_set(items@, j - 1, j as int, lo as int, hi as int);
            }
            let ghost before = items@;
            let upper = items[j];
            let lower = items[j - 1];
            items.set(j - 1, upper);
            items.set(j, lower);
            proof {
                let ax = axis as int;
                assert forall|a: int, b: int|
                    0 <= a < items.len() && 0 <= b < items.len() && a != b implies items@[a]
                    != items@[b] by {
                    let pa = if a == j - 1 { j as int } else if a == j { j - 1 } else { a };
                    let pb = if b == j - 1 { j as int } else if b == j { j - 1 } else { b };
                    assert(items@[a] == before[pa] && items@[b] == before[pb]);
                }
                assert forall|k: int| 0 <= k < items.len() implies #[trigger] item_key(
                    boxes@,
                    items@,
                    k,
                    ax,
                ) == if k == j - 1 {
                    item_key(boxes@, before, j as int, ax)
                } else if k == j {
                    item_key(boxes@, before, j - 1, ax)
                } else {
                    item_key(boxes@, before, k, ax)
                } by {}
                assert forall|a: int, b: int| lo <= a < b < j - 1 implies item_key(boxes@, items@, a, ax)
                    <= item_key(boxes@, items@, b, ax) by {
                    assert(item_key(boxes@, before, a, ax) <= item_key(boxes@, before, b, ax));
                }
                assert forall|a: int, b: int| j - 1 <= a < b <= i && a != j - 1 implies item_key(
                    boxes@,
                    items@,
                    a,
                    ax,
                ) <= item_key(boxes@, items@, b, ax) by {
                    if a == j {
                        assert(item_key(boxes@, before, j - 1, ax) <= item_key(boxes@, before, b, ax));
                    } else {
                        assert(item_key(boxes@, before, a, ax) <= item_key(boxes@, before, b, ax));
                    }
                }
                assert forall|a: int, b: int| lo <= a < j - 1 && j - 1 < b <= i implies item_key(
                    boxes@,
                    items@,
                    a,
                    ax,
                ) <= item_key(boxes@, items@, b, ax) by {
                    if b == j {
                        assert(item_key(boxes@, before, a, ax) <= item_key(boxes@, before, j - 1, ax));
                    } else {
                        assert(item_key(boxes@, before, a, ax) <= item_key(boxes@, before, b, ax));
                    }
                }
                assert forall|b: int| j - 1 < b <= i implies item_key(boxes@, items@, j - 1, ax)
                    < #[trigger] item_key(boxes@, items@, b, ax) by {
                    if b > j {
                        assert(item_key(boxes@, before, j as int, ax) < item_key(boxes@, before, b, ax));
                    }
                }
            }
            j = j - 1;
        }
        proof {
            let ax = axis as int;
            assert forall|a: int, b: int| lo <= a < b < i + 1 implies item_key(boxes@, items@, a, ax)
                <= item_key(boxes@, items@, b, ax) by {
                if b == j && a < j - 1 {
                    assert(item_key(boxes@, items@, a, ax) <= item_key(boxes@, items@, j - 1, ax));
                }
            }
        }
        i = i + 1;
    }
}

/// Growing the arena at its end keeps what an existing link reaches and the
/// box it has.
proof fn lemma_extend_keeps_link(
    boxes: Seq<Aabb>,
    before: Seq<Branch>,
    after: Seq<Branch>,
    l: Link,
)
    requires
        before.len() <= after.len(),
        forall|b: int| 0 <= b < before.len() ==> after[b] == before[b],
        rank(l) <= before.len(),
    ensures
        leaves_of(after, l) == leaves_of(before, l),
        link_box(boxes, after, l) == link_box(boxes, before, l),
    decreases rank(l),
{
    match l {
        Link::Leaf(_) => {},
        Link::Branch(b) => {
            let br = before[b as int];
            if rank(br.left) <= b && rank(br.right) <= b {
                lemma_extend_keeps_link(boxes, before, after, br.left);
                lemma_extend_keeps_link(boxes, before, after, br.right);
            }
        },
    }
}

/// Pushing a well-formed branch keeps the arena well formed.
proof fn lemma_push_keeps_arena(boxes: Seq<Aabb>, before: Seq<Branch>, br: Branch)
    requires
        arena_ok(boxes, before),
        link_ok(boxes.len() as int, br.left, before.len() as int),
        link_ok(boxes.len() as int, br.right, before.len() as int),
        br.axis < 3,
        split_along(boxes, before, br.left, br.right, br.axis as int),
        balanced(before, br.left, br.right),
        br.bbox == surrounding_spec(
            link_box(boxes, before, br.left),
            link_box(boxes, before, br.right),
        ),
    ensures
        arena_ok(boxes, before.push(br)),
{
    let after = before.push(br);
    assert forall|b: int| 0 <= b < after.len() implies #[trigger] branch_ok(boxes, after, b) by {
        let c = after[b];
        if b < before.len() {
            assert(branch_ok(boxes, before, b));
        }
        lemma_extend_keeps_link(boxes, before, after, c.left);
        lemma_extend_keeps_link(boxes, before, after, c.right);
    }
}

/// The box of what `l` points at.
fn box_of(boxes: &Vec<Aabb>, branches: &Vec<Branch>, l: Link) -> (r: Aabb)
    requires
        link_ok(boxes.len() as int, l, branches.len() as int),
    ensures
        r == link_box(boxes@, branches@, l),
{
    match l {
        Link::Leaf(i) => boxes[i],
        Link::Branch(b) => branches[b].bbox,
    }
}

/// Builds the subtree over `items[lo..hi]` into the arena: picks an axis at
/// random, sorts the range along it, makes one leaf both children when one
/// item is left, one leaf each when two are, and otherwise splits the range at
/// its middle and builds each half.
fn build(
    boxes: &Vec<Aabb>,
    items: &mut Vec<usize>,
    lo: usize,
    hi: usize,
    branches: &mut Vec<Branch>,
) -> (l: Link)
    requires
        lo < hi <= old(items).len(),
        forall|k: int| 0 <= k < old(items).len() ==> old(items)[k] < boxes.len(),
        distinct(old(items)@),
        arena_ok(boxes@, old(branches)@),
    ensures
        final(items).len() == old(items).len(),
        distinct(final(items)@),
        forall|k: int| 0 <= k < final(items).len() ==> final(items)[k] < boxes.len(),
        forall|k: int|
            0 <= k < final(items).len() && !(lo <= k < hi) ==> final(items)[k] == old(items)[k],
        range_set(final(items)@, lo as int, hi as int) == range_set(old(items)@, lo as int, hi as int),
        old(branches).len() < final(branches).len(),
        forall|b: int| 0 <= b < old(branches).len() ==> final(branches)[b] == old(branches)[b],
        arena_ok(boxes@, final(branches)@),
        link_ok(boxes.len() as int, l, final(branches).len() as int),
        leaves_of(final(branches)@, l) == range_set(old(items)@, lo as int, hi as int),
    decreases hi - lo,
{
    let ghost orig = items@;
    let axis = random_below(3);
    sort_range(boxes, items, lo, hi, axis);
    let ghost sorted = items@;
    let len = hi - lo;
    let left: Link;
    let right: Link;
    if len == 1 {
        left = Link::Leaf(items[lo]);
        right = left;
        proof {
            assert(range_set(sorted, lo as int, hi as int) =~= set![sorted[lo as int] as int]);
            assert(leaves_of(branches@, left) =~= set![sorted[lo as int] as int]);
            assert(set![sorted[lo as int] as int].len() == 1);
        }
    } else if len == 2 {
        left = Link::Leaf(items[lo]);
        right = Link::Leaf(items[lo + 1]);
        proof {
            lemma_range_set_split(sorted, lo as int, lo + 1, hi as int);
            assert(range_set(sorted, lo as int, lo + 1) =~= set![sorted[lo as int] as int]);
            assert(range_set(sorted, lo + 1, hi as int) =~= set![sorted[lo + 1] as int]);
            assert(leaves_of(branches@, left) =~= set![sorted[lo as int] as int]);
            assert(leaves_of(branches@, right) =~= set![sorted[lo + 1] as int]);
            assert(set![sorted[lo as int] as int].len() == 1);
            assert(set![sorted[lo + 1] as int].len() == 1);
            assert(item_key(boxes@, sorted, lo as int, axis as int) <= item_key(
                boxes@,
                sorted,
                lo + 1,
                axis as int,
            ));
        }
    } else {
        let mid = lo + len / 2;
        let ghost start = branches@;
        left = build(boxes, items, lo, mid, branches);
        let ghost middle = items@;
        let ghost after_left = branches@;
        right = build(boxes, items, mid, hi, branches);
        proof {
            lemma_range_set_agree(middle, sorted, mid as int, hi as int);
            lemma_range_set_agree(items@, middle, lo as int, mid as int);
            lemma_range_set_split(items@, lo as int, mid as int, hi as int);
            lemma_range_set_split(sorted, lo as int, mid as int, hi as int);
            lemma_extend_keeps_link(boxes@, after_left, branches@, left);
            lemma_range_set_len(sorted, lo as int, mid as int);
            lemma_range_set_len(sorted, mid as int, hi as int);
            assert forall|x: int, y: int|
                #[trigger] leaves_of(branches@, left).contains(x) && #[trigger] leaves_of(
                    branches@,
                    right,
                ).contains(y) implies boxes[x].min.at(axis as int) <= boxes[y].min.at(
                axis as int,
            ) by {
                let kx = choose|k: int| lo <= k < mid && sorted[k] as int == x;
                let ky = choose|k: int| mid <= k < hi && middle[k] as int == y;
                assert(item_key(boxes@, sorted, kx, axis as int) <= item_key(
                    boxes@,
                    sorted,
                    ky,
                    axis as int,
                ));
            }
        }
    }
    let bbox = surrounding_box(box_of(boxes, branches, left), box_of(boxes, branches, right));
    let idx = branches.len();
    let ghost before = branches@;
    let br = Branch { bbox, axis, left, right };
    proof {
        lemma_push_keeps_arena(boxes@, before, br);
    }
    branches.push(br);
    proof {
        lemma_extend_keeps_link(boxes@, before, branches@, left);
        lemma_extend_keeps_link(boxes@, before, branches@, right);
        assert(leaves_of(branches@, Link::Branch(idx)) == leaves_of(branches@, left) + leaves_of(
            branches@,
            right,
        ));
        if len == 1 {
            assert(leaves_of(branches@, left) + leaves_of(branches@, right) =~= leaves_of(
                branches@,
                left,
            ));
        }
    }
    Link::Branch(idx)
}

/// Why a hierarchy could not be built.
#[derive(Clone, Copy, Debug, PartialEq, Eq, Structural)]
pub enum BvhError {
    /// There was nothing to build over.
    Empty,
    /// The child at this index reported no bounding box.
    MissingBoundingBox(usize),
}

/// A bounding-volume hierarchy over a list of primitives.
///
/// `boxes[i]` is the box of `list[i]`; `root` reaches every primitive, and
/// each branch's box is the union of its children's boxes. The tree is built
/// once and never changed.
pub struct BvhNode<T> {
    pub list: Vec<T>,
    pub boxes: Vec<Aabb>,
    pub branches: Vec<Branch>,
    pub root: Link,
}

impl<T> BvhNode<T> {
    /// The hierarchy is well formed and reaches exactly its primitives.
    pub open spec fn wf(self) -> bool {
        &&& 0 < self.list.len()
        &&& self.boxes.len() == self.list.len()
        &&& arena_ok(self.boxes@, self.branches@)
        &&& link_ok(self.list.len() as int, self.root, self.branches.len() as int)
        &&& leaves_of(self.branches@, self.root) == index_set(self.list.len() as int)
    }

    /// Builds the hierarchy over `list`, asking `bounding_box` for the box of
    /// each primitive. Fails on an empty list and on a primitive without a box.
    pub fn new<F: Fn(&T) -> Option<Aabb>>(list: Vec<T>, bounding_box: &F) -> (r: Result<
        BvhNode<T>,
        BvhError,
    >)
        requires
            forall|i: int| 0 <= i < list.len() ==> bounding_box.requires((&list[i],)),
        ensures
            r matches Err(BvhError::Empty) <==> list.len() == 0,
            r matches Err(BvhError::MissingBoundingBox(i)) ==> i < list.len()
                && bounding_box.ensures((&list[i as int],), None),
            r matches Ok(t) ==> {
                &&& t.wf()
                &&& t.list@ == list@
                &&& forall|i: int|
                    0 <= i < list.len() ==> bounding_box.ensures((&list[i],), Some(t.boxes[i]))
            },
    {
        let n = list.len();
        if n == 0 {
            return Err(BvhError::Empty);
        }
        let mut boxes: Vec<Aabb> = Vec::new();
        let mut i: usize = 0;
        while i < n
            invariant
                n == list.len(),
                i <= n,
                boxes.len() == i,
                forall|k: int| 0 <= k < list.len() ==> bounding_box.requires((&list[k],)),
                forall|k: int| 0 <= k < i ==> bounding_box.ensures((&list[k],), Some(boxes[k])),
            decreases n - i,
        {
            match bounding_box(&list[i]) {
                Some(b) => boxes.push(b),
                None => return Err(BvhError::MissingBoundingBox(i)),
            }
            i = i + 1;
        }
        let mut items: Vec<usize> = Vec::new();
        let mut k: usize = 0;
        while k < n
            invariant
                k <= n,
                items.len() == k,
                forall|j: int| 0 <= j < k ==> items[j] == j,
            decreases n - k,
        {
            items.push(k);
            k = k + 1;
        }
        proof {
            assert(distinct(items@));
            assert forall|x: int| index_set(n as int).contains(x) implies range_set(
                items@,
                0,
                n as int,
            ).contains(x) by {
                assert(items[x] as int == x);
            }
            assert(range_set(items@, 0, n as int) =~= index_set(n as int));
        }
        let mut branches: Vec<Branch> = Vec::new();
        let root = build(&boxes, &mut items, 0, n, &mut branches);
        Ok(BvhNode { list, boxes, branches, root })
    }
}

/// The box of a link encloses the box of every primitive it reaches.
pub proof fn lemma_link_encloses_leaves(
    boxes: Seq<Aabb>,
    branches: Seq<Branch>,
    l: Link,
    i: int,
)
    requires
        arena_ok(boxes, branches),
        link_ok(boxes.len() as int, l, branches.len() as int),
        leaves_of(branches, l).contains(i),
    ensures
        0 <= i < boxes.len(),
        link_box(boxes, branches, l).encloses(boxes[i]),
    decreases rank(l),
{
    match l {
        Link::Leaf(j) => {},
        Link::Branch(b) => {
            assert(branch_ok(boxes, branches, b as int));
            let br = branches[b as int];
            lemma_surrounding_encloses(
                link_box(boxes, branches, br.left),
                link_box(boxes, branches, br.right),
            );
            if leaves_of(branches, br.left).contains(i) {
                lemma_link_encloses_leaves(boxes, branches, br.left, i);
                lemma_encloses_trans(br.bbox, link_box(boxes, branches, br.left), boxes[i]);
            } else {
                lemma_link_encloses_leaves(boxes, branches, br.right, i);
                lemma_encloses_trans(br.bbox, link_box(boxes, branches, br.right), boxes[i]);
            }
        },
    }
}

impl<T> BvhNode<T> {
    /// The box around every primitive of the hierarchy.
    pub fn bounding_box(&self) -> (r: Option<Aabb>)
        requires
            self.wf(),
        ensures
            r == Some(link_box(self.boxes@, self.branches@, self.root)),
            forall|i: int| 0 <= i < self.list.len() ==> r->Some_0.encloses(#[trigger] self.boxes[i]),
    {
        proof {
            assert forall|i: int| 0 <= i < self.list.len() implies link_box(
                self.boxes@,
                self.branches@,
                self.root,
            ).encloses(#[trigger] self.boxes[i]) by {
                assert(index_set(self.list.len() as int).contains(i));
                lemma_link_encloses_leaves(self.boxes@, self.branches@, self.root, i);
            }
        }
        Some(box_of(&self.boxes, &self.branches, self.root))
    }

    /// The nearest hit among the primitives that `l` reaches, skipping every
    /// subtree whose box the ray misses. The ghost part holds the answer taken
    /// for each primitive reached.
    fn hit_link<R, B: Fn(Aabb) -> bool, L: Fn(&T) -> Option<(u32, R)>>(
        &self,
        l: Link,
        box_hit: &B,
        leaf_hit: &L,
    ) -> (res: (Option<(u32, R)>, Ghost<Seq<Option<(u32, R)>>>))
        requires
            self.boxes.len() == self.list.len(),
            arena_ok(self.boxes@, self.branches@),
            link_ok(self.list.len() as int, l, self.branches.len() as int),
            forall|a: Aabb| box_hit.requires((a,)),
            forall|i: int| 0 <= i < self.list.len() ==> leaf_hit.requires((&self.list[i],)),
        ensures
            answered_on(
                box_hit,
                leaf_hit,
                self.list@,
                self.boxes@,
                leaves_of(self.branches@, l),
                res.1@,
                res.0,
            ),
        decreases rank(l),
    {
        let n = self.list.len();
        match l {
            Link::Leaf(i) => {
                let r = leaf_hit(&self.list[i]);
                let ghost hs = Seq::new(n as nat, |j: int| r);
                proof {
                    let s = leaves_of(self.branches@, l);
                    assert(s =~= set![i as int]);
                    assert(hs[i as int] == r);
                    assert(s.contains(i as int));
                    assert forall|j: int| #[trigger] s.contains(j) implies 0 <= j < self.list.len()
                        && leaf_hit.ensures((&self.list@[j],), hs[j]) by {
                        assert(j == i);
                    }
                }
                proof {
                    assert(answered_on(
                        box_hit,
                        leaf_hit,
                        self.list@,
                        self.boxes@,
                        leaves_of(self.branches@, l),
                        hs,
                        r,
                    ));
                }
                (r, Ghost(hs))
            },
            Link::Branch(b) => {
                proof {
                    assert(branch_ok(self.boxes@, self.branches@, b as int));
                }
                let br = self.branches[b];
                if box_hit(br.bbox) {
                    let (lr, hl) = self.hit_link(br.left, box_hit, leaf_hit);
                    let (rr, hr) = self.hit_link(br.right, box_hit, leaf_hit);
                    let ghost ls = leaves_of(self.branches@, br.left);
                    let ghost rs = leaves_of(self.branches@, br.right);
                    let ghost lg = lr;
                    let ghost rg = rr;
                    let ghost mut from_left = true;
                    let r = match lr {
                        Some(lh) => match rr {
                            Some(rh) => {
                                if lh.0 < rh.0 {
                                    Some(lh)
                                } else {
                                    proof {
                                        from_left = false;
                                    }
                                    Some(rh)
                                }
                            },
                            None => Some(lh),
                        },
                        None => {
                            proof {
                                from_left = false;
                            }
                            rr
                        },
                    };
                    let ghost hs = Seq::new(
                        n as nat,
                        |j: int|
                            if from_left {
                                if ls.contains(j) {
                                    hl@[j]
                                } else {
                                    hr@[j]
                                }
                            } else {
                                if rs.contains(j) {
                                    hr@[j]
                                } else {
                                    hl@[j]
                                }
                            },
                    );
                    proof {
                        assert(leaves_of(self.branches@, l) == ls + rs);
                        if r is Some {
                            if from_left {
                                let i = choose|i: int| ls.contains(i) && hl@[i] == lg;
                                assert(hs[i] == r);
                            } else {
                                let i = choose|i: int| rs.contains(i) && hr@[i] == rg;
                                assert(hs[i] == r);
                            }
                        }
                        assert forall|j: int|
                            (ls + rs).contains(j) && (#[trigger] hs[j]) is Some implies r is Some
                            && r->Some_0.0 <= hs[j]->Some_0.0 by {
                            if from_left {
                                if !ls.contains(j) {
                                    assert(hr@[j] is Some);
                                }
                            } else {
                                if !rs.contains(j) {
                                    assert(hl@[j] is Some);
                                }
                            }
                        }
                    }
                    proof {
                        assert forall|j: int| #[trigger] (ls + rs).contains(j) implies 0 <= j < self.list.len()
                            && (leaf_hit.ensures((&self.list@[j],), hs[j]) || (hs[j] is None && pruned(
                            box_hit,
                            self.boxes@,
                            j,
                        ))) by {
                            if ls.contains(j) {
                                assert(0 <= j < self.list.len());
                            } else {
                                assert(rs.contains(j));
                            }
                        }
                    }
                    proof {
                        assert(answered_on(
                            box_hit,
                            leaf_hit,
                            self.list@,
                            self.boxes@,
                            leaves_of(self.branches@, l),
                            hs,
                            r,
                        ));
                    }
                    (r, Ghost(hs))
                } else {
                    let ghost hs = Seq::new(n as nat, |j: int| None::<(u32, R)>);
                    proof {
                        assert forall|i: int| leaves_of(self.branches@, l).contains(i) implies pruned(
                            box_hit,
                            self.boxes@,
                            i,
                        ) by {
                            lemma_link_encloses_leaves(self.boxes@, self.branches@, l, i);
                            assert(box_hit.ensures((br.bbox,), false));
                        }
                        assert forall|i: int| #[trigger] leaves_of(self.branches@, l).contains(i) implies 0 <= i
                            < self.list.len() && hs[i] is None by {
                            lemma_link_encloses_leaves(self.boxes@, self.branches@, l, i);
                        }
                    }
                    proof {
                        assert(answered_on(
                            box_hit,
                            leaf_hit,
                            self.list@,
                            self.boxes@,
                            leaves_of(self.branches@, l),
                            hs,
                            None,
                        ));
                    }
                    (None, Ghost(hs))
                }
            },
        }
    }

    /// The nearest hit of a ray among all primitives.
    ///
    /// `leaf_hit` tests one primitive and gives the ordered key of its hit
    /// parameter with what else the caller needs; `box_hit` tests a box, and
    /// every primitive inside a box it misses is skipped.
    pub fn hit<R, B: Fn(Aabb) -> bool, L: Fn(&T) -> Option<(u32, R)>>(
        &self,
        box_hit: &B,
        leaf_hit: &L,
    ) -> (r: Option<(u32, R)>)
        requires
            self.wf(),
            forall|a: Aabb| box_hit.requires((a,)),
            forall|i: int| 0 <= i < self.list.len() ==> leaf_hit.requires((&self.list[i],)),
        ensures
            bvh_answer(box_hit, leaf_hit, self.list@, self.boxes@, r),
    {
        let (r, hs) = self.hit_link(self.root, box_hit, leaf_hit);
        proof {
            let n = self.list.len() as int;
            assert(answers_or_pruned(box_hit, leaf_hit, self.list@, self.boxes@, hs@)) by {
                assert forall|i: int| 0 <= i < n implies #[trigger] leaf_hit.ensures(
                    (&self.list@[i],),
                    hs@[i],
                ) || (hs@[i] is None && pruned(box_hit, self.boxes@, i)) by {
                    assert(index_set(n).contains(i));
                }
            }
            assert(nearest_of(hs@, r)) by {
                if r is Some {
                    let i = choose|i: int| index_set(n).contains(i) && hs@[i] == r;
                }
                assert forall|i: int| 0 <= i < hs@.len() && (#[trigger] hs@[i]) is Some implies r is Some
                    && r->Some_0.0 <= hs@[i]->Some_0.0 by {
                    assert(index_set(n).contains(i));
                }
            }
        }
        r
    }
}

/// On the primitives in `s`, `hs` holds an answer that `leaf_hit` gives or
/// none for a primitive inside a missed box, and `r` is the nearest of them.
pub open spec fn answered_on<T, R, B: Fn(Aabb) -> bool, L: Fn(&T) -> Option<(u32, R)>>(
    box_hit: &B,
    leaf_hit: &L,
    list: Seq<T>,
    boxes: Seq<Aabb>,
    s: Set<int>,
    hs: Seq<Option<(u32, R)>>,
    r: Option<(u32, R)>,
) -> bool {
    &&& hs.len() == list.len()
    &&& forall|i: int|
        #[trigger] s.contains(i) ==> 0 <= i < list.len() && (leaf_hit.ensures((&list[i],), hs[i]) || (
        hs[i] is None && pruned(box_hit, boxes, i)))
    &&& r is Some ==> exists|i: int| s.contains(i) && hs[i] == r
    &&& forall|i: int|
        s.contains(i) && (#[trigger] hs[i]) is Some ==> r is Some && r->Some_0.0 <= hs[i]->Some_0.0
}

} // verus!
