use crate::utility::random_int_range;
use vstd::prelude::*;

verus! {

/// The minimum corner of an object's bounding box, each coordinate given as a
/// key whose integer order is the order of the coordinates.
#[derive(Clone, Copy, Debug)]
pub struct AxisKeys {
    pub x: u64,
    pub y: u64,
    pub z: u64,
}

impl AxisKeys {
    pub open spec fn spec_on(self, axis: int) -> u64 {
        if axis == 0 {
            self.x
        } else if axis == 1 {
            self.y
        } else {
            self.z
        }
    }

    /// The key on axis `axis` (0 for x, 1 for y, 2 for z).
    pub fn on_axis(&self, axis: usize) -> (r: u64)
        requires
            axis < 3,
        ensures
            r == self.spec_on(axis as int),
    {
        if axis == 0 {
            self.x
        } else if axis == 1 {
            self.y
        } else {
            self.z
        }
    }
}

/// The key of object `id` on axis `axis`.
fn key_of(keys: &Vec<AxisKeys>, id: usize, axis: usize) -> (r: u64)
    requires
        id < keys.len(),
        axis < 3,
    ensures
        r == keys@[id as int].spec_on(axis as int),
{
    keys[id].on_axis(axis)
}

/// The shape of a bounding-volume hierarchy over a list of objects: a leaf
/// names one object by its place in the list, a node has two subtrees.
pub enum BvhTree {
    Leaf(usize),
    Node(Box<BvhTree>, Box<BvhTree>),
}

/// Every object of `l` lies no further along `axis` than every object of `r`.
pub open spec fn ordered_on(keys: Seq<AxisKeys>, l: Seq<usize>, r: Seq<usize>, axis: int) -> bool {
    forall|a: usize, b: usize|
        #![trigger l.contains(a), r.contains(b)]
        l.contains(a) && r.contains(b) ==> keys[a as int].spec_on(axis) <= keys[b as int].spec_on(
            axis,
        )
}

impl BvhTree {
    /// The objects at the leaves, from left to right.
    pub open spec fn leaves(self) -> Seq<usize>
        decreases self,
    {
        match self {
            BvhTree::Leaf(id) => seq![id],
            BvhTree::Node(l, r) => l.leaves() + r.leaves(),
        }
    }

    /// Each leaf names an object of `keys`, and each node splits its objects at
    /// the middle along one axis: the left subtree holds half of them, rounded
    /// down, and none of them lies further along that axis than any object of
    /// the right subtree.
    pub open spec fn is_median_split(self, keys: Seq<AxisKeys>) -> bool
        decreases self,
    {
        match self {
            BvhTree::Leaf(id) => id < keys.len(),
            BvhTree::Node(l, r) => {
                &&& l.is_median_split(keys)
                &&& r.is_median_split(keys)
                &&& l.leaves().len() == (l.leaves().len() + r.leaves().len()) / 2
                &&& exists|axis: int|
                    0 <= axis < 3 && #[trigger] ordered_on(keys, l.leaves(), r.leaves(), axis)
            },
        }
    }

    /// Builds the hierarchy over the objects whose box minima are `keys`. At each
    /// node an axis is drawn at random; the objects are sorted along it and split
    /// at the middle. Each object ends up at exactly one leaf.
    pub fn build(keys: &Vec<AxisKeys>) -> (t: BvhTree)
        requires
            keys.len() >= 1,
        ensures
            t.leaves().to_multiset() == Seq::new(keys.len() as nat, |i: int| i as usize).to_multiset(),
            t.is_median_split(keys@),
    {
        let mut ids: Vec<usize> = Vec::new();
        let mut i: usize = 0;
        while i < keys.len()
            invariant
                i <= keys.len(),
                ids@ =~= Seq::new(i as nat, |q: int| q as usize),
            decreases keys.len() - i,
        {
            ids.push(i);
            i = i + 1;
        }
        build_span(keys, ids)
    }
}

/// A hierarchy built over `n` objects holds each of them at exactly one leaf and
/// holds nothing else, so a search through it weighs the same objects as a scan
/// of the whole list.
pub proof fn lemma_each_object_once(t: BvhTree, n: nat)
    requires
        n <= usize::MAX,
        t.leaves().to_multiset() == Seq::new(n, |i: int| i as usize).to_multiset(),
    ensures
        t.leaves().no_duplicates(),
        forall|i: usize| t.leaves().contains(i) <==> i < n,
{
    let all = Seq::new(n, |i: int| i as usize);
    let l = t.leaves();
    assert forall|i: int, j: int| 0 <= i < all.len() && 0 <= j < all.len() && i != j implies all[i]
        != all[j] by {
        assert(all[i] == i as usize && all[j] == j as usize);
    }
    all.lemma_multiset_has_no_duplicates();
    l.lemma_multiset_has_no_duplicates_conv();
    assert forall|i: usize| l.contains(i) <==> i < n by {
        vstd::seq_lib::to_multiset_contains(l, i);
        vstd::seq_lib::to_multiset_contains(all, i);
        if i < n {
            assert(all[i as int] == i);
        }
    }
}

/// Relies on `slice::sort_by_key`, a stable sort: it reorders `ids` so that
/// their keys on `axis` ascend, and keeps each id as often as it was there.
#[verifier::external_body]
fn sort_on_axis(ids: &mut Vec<usize>, keys: &Vec<AxisKeys>, axis: usize)
    requires
        axis < 3,
        forall|q: int| 0 <= q < old(ids).len() ==> #[trigger] old(ids)@[q] < keys.len(),
    ensures
        final(ids)@.to_multiset() == old(ids)@.to_multiset(),
        forall|p: int, q: int|
            0 <= p < q < final(ids).len() ==> keys@[#[trigger] final(ids)@[p] as int].spec_on(
                axis as int,
            ) <= keys@[#[trigger] final(ids)@[q] as int].spec_on(axis as int),
{
    ids.sort_by_key(|id| key_of(keys, *id, axis));
}

proof fn lemma_same_elements(a: Seq<usize>, b: Seq<usize>)
    requires
        a.to_multiset() == b.to_multiset(),
    ensures
        forall|x: usize| a.contains(x) <==> b.contains(x),
{
    assert forall|x: usize| a.contains(x) <==> b.contains(x) by {
        vstd::seq_lib::to_multiset_contains(a, x);
        vstd::seq_lib::to_multiset_contains(b, x);
    }
}

fn build_span(keys: &Vec<AxisKeys>, ids: Vec<usize>) -> (t: BvhTree)
    requires
        ids.len() >= 1,
        forall|q: int| 0 <= q < ids.len() ==> #[trigger] ids@[q] < keys.len(),
    ensures
        t.leaves().to_multiset() == ids@.to_multiset(),
        t.is_median_split(keys@),
    decreases ids.len(),
{
    let n = ids.len();
    if n == 1 {
        let t = BvhTree::Leaf(ids[0]);
        assert(t.leaves() =~= ids@);
        return t;
    }
    let axis = random_int_range(0, 2) as usize;
    let mut ids = ids;
    if n == 2 {
        let a = ids[0];
        let b = ids[1];
        let (first, second) = if key_of(keys, a, axis) < key_of(keys, b, axis) {
            (a, b)
        } else {
            (b, a)
        };
        let t = BvhTree::Node(Box::new(BvhTree::Leaf(first)), Box::new(BvhTree::Leaf(second)));
        proof {
            let l = seq![first];
            let r = seq![second];
            assert(BvhTree::Leaf(first).leaves() == l);
            assert(BvhTree::Leaf(second).leaves() == r);
            assert(ids@[0] < keys.len() && ids@[1] < keys.len());
            assert(BvhTree::Leaf(first).is_median_split(keys@));
            assert(BvhTree::Leaf(second).is_median_split(keys@));
            assert(t.leaves() =~= l + r);
            assert(ordered_on(keys@, l, r, axis as int));
            if first == a {
                assert(t.leaves() =~= ids@);
            } else {
                assert(ids@ =~= seq![a].push(b));
                assert(t.leaves() =~= seq![b].push(a));
                vstd::seq_lib::lemma_multiset_commutative(seq![a], seq![b]);
                vstd::seq_lib::lemma_multiset_commutative(seq![b], seq![a]);
                assert(ids@ =~= seq![a] + seq![b]);
                assert(t.leaves() =~= seq![b] + seq![a]);
            }
        }
        return t;
    }
    let ghost before = ids@;
    sort_on_axis(&mut ids, keys, axis);
    let ghost sorted = ids@;
    proof {
        vstd::seq_lib::to_multiset_len(before);
        vstd::seq_lib::to_multiset_len(sorted);
        lemma_same_elements(sorted, before);
        assert forall|q: int| 0 <= q < sorted.len() implies #[trigger] sorted[q] < keys.len() by {
            assert(sorted.contains(sorted[q]));
            let p = choose|p: int| 0 <= p < before.len() && before[p] == sorted[q];
        }
    }
    let mid = n / 2;
    let right_ids = ids.split_off(mid);
    let right = build_span(keys, right_ids);
    let left = build_span(keys, ids);
    let t = BvhTree::Node(Box::new(left), Box::new(right));
    proof {
        let ls = sorted.subrange(0, mid as int);
        let rs = sorted.subrange(mid as int, n as int);
        assert(sorted =~= ls + rs);
        vstd::seq_lib::lemma_multiset_commutative(ls, rs);
        vstd::seq_lib::lemma_multiset_commutative(left.leaves(), right.leaves());
        vstd::seq_lib::to_multiset_len(left.leaves());
        vstd::seq_lib::to_multiset_len(right.leaves());
        vstd::seq_lib::to_multiset_len(ls);
        vstd::seq_lib::to_multiset_len(rs);
        lemma_same_elements(left.leaves(), ls);
        lemma_same_elements(right.leaves(), rs);
        assert forall|a: usize, b: usize|
            left.leaves().contains(a) && right.leaves().contains(b) implies keys@[a as int].spec_on(
            axis as int,
        ) <= keys@[b as int].spec_on(axis as int) by {
            assert(ls.contains(a));
            assert(rs.contains(b));
            let p = choose|p: int| 0 <= p < ls.len() && ls[p] == a;
            let q = choose|q: int| 0 <= q < rs.len() && rs[q] == b;
            assert(sorted[p] == a);
            assert(sorted[mid + q] == b);
        }
        assert(ordered_on(keys@, left.leaves(), right.leaves(), axis as int));
    }
    t
}

} // verus!
