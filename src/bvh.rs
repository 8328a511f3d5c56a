use vstd::multiset::Multiset;
use vstd::prelude::*;

use crate::primitive::PrimitiveRef;

verus! {

/// One node of a bounding-volume hierarchy over boxes of type `B`.
pub enum BVHNode<B> {
    Leaf { aabb: B, primitive: PrimitiveRef },
    Binary { aabb: B, left: usize, right: usize },
}

impl<B> BVHNode<B> {
    pub open spec fn spec_aabb(self) -> B {
        match self {
            BVHNode::Leaf { aabb, .. } => aabb,
            BVHNode::Binary { aabb, .. } => aabb,
        }
    }

    /// Whether both children of a binary node are below `len`.
    pub open spec fn children_below(self, len: int) -> bool {
        match self {
            BVHNode::Leaf { .. } => true,
            BVHNode::Binary { left, right, .. } => left < len && right < len,
        }
    }

    /// This node once the array of `len` nodes that holds it is reversed:
    /// each child index `k` becomes `len - k - 1`.
    pub open spec fn reindexed(self, len: int) -> Self {
        match self {
            BVHNode::Leaf { aabb, primitive } => BVHNode::Leaf { aabb, primitive },
            BVHNode::Binary { aabb, left, right } => BVHNode::Binary {
                aabb,
                left: (len - left - 1) as usize,
                right: (len - right - 1) as usize,
            },
        }
    }

    pub fn aabb(&self) -> (r: &B)
        ensures
            *r == self.spec_aabb(),
    {
        match self {
            BVHNode::Leaf { aabb, .. } => aabb,
            BVHNode::Binary { aabb, .. } => aabb,
        }
    }

    pub fn reverse(self, len: usize) -> (r: Self)
        requires
            self.children_below(len as int),
        ensures
            r == self.reindexed(len as int),
    {
        match self {
            BVHNode::Leaf { aabb, primitive } => BVHNode::Leaf { aabb, primitive },
            BVHNode::Binary { aabb, left, right } => BVHNode::Binary {
                aabb,
                left: len - left - 1,
                right: len - right - 1,
            },
        }
    }
}

/// Every binary node's children come before it (the order in which a
/// depth-first build emits them).
pub open spec fn children_first<B>(nodes: Seq<BVHNode<B>>) -> bool {
    forall|i: int|
        0 <= i < nodes.len() ==> match #[trigger] nodes[i] {
            BVHNode::Leaf { .. } => true,
            BVHNode::Binary { left, right, .. } => left < i && right < i,
        }
}

/// Every binary node's children come after it and inside the array, so the
/// root sits at index 0.
pub open spec fn parents_first<B>(nodes: Seq<BVHNode<B>>) -> bool {
    forall|i: int|
        0 <= i < nodes.len() ==> match #[trigger] nodes[i] {
            BVHNode::Leaf { .. } => true,
            BVHNode::Binary { left, right, .. } => i < left < nodes.len() && i < right < nodes.len(),
        }
}

/// `Some` of both results combined by `comp`, or the one that is present.
pub open spec fn combine<O>(a: Option<O>, b: Option<O>, comp: spec_fn(O, O) -> O) -> Option<O> {
    match (a, b) {
        (None, None) => None,
        (Some(x), None) => Some(x),
        (None, Some(y)) => Some(y),
        (Some(x), Some(y)) => Some(comp(x, y)),
    }
}

/// What a traversal from node `i` yields: a leaf yields `find` of its
/// primitive; a binary node whose box `hit` accepts yields its children's
/// results combined, one whose box is missed yields nothing.
pub open spec fn traverse<B, O>(
    nodes: Seq<BVHNode<B>>,
    i: int,
    hit: spec_fn(B) -> bool,
    find: spec_fn(PrimitiveRef) -> Option<O>,
    comp: spec_fn(O, O) -> O,
) -> Option<O>
    decreases nodes.len() - i,
{
    if 0 <= i < nodes.len() {
        match nodes[i] {
            BVHNode::Leaf { primitive, .. } => find(primitive),
            BVHNode::Binary { aabb, left, right } => {
                if hit(aabb) && i < left < nodes.len() && i < right < nodes.len() {
                    combine(
                        traverse(nodes, left as int, hit, find, comp),
                        traverse(nodes, right as int, hit, find, comp),
                        comp,
                    )
                } else {
                    None
                }
            },
        }
    } else {
        None
    }
}

/// The box test that a closure performs, read from its postcondition.
pub open spec fn hit_of<B, H: Fn(&B) -> bool>(hit: H) -> spec_fn(B) -> bool {
    |b: B| hit.ensures((&b,), true)
}

/// The per-primitive result that a closure returns, read from its postcondition.
pub open spec fn find_of<O, F: Fn(PrimitiveRef) -> Option<O>>(find: F) -> spec_fn(PrimitiveRef) -> Option<O> {
    |p: PrimitiveRef| choose|o: Option<O>| find.ensures((p,), o)
}

/// The reduction that a closure performs, read from its postcondition.
pub open spec fn comp_of<O, C: Fn(O, O) -> O>(comp: C) -> spec_fn(O, O) -> O {
    |a: O, b: O| choose|o: O| comp.ensures((a, b), o)
}

/// Each binary node's box is what `merge` made of its children's boxes.
pub open spec fn boxes_merged<B, M: Fn(&B, &B) -> B>(nodes: Seq<BVHNode<B>>, merge: M) -> bool {
    forall|k: int|
        0 <= k < nodes.len() ==> match #[trigger] nodes[k] {
            BVHNode::Leaf { .. } => true,
            BVHNode::Binary { aabb, left, right } => left < nodes.len() && right < nodes.len() ==> merge.ensures(
                (&nodes[left as int].spec_aabb(), &nodes[right as int].spec_aabb()),
                aabb,
            ),
        }
}

/// The primitives, with their boxes, of the leaves below node `i` of an array
/// built children-first.
pub open spec fn items_below<B>(nodes: Seq<BVHNode<B>>, i: int) -> Multiset<(PrimitiveRef, B)>
    decreases i,
{
    if 0 <= i < nodes.len() {
        match nodes[i] {
            BVHNode::Leaf { aabb, primitive } => Multiset::singleton((primitive, aabb)),
            BVHNode::Binary { left, right, .. } => {
                if left < i && right < i {
                    items_below(nodes, left as int).add(items_below(nodes, right as int))
                } else {
                    Multiset::empty()
                }
            },
        }
    } else {
        Multiset::empty()
    }
}

/// The primitives, with their boxes, of the leaves below node `i` of an array
/// whose root comes first.
pub open spec fn items_from<B>(nodes: Seq<BVHNode<B>>, i: int) -> Multiset<(PrimitiveRef, B)>
    decreases nodes.len() - i,
{
    if 0 <= i < nodes.len() {
        match nodes[i] {
            BVHNode::Leaf { aabb, primitive } => Multiset::singleton((primitive, aabb)),
            BVHNode::Binary { left, right, .. } => {
                if i < left < nodes.len() && i < right < nodes.len() {
                    items_from(nodes, left as int).add(items_from(nodes, right as int))
                } else {
                    Multiset::empty()
                }
            },
        }
    } else {
        Multiset::empty()
    }
}

/// Appending a leaf, or a binary node over earlier nodes whose box `merge`
/// made, keeps an array children-first with merged boxes.
proof fn lemma_push_node<B, M: Fn(&B, &B) -> B>(before: Seq<BVHNode<B>>, after: Seq<BVHNode<B>>, merge: M)
    requires
        after.len() == before.len() + 1,
        after.drop_last() == before,
        children_first(before),
        boxes_merged(before, merge),
        match after.last() {
            BVHNode::Leaf { .. } => true,
            BVHNode::Binary { aabb, left, right } => left < before.len() && right < before.len()
                && merge.ensures((&before[left as int].spec_aabb(), &before[right as int].spec_aabb()), aabb),
        },
    ensures
        children_first(after),
        boxes_merged(after, merge),
{
    assert forall|k: int| 0 <= k < after.len() implies match #[trigger] after[k] {
        BVHNode::Leaf { .. } => true,
        BVHNode::Binary { left, right, .. } => left < k && right < k,
    } by {
        if k < before.len() {
            assert(after[k] == after.drop_last()[k]);
        }
    }
    assert forall|k: int| 0 <= k < after.len() implies match #[trigger] after[k] {
        BVHNode::Leaf { .. } => true,
        BVHNode::Binary { aabb, left, right } => left < after.len() && right < after.len() ==> merge.ensures(
            (&after[left as int].spec_aabb(), &after[right as int].spec_aabb()),
            aabb,
        ),
    } by {
        if k < before.len() {
            assert(after[k] == after.drop_last()[k]);
            match before[k] {
                BVHNode::Binary { left, right, .. } => {
                    assert(left < k && right < k);
                    assert(after[left as int] == after.drop_last()[left as int]);
                    assert(after[right as int] == after.drop_last()[right as int]);
                },
                BVHNode::Leaf { .. } => {},
            }
        } else {
            match after.last() {
                BVHNode::Binary { left, right, .. } => {
                    assert(after[left as int] == after.drop_last()[left as int]);
                    assert(after[right as int] == after.drop_last()[right as int]);
                },
                BVHNode::Leaf { .. } => {},
            }
        }
    }
}

/// Reversing a children-first array keeps each binary node's box merged
/// from its children's.
proof fn lemma_reverse_keeps_merged<B, M: Fn(&B, &B) -> B>(built: Seq<BVHNode<B>>, rev: Seq<BVHNode<B>>, merge: M)
    requires
        children_first(built),
        boxes_merged(built, merge),
        built.len() <= usize::MAX,
        rev.len() == built.len(),
        forall|k: int| 0 <= k < built.len() ==> #[trigger] rev[k] == built[built.len() - 1 - k].reindexed(built.len() as int),
    ensures
        boxes_merged(rev, merge),
{
    assert forall|k: int| 0 <= k < rev.len() implies match #[trigger] rev[k] {
        BVHNode::Leaf { .. } => true,
        BVHNode::Binary { aabb, left, right } => left < rev.len() && right < rev.len()
            ==> merge.ensures((&rev[left as int].spec_aabb(), &rev[right as int].spec_aabb()), aabb),
    } by {
        lemma_reverse_keeps_merged_at(built, rev, merge, k);
    }
}

#[verifier::spinoff_prover]
proof fn lemma_reverse_keeps_merged_at<B, M: Fn(&B, &B) -> B>(
    built: Seq<BVHNode<B>>,
    rev: Seq<BVHNode<B>>,
    merge: M,
    k: int,
)
    requires
        children_first(built),
        boxes_merged(built, merge),
        built.len() <= usize::MAX,
        rev.len() == built.len(),
        forall|k: int| 0 <= k < built.len() ==> #[trigger] rev[k] == built[built.len() - 1 - k].reindexed(built.len() as int),
        0 <= k < rev.len(),
    ensures
        match rev[k] {
            BVHNode::Leaf { .. } => true,
            BVHNode::Binary { aabb, left, right } => left < rev.len() && right < rev.len()
                ==> merge.ensures((&rev[left as int].spec_aabb(), &rev[right as int].spec_aabb()), aabb),
        },
{
    let len = built.len() as int;
    let j = len - 1 - k;
    assert(rev[k] == built[j].reindexed(len));
    match built[j] {
        BVHNode::Binary { aabb, left, right } => {
            assert(left < j && right < j);
            assert(merge.ensures((&built[left as int].spec_aabb(), &built[right as int].spec_aabb()), aabb));
            let l2 = len - 1 - left;
            let r2 = len - 1 - right;
            assert(rev[l2] == built[len - 1 - l2].reindexed(len));
            assert(rev[r2] == built[len - 1 - r2].reindexed(len));
            assert(rev[l2].spec_aabb() == built[left as int].spec_aabb());
            assert(rev[r2].spec_aabb() == built[right as int].spec_aabb());
        },
        BVHNode::Leaf { .. } => {},
    }
}

/// Three arrays, each a prefix of the next.
proof fn lemma_prefix_chain<B>(a: Seq<BVHNode<B>>, b: Seq<BVHNode<B>>, c: Seq<BVHNode<B>>)
    requires
        a.len() <= b.len() <= c.len(),
        b.subrange(0, a.len() as int) == a,
        c.subrange(0, b.len() as int) == b,
    ensures
        c.subrange(0, a.len() as int) == a,
{
    assert(c.subrange(0, a.len() as int) =~= b.subrange(0, a.len() as int));
}

/// Appending nodes leaves what lies below the earlier ones unchanged.
proof fn lemma_items_below_prefix<B>(small: Seq<BVHNode<B>>, big: Seq<BVHNode<B>>, i: int)
    requires
        small.len() <= big.len(),
        big.subrange(0, small.len() as int) == small,
        0 <= i < small.len(),
    ensures
        items_below(big, i) == items_below(small, i),
    decreases i,
{
    assert(big.subrange(0, small.len() as int)[i] == big[i]);
    match small[i] {
        BVHNode::Leaf { .. } => {},
        BVHNode::Binary { left, right, .. } => {
            if left < i && right < i {
                lemma_items_below_prefix(small, big, left as int);
                lemma_items_below_prefix(small, big, right as int);
            }
        },
    }
}

/// Reversing a children-first array keeps what lies below each node.
proof fn lemma_items_reversed<B>(orig: Seq<BVHNode<B>>, rev: Seq<BVHNode<B>>, j: int)
    requires
        children_first(orig),
        orig.len() <= usize::MAX,
        rev.len() == orig.len(),
        forall|k: int| 0 <= k < orig.len() ==> #[trigger] rev[k] == orig[orig.len() - 1 - k].reindexed(orig.len() as int),
        0 <= j < orig.len(),
    ensures
        items_from(rev, orig.len() - 1 - j) == items_below(orig, j),
    decreases j,
{
    let len = orig.len() as int;
    let k = len - 1 - j;
    assert(rev[k] == orig[len - 1 - k].reindexed(len));
    assert(len - 1 - k == j);
    match orig[j] {
        BVHNode::Leaf { .. } => {},
        BVHNode::Binary { left, right, .. } => {
            assert(left < j && right < j);
            lemma_items_reversed(orig, rev, left as int);
            lemma_items_reversed(orig, rev, right as int);
            let l2 = len - 1 - left;
            let r2 = len - 1 - right;
            assert(k < l2 < len && k < r2 < len);
            match rev[k] {
                BVHNode::Binary { left: a, right: b, .. } => {
                    assert(a as int == l2 && b as int == r2);
                    assert(items_from(rev, k) == items_from(rev, l2).add(items_from(rev, r2)));
                },
                BVHNode::Leaf { .. } => {},
            }
        },
    }
}

/// How the primitives for which `partition` returned `halves` are divided
/// between the two children of a node, which hold `left` and `right`: as
/// `partition` divided them when both halves are non-empty, and otherwise cut
/// in the middle of the two halves laid end to end.
pub open spec fn split_as<B>(
    halves: (Vec<(PrimitiveRef, B)>, Vec<(PrimitiveRef, B)>),
    left: Multiset<(PrimitiveRef, B)>,
    right: Multiset<(PrimitiveRef, B)>,
) -> bool {
    let both = halves.0@ + halves.1@;
    if halves.0@.len() > 0 && halves.1@.len() > 0 {
        left == halves.0@.to_multiset() && right == halves.1@.to_multiset()
    } else {
        left == both.take(both.len() as int / 2).to_multiset() && right == both.skip(both.len() as int / 2).to_multiset()
    }
}

/// A node holding `items` divides them between children holding `left` and
/// `right` as a call of `partition` on those items prescribes.
pub open spec fn split_by<B, P: Fn(Vec<(PrimitiveRef, B)>) -> (Vec<(PrimitiveRef, B)>, Vec<(PrimitiveRef, B)>)>(
    partition: P,
    items: Multiset<(PrimitiveRef, B)>,
    left: Multiset<(PrimitiveRef, B)>,
    right: Multiset<(PrimitiveRef, B)>,
) -> bool {
    exists|v: Vec<(PrimitiveRef, B)>, halves: (Vec<(PrimitiveRef, B)>, Vec<(PrimitiveRef, B)>)|
        #[trigger] partition.ensures((v,), halves) && v@.to_multiset() == items && split_as(halves, left, right)
}

/// Every binary node of a children-first array divides its primitives as
/// `partition` prescribes.
pub open spec fn splits_below<B, P: Fn(Vec<(PrimitiveRef, B)>) -> (Vec<(PrimitiveRef, B)>, Vec<(PrimitiveRef, B)>)>(
    nodes: Seq<BVHNode<B>>,
    partition: P,
) -> bool {
    forall|k: int|
        0 <= k < nodes.len() ==> match #[trigger] nodes[k] {
            BVHNode::Leaf { .. } => true,
            BVHNode::Binary { left, right, .. } => split_by(
                partition,
                items_below(nodes, k),
                items_below(nodes, left as int),
                items_below(nodes, right as int),
            ),
        }
}

/// Every binary node of a root-first array divides its primitives as
/// `partition` prescribes.
pub open spec fn splits_from<B, P: Fn(Vec<(PrimitiveRef, B)>) -> (Vec<(PrimitiveRef, B)>, Vec<(PrimitiveRef, B)>)>(
    nodes: Seq<BVHNode<B>>,
    partition: P,
) -> bool {
    forall|k: int|
        0 <= k < nodes.len() ==> match #[trigger] nodes[k] {
            BVHNode::Leaf { .. } => true,
            BVHNode::Binary { left, right, .. } => split_by(
                partition,
                items_from(nodes, k),
                items_from(nodes, left as int),
                items_from(nodes, right as int),
            ),
        }
}

/// Appending a node whose division is as `partition` prescribes keeps every
/// division of a children-first array so.
proof fn lemma_push_keeps_splits<B, P: Fn(Vec<(PrimitiveRef, B)>) -> (Vec<(PrimitiveRef, B)>, Vec<(PrimitiveRef, B)>)>(
    before: Seq<BVHNode<B>>,
    after: Seq<BVHNode<B>>,
    partition: P,
)
    requires
        after.len() == before.len() + 1,
        after.drop_last() == before,
        children_first(before),
        splits_below(before, partition),
        match after.last() {
            BVHNode::Leaf { .. } => true,
            BVHNode::Binary { left, right, .. } => split_by(
                partition,
                items_below(after, before.len() as int),
                items_below(after, left as int),
                items_below(after, right as int),
            ),
        },
    ensures
        splits_below(after, partition),
{
    assert(after.subrange(0, before.len() as int) =~= before);
    assert forall|k: int| 0 <= k < after.len() implies match #[trigger] after[k] {
        BVHNode::Leaf { .. } => true,
        BVHNode::Binary { left, right, .. } => split_by(
            partition,
            items_below(after, k),
            items_below(after, left as int),
            items_below(after, right as int),
        ),
    } by {
        if k < before.len() {
            assert(after[k] == after.drop_last()[k]);
            match before[k] {
                BVHNode::Binary { left, right, .. } => {
                    assert(left < k && right < k);
                    lemma_items_below_prefix(before, after, k);
                    lemma_items_below_prefix(before, after, left as int);
                    lemma_items_below_prefix(before, after, right as int);
                },
                BVHNode::Leaf { .. } => {},
            }
        }
    }
}

/// Reversing a children-first array keeps every node's division.
proof fn lemma_reverse_keeps_splits<B, P: Fn(Vec<(PrimitiveRef, B)>) -> (Vec<(PrimitiveRef, B)>, Vec<(PrimitiveRef, B)>)>(
    built: Seq<BVHNode<B>>,
    rev: Seq<BVHNode<B>>,
    partition: P,
)
    requires
        children_first(built),
        splits_below(built, partition),
        built.len() <= usize::MAX,
        rev.len() == built.len(),
        forall|k: int| 0 <= k < built.len() ==> #[trigger] rev[k] == built[built.len() - 1 - k].reindexed(built.len() as int),
    ensures
        splits_from(rev, partition),
{
    assert forall|k: int| 0 <= k < rev.len() implies match #[trigger] rev[k] {
        BVHNode::Leaf { .. } => true,
        BVHNode::Binary { left, right, .. } => split_by(
            partition,
            items_from(rev, k),
            items_from(rev, left as int),
            items_from(rev, right as int),
        ),
    } by {
        lemma_reverse_keeps_split_at(built, rev, partition, k);
    }
}

#[verifier::spinoff_prover]
proof fn lemma_reverse_keeps_split_at<B, P: Fn(Vec<(PrimitiveRef, B)>) -> (Vec<(PrimitiveRef, B)>, Vec<(PrimitiveRef, B)>)>(
    built: Seq<BVHNode<B>>,
    rev: Seq<BVHNode<B>>,
    partition: P,
    k: int,
)
    requires
        children_first(built),
        splits_below(built, partition),
        built.len() <= usize::MAX,
        rev.len() == built.len(),
        forall|k: int| 0 <= k < built.len() ==> #[trigger] rev[k] == built[built.len() - 1 - k].reindexed(built.len() as int),
        0 <= k < rev.len(),
    ensures
        match rev[k] {
            BVHNode::Leaf { .. } => true,
            BVHNode::Binary { left, right, .. } => split_by(
                partition,
                items_from(rev, k),
                items_from(rev, left as int),
                items_from(rev, right as int),
            ),
        },
{
    let len = built.len() as int;
    let j = len - 1 - k;
    assert(rev[k] == built[j].reindexed(len));
    match built[j] {
        BVHNode::Binary { left, right, .. } => {
            assert(left < j && right < j);
            lemma_items_reversed(built, rev, j);
            lemma_items_reversed(built, rev, left as int);
            lemma_items_reversed(built, rev, right as int);
            assert(len - 1 - (len - 1 - left) == left);
            assert(len - 1 - (len - 1 - right) == right);
        },
        BVHNode::Leaf { .. } => {},
    }
}

/// Some primitive below node `i` yields a result.
pub open spec fn some_found<B, O>(nodes: Seq<BVHNode<B>>, i: int, find: spec_fn(PrimitiveRef) -> Option<O>) -> bool {
    exists|x: (PrimitiveRef, B)| #[trigger] items_from(nodes, i).contains(x) && find(x.0) is Some
}

/// The box test never rejects a node below which some primitive yields a result.
pub open spec fn conservative<B, O>(
    nodes: Seq<BVHNode<B>>,
    hit: spec_fn(B) -> bool,
    find: spec_fn(PrimitiveRef) -> Option<O>,
) -> bool {
    forall|k: int|
        0 <= k < nodes.len() && (#[trigger] nodes[k]) is Binary && some_found(nodes, k, find) ==> hit(
            nodes[k].spec_aabb(),
        )
}

/// `comp` keeps the closer of two results under the preorder `le`.
pub open spec fn keeps_closer<O>(comp: spec_fn(O, O) -> O, le: spec_fn(O, O) -> bool) -> bool {
    &&& forall|a: O, b: O, c: O| #[trigger] le(a, b) && #[trigger] le(b, c) ==> le(a, c)
    &&& forall|a: O, b: O|
        (#[trigger] comp(a, b) == a || comp(a, b) == b) && le(comp(a, b), a) && le(comp(a, b), b)
}

/// A traversal finds the closest hit: where no box that holds a hit primitive
/// is rejected and the reduction keeps the closer of two hits, the traversal
/// from the root yields a result exactly when some primitive of the hierarchy
/// does, that result is one primitive's own, and no primitive's result is
/// closer.
pub proof fn lemma_closest_hit<B, O>(
    nodes: Seq<BVHNode<B>>,
    hit: spec_fn(B) -> bool,
    find: spec_fn(PrimitiveRef) -> Option<O>,
    comp: spec_fn(O, O) -> O,
    le: spec_fn(O, O) -> bool,
)
    requires
        parents_first(nodes),
        conservative(nodes, hit, find),
        keeps_closer(comp, le),
    ensures
        traverse(nodes, 0, hit, find, comp) is Some <==> some_found(nodes, 0, find),
        traverse(nodes, 0, hit, find, comp) is Some ==> exists|x: (PrimitiveRef, B)|
            #[trigger] items_from(nodes, 0).contains(x) && find(x.0) == traverse(nodes, 0, hit, find, comp),
        forall|y: (PrimitiveRef, B)|
            #[trigger] items_from(nodes, 0).contains(y) && find(y.0) is Some && traverse(nodes, 0, hit, find, comp) is Some
                ==> le(traverse(nodes, 0, hit, find, comp)->0, find(y.0)->0),
{
    lemma_closest_hit_from(nodes, 0, hit, find, comp, le);
}

#[verifier::spinoff_prover]
proof fn lemma_closest_hit_from<B, O>(
    nodes: Seq<BVHNode<B>>,
    i: int,
    hit: spec_fn(B) -> bool,
    find: spec_fn(PrimitiveRef) -> Option<O>,
    comp: spec_fn(O, O) -> O,
    le: spec_fn(O, O) -> bool,
)
    requires
        parents_first(nodes),
        conservative(nodes, hit, find),
        keeps_closer(comp, le),
    ensures
        traverse(nodes, i, hit, find, comp) is Some <==> some_found(nodes, i, find),
        traverse(nodes, i, hit, find, comp) is Some ==> exists|x: (PrimitiveRef, B)|
            #[trigger] items_from(nodes, i).contains(x) && find(x.0) == traverse(nodes, i, hit, find, comp),
        forall|y: (PrimitiveRef, B)|
            #[trigger] items_from(nodes, i).contains(y) && find(y.0) is Some && traverse(nodes, i, hit, find, comp) is Some
                ==> le(traverse(nodes, i, hit, find, comp)->0, find(y.0)->0),
    decreases nodes.len() - i,
{
    broadcast use vstd::multiset::group_multiset_axioms;

    if 0 <= i < nodes.len() {
        match nodes[i] {
            BVHNode::Leaf { aabb, primitive } => {
                let x = (primitive, aabb);
                assert(items_from(nodes, i) == Multiset::singleton(x));
                if find(primitive) is Some {
                    assert(items_from(nodes, i).contains(x));
                }
                assert forall|y: (PrimitiveRef, B)|
                    #[trigger] items_from(nodes, i).contains(y) && find(y.0) is Some && traverse(nodes, i, hit, find, comp) is Some
                        implies le(traverse(nodes, i, hit, find, comp)->0, find(y.0)->0) by {
                    assert(y == x);
                    let o = find(y.0)->0;
                    assert(comp(o, o) == o);
                }
            },
            BVHNode::Binary { aabb, left, right } => {
                let l = left as int;
                let r = right as int;
                assert(i < l < nodes.len() && i < r < nodes.len());
                lemma_closest_hit_from(nodes, l, hit, find, comp, le);
                lemma_closest_hit_from(nodes, r, hit, find, comp, le);
                let tl = traverse(nodes, l, hit, find, comp);
                let tr = traverse(nodes, r, hit, find, comp);
                let t = traverse(nodes, i, hit, find, comp);
                let items = items_from(nodes, i);
                assert(items == items_from(nodes, l).add(items_from(nodes, r)));
                if some_found(nodes, i, find) {
                    let x = choose|x: (PrimitiveRef, B)| #[trigger] items.contains(x) && find(x.0) is Some;
                    if items_from(nodes, l).contains(x) {
                        assert(some_found(nodes, l, find));
                    } else {
                        assert(items_from(nodes, r).contains(x));
                        assert(some_found(nodes, r, find));
                    }
                    assert(hit(aabb));
                }
                if hit(aabb) {
                    assert(t == combine(tl, tr, comp));
                    if some_found(nodes, l, find) {
                        let x = choose|x: (PrimitiveRef, B)| #[trigger] items_from(nodes, l).contains(x) && find(x.0) is Some;
                        assert(items.contains(x));
                    }
                    if some_found(nodes, r, find) {
                        let x = choose|x: (PrimitiveRef, B)| #[trigger] items_from(nodes, r).contains(x) && find(x.0) is Some;
                        assert(items.contains(x));
                    }
                    if t is Some {
                        let from_left = tl is Some && (tr is None || comp(tl->0, tr->0) == tl->0);
                        if tl is Some && tr is Some {
                            let a = tl->0;
                            let b = tr->0;
                            assert(comp(a, b) == a || comp(a, b) == b);
                        }
                        if from_left {
                            let x = choose|x: (PrimitiveRef, B)| #[trigger] items_from(nodes, l).contains(x) && find(x.0) == tl;
                            assert(items.contains(x));
                        } else {
                            let x = choose|x: (PrimitiveRef, B)| #[trigger] items_from(nodes, r).contains(x) && find(x.0) == tr;
                            assert(items.contains(x));
                        }
                    }
                    assert forall|y: (PrimitiveRef, B)|
                        #[trigger] items.contains(y) && find(y.0) is Some && t is Some implies le(t->0, find(y.0)->0) by {
                        let o2 = find(y.0)->0;
                        if items_from(nodes, l).contains(y) {
                            assert(some_found(nodes, l, find));
                            let a = tl->0;
                            assert(le(a, o2));
                            if tr is Some {
                                let b = tr->0;
                                assert(le(comp(a, b), a));
                                assert(t->0 == comp(a, b));
                            }
                        } else {
                            assert(items_from(nodes, r).contains(y));
                            assert(some_found(nodes, r, find));
                            let b = tr->0;
                            assert(le(b, o2));
                            if tl is Some {
                                let a = tl->0;
                                assert(le(comp(a, b), b));
                                assert(t->0 == comp(a, b));
                            }
                        }
                    }
                } else {
                    assert(t is None);
                }
            },
        }
    } else {
        assert(items_from(nodes, i) =~= Multiset::<(PrimitiveRef, B)>::empty());
    }
}

/// `join` is the least upper bound under the containment preorder `within`.
pub open spec fn is_union<B>(join: spec_fn(B, B) -> B, within: spec_fn(B, B) -> bool) -> bool {
    &&& forall|a: B| #[trigger] within(a, a)
    &&& forall|a: B, b: B, c: B| #[trigger] within(a, b) && #[trigger] within(b, c) ==> within(a, c)
    &&& forall|a: B, b: B| within(a, #[trigger] join(a, b)) && within(b, join(a, b))
    &&& forall|a: B, b: B, c: B| within(a, c) && within(b, c) ==> #[trigger] within(join(a, b), c)
}

/// `c` contains the box of every primitive below node `i`.
pub open spec fn holds_all_below<B>(nodes: Seq<BVHNode<B>>, i: int, within: spec_fn(B, B) -> bool, c: B) -> bool {
    forall|x: (PrimitiveRef, B)| #[trigger] items_from(nodes, i).contains(x) ==> within(x.1, c)
}

/// The root's box is the union of the leaves' boxes: where each binary
/// node's box is the union of its children's, the root's box contains every
/// leaf's box and lies within any box that contains them all.
pub proof fn lemma_root_box_is_union<B, M: Fn(&B, &B) -> B>(
    nodes: Seq<BVHNode<B>>,
    merge: M,
    join: spec_fn(B, B) -> B,
    within: spec_fn(B, B) -> bool,
)
    requires
        nodes.len() > 0,
        parents_first(nodes),
        boxes_merged(nodes, merge),
        forall|a: &B, b: &B, c: B| #[trigger] merge.ensures((a, b), c) ==> c == join(*a, *b),
        is_union(join, within),
    ensures
        holds_all_below(nodes, 0, within, nodes[0].spec_aabb()),
        forall|c: B| holds_all_below(nodes, 0, within, c) ==> within(nodes[0].spec_aabb(), c),
{
    lemma_box_is_union_from(nodes, 0, merge, join, within);
}

#[verifier::spinoff_prover]
proof fn lemma_box_is_union_from<B, M: Fn(&B, &B) -> B>(
    nodes: Seq<BVHNode<B>>,
    i: int,
    merge: M,
    join: spec_fn(B, B) -> B,
    within: spec_fn(B, B) -> bool,
)
    requires
        0 <= i < nodes.len(),
        parents_first(nodes),
        boxes_merged(nodes, merge),
        forall|a: &B, b: &B, c: B| #[trigger] merge.ensures((a, b), c) ==> c == join(*a, *b),
        is_union(join, within),
    ensures
        holds_all_below(nodes, i, within, nodes[i].spec_aabb()),
        forall|c: B| holds_all_below(nodes, i, within, c) ==> within(nodes[i].spec_aabb(), c),
    decreases nodes.len() - i,
{
    broadcast use vstd::multiset::group_multiset_axioms;

    match nodes[i] {
        BVHNode::Leaf { aabb, primitive } => {
            assert(items_from(nodes, i) == Multiset::singleton((primitive, aabb)));
            assert forall|c: B| holds_all_below(nodes, i, within, c) implies within(aabb, c) by {
                assert(items_from(nodes, i).contains((primitive, aabb)));
            }
        },
        BVHNode::Binary { aabb, left, right } => {
            let l = left as int;
            let r = right as int;
            assert(i < l < nodes.len() && i < r < nodes.len());
            lemma_box_is_union_from(nodes, l, merge, join, within);
            lemma_box_is_union_from(nodes, r, merge, join, within);
            let lb = nodes[l].spec_aabb();
            let rb = nodes[r].spec_aabb();
            assert(merge.ensures((&lb, &rb), aabb));
            assert(aabb == join(lb, rb));
            let items = items_from(nodes, i);
            assert(items == items_from(nodes, l).add(items_from(nodes, r)));
            assert forall|x: (PrimitiveRef, B)| #[trigger] items.contains(x) implies within(x.1, aabb) by {
                assert(within(lb, aabb) && within(rb, aabb));
                if items_from(nodes, l).contains(x) {
                    assert(within(x.1, lb));
                } else {
                    assert(items_from(nodes, r).contains(x));
                    assert(within(x.1, rb));
                }
            }
            assert forall|c: B| holds_all_below(nodes, i, within, c) implies within(aabb, c) by {
                assert forall|x: (PrimitiveRef, B)| #[trigger] items_from(nodes, l).contains(x) implies within(x.1, c) by {
                    assert(items.contains(x));
                }
                assert forall|x: (PrimitiveRef, B)| #[trigger] items_from(nodes, r).contains(x) implies within(x.1, c) by {
                    assert(items.contains(x));
                }
                assert(holds_all_below(nodes, l, within, c));
                assert(holds_all_below(nodes, r, within, c));
                assert(within(lb, c) && within(rb, c));
            }
        },
    }
}

/// A bounding-volume hierarchy stored as an array of nodes.
pub struct BVH<B> {
    nodes: Vec<BVHNode<B>>,
}

impl<B> View for BVH<B> {
    type V = Seq<BVHNode<B>>;

    closed spec fn view(&self) -> Seq<BVHNode<B>> {
        self.nodes@
    }
}

impl<B> BVH<B> {
    /// A hierarchy without nodes.
    pub fn empty() -> (r: Self)
        ensures
            r@ == Seq::<BVHNode<B>>::empty(),
    {
        BVH { nodes: Vec::new() }
    }

    pub fn len(&self) -> (r: usize)
        ensures
            r == self@.len(),
    {
        self.nodes.len()
    }

    /// Appends a leaf and returns its index.
    pub fn push_leaf(&mut self, aabb: B, primitive: PrimitiveRef) -> (r: usize)
        requires
            old(self)@.len() < usize::MAX,
        ensures
            r == old(self)@.len(),
            final(self)@ == old(self)@.push(BVHNode::Leaf { aabb, primitive }),
    {
        let i = self.nodes.len();
        self.nodes.push(BVHNode::Leaf { aabb, primitive });
        i
    }

    /// Appends a binary node over the nodes at `left` and `right`, whose box
    /// is `merge` of theirs, and returns its index.
    pub fn push_binary<M>(&mut self, left: usize, right: usize, merge: &M) -> (r: usize)
        where
            M: Fn(&B, &B) -> B,
        requires
            old(self)@.len() < usize::MAX,
            left < old(self)@.len(),
            right < old(self)@.len(),
            forall|a: &B, b: &B| merge.requires((a, b)),
        ensures
            r == old(self)@.len(),
            final(self)@.len() == old(self)@.len() + 1,
            final(self)@.drop_last() == old(self)@,
            match final(self)@[r as int] {
                BVHNode::Binary { aabb, left: l, right: rr } => l == left && rr == right
                    && merge.ensures((&old(self)@[left as int].spec_aabb(), &old(self)@[right as int].spec_aabb()), aabb),
                BVHNode::Leaf { .. } => false,
            },
    {
        let aabb = merge(self.nodes[left].aabb(), self.nodes[right].aabb());
        let i = self.nodes.len();
        self.nodes.push(BVHNode::Binary { aabb, left, right });
        proof {
            assert(self.nodes@.drop_last() =~= old(self).nodes@);
        }
        i
    }

    /// Builds a hierarchy over `primitives`, root first. `partition` splits a
    /// set of two or more primitives in two (by the surface-area heuristic);
    /// where it leaves a side empty, the set is cut in the middle instead.
    /// The box of each binary node is `merge` of its children's boxes.
    #[verifier::spinoff_prover]
    pub fn new<P, M>(primitives: Vec<(PrimitiveRef, B)>, partition: &P, merge: &M) -> (r: Self)
        where
            P: Fn(Vec<(PrimitiveRef, B)>) -> (Vec<(PrimitiveRef, B)>, Vec<(PrimitiveRef, B)>),
            M: Fn(&B, &B) -> B,
        requires
            2 * primitives.len() <= usize::MAX,
            forall|v: Vec<(PrimitiveRef, B)>| #[trigger] partition.requires((v,)),
            forall|v: Vec<(PrimitiveRef, B)>, halves: (Vec<(PrimitiveRef, B)>, Vec<(PrimitiveRef, B)>)|
                #[trigger] partition.ensures((v,), halves) ==> (halves.0@ + halves.1@).to_multiset()
                    == v@.to_multiset(),
            forall|a: &B, b: &B| #[trigger] merge.requires((a, b)),
        ensures
            parents_first(r@),
            boxes_merged(r@, *merge),
            splits_from(r@, *partition),
            primitives.len() == 0 ==> r@.len() == 0,
            primitives.len() > 0 ==> r@.len() == 2 * primitives.len() - 1 && items_from(r@, 0)
                == primitives@.to_multiset(),
    {
        let mut bvh = BVH::empty();
        if primitives.len() == 0 {
            return bvh;
        }
        let root = bvh.build_sah(primitives, partition, merge);
        let ghost built = bvh@;
        bvh.reverse();
        proof {
            lemma_items_reversed(built, bvh@, root as int);
            lemma_reverse_keeps_merged(built, bvh@, *merge);
            lemma_reverse_keeps_splits(built, bvh@, *partition);
        }
        bvh
    }

    /// Appends a subtree over `primitives`, children first, and returns the
    /// index of its root, the last node appended.
    #[verifier::spinoff_prover]
    fn build_sah<P, M>(&mut self, primitives: Vec<(PrimitiveRef, B)>, partition: &P, merge: &M) -> (r: usize)
        where
            P: Fn(Vec<(PrimitiveRef, B)>) -> (Vec<(PrimitiveRef, B)>, Vec<(PrimitiveRef, B)>),
            M: Fn(&B, &B) -> B,
        requires
            primitives.len() >= 1,
            old(self)@.len() + 2 * primitives.len() <= usize::MAX,
            children_first(old(self)@),
            boxes_merged(old(self)@, *merge),
            splits_below(old(self)@, *partition),
            forall|v: Vec<(PrimitiveRef, B)>| #[trigger] partition.requires((v,)),
            forall|v: Vec<(PrimitiveRef, B)>, halves: (Vec<(PrimitiveRef, B)>, Vec<(PrimitiveRef, B)>)|
                #[trigger] partition.ensures((v,), halves) ==> (halves.0@ + halves.1@).to_multiset()
                    == v@.to_multiset(),
            forall|a: &B, b: &B| #[trigger] merge.requires((a, b)),
        ensures
            children_first(final(self)@),
            boxes_merged(final(self)@, *merge),
            splits_below(final(self)@, *partition),
            final(self)@.len() == old(self)@.len() + 2 * primitives.len() - 1,
            final(self)@.subrange(0, old(self)@.len() as int) == old(self)@,
            r == final(self)@.len() - 1,
            items_below(final(self)@, r as int) == primitives@.to_multiset(),
        decreases primitives.len(),
    {
        broadcast use vstd::seq_lib::group_to_multiset_ensures;
        broadcast use vstd::multiset::group_multiset_axioms;

        let ghost before = self@;
        let mut primitives = primitives;
        if primitives.len() == 1 {
            let ghost input = primitives@;
            let (primitive, aabb) = primitives.pop().unwrap();
            let r = self.push_leaf(aabb, primitive);
            proof {
                assert(input =~= Seq::<(PrimitiveRef, B)>::empty().push((primitive, aabb)));
                assert(input.to_multiset() =~= Multiset::singleton((primitive, aabb)));
                assert(self@.subrange(0, before.len() as int) =~= before);
                assert(self@.drop_last() =~= before);
                lemma_push_node(before, self@, *merge);
                lemma_push_keeps_splits(before, self@, *partition);
            }
            return r;
        }
        let ghost input = primitives@;
        let n = primitives.len();
        let ghost v = primitives;
        let halves = partition(primitives);
        let ghost h = halves;
        let (mut left, mut right) = halves;
        proof {
            assert((halves.0@ + halves.1@).to_multiset() == input.to_multiset());
            vstd::seq_lib::to_multiset_len(left@ + right@);
            vstd::seq_lib::to_multiset_len(input);
            vstd::seq_lib::lemma_multiset_commutative(left@, right@);
            assert((left@ + right@).len() == n);
        }
        if left.len() == 0 || right.len() == 0 {
            let ghost both = left@ + right@;
            left.append(&mut right);
            right = left.split_off(n / 2);
            proof {
                assert(left@ + right@ =~= both);
                vstd::seq_lib::lemma_multiset_commutative(left@, right@);
            }
        }
        proof {
            let both = h.0@ + h.1@;
            if h.0@.len() > 0 && h.1@.len() > 0 {
                assert(left@ == h.0@ && right@ == h.1@);
            } else {
                assert(left@ =~= both.take(both.len() as int / 2));
                assert(right@ =~= both.skip(both.len() as int / 2));
            }
            assert(split_as(h, left@.to_multiset(), right@.to_multiset()));
        }
        let ghost lefts = left@;
        let ghost rights = right@;
        let l = self.build_sah(left, partition, merge);
        let ghost after_left = self@;
        let r = self.build_sah(right, partition, merge);
        let ghost after_right = self@;
        let i = self.push_binary(l, r, merge);
        proof {
            let fin = self@;
            assert(after_right =~= fin.drop_last());
            assert(fin.subrange(0, after_right.len() as int) =~= after_right);
            lemma_prefix_chain(after_left, after_right, fin);
            lemma_prefix_chain(before, after_left, fin);
            lemma_items_below_prefix(after_left, fin, l as int);
            lemma_items_below_prefix(after_right, fin, r as int);
            lemma_push_node(after_right, fin, *merge);
            assert(items_below(fin, i as int) == items_below(fin, l as int).add(items_below(fin, r as int)));
            assert(items_below(fin, l as int) == lefts.to_multiset());
            assert(items_below(fin, r as int) == rights.to_multiset());
            assert(partition.ensures((v,), h));
            assert(split_by(*partition, items_below(fin, i as int), items_below(fin, l as int), items_below(fin, r as int)));
            lemma_push_keeps_splits(after_right, fin, *partition);
        }
        i
    }

    /// Reverses the node array, rewriting child indices to match, so that a
    /// hierarchy built children-first ends up with its root at index 0.
    #[verifier::spinoff_prover]
    pub fn reverse(&mut self)
        requires
            children_first(old(self)@),
        ensures
            final(self)@.len() == old(self)@.len(),
            forall|k: int|
                0 <= k < old(self)@.len() ==> #[trigger] final(self)@[k] == old(self)@[old(self)@.len()
                    - 1 - k].reindexed(old(self)@.len() as int),
            parents_first(final(self)@),
    {
        let ghost orig = self.nodes@;
        let len = self.nodes.len();
        let mut rest: Vec<BVHNode<B>> = Vec::new();
        std::mem::swap(&mut self.nodes, &mut rest);
        let mut out: Vec<BVHNode<B>> = Vec::with_capacity(len);
        while rest.len() > 0
            invariant
                len == orig.len(),
                children_first(orig),
                out.len() + rest.len() == len,
                rest@ == orig.take(rest.len() as int),
                forall|k: int|
                    0 <= k < out.len() ==> #[trigger] out@[k] == orig[len - 1 - k].reindexed(len as int),
            decreases rest.len(),
        {
            let ghost j = rest.len() - 1;
            let node = rest.pop().unwrap();
            proof {
                assert(node == orig[j]);
                assert(orig[j].children_below(len as int));
            }
            out.push(node.reverse(len));
            proof {
                assert(rest@ =~= orig.take(rest.len() as int));
            }
        }
        self.nodes = out;
        proof {
            assert forall|k: int| 0 <= k < self.nodes@.len() implies match #[trigger] self.nodes@[k] {
                BVHNode::Leaf { .. } => true,
                BVHNode::Binary { left, right, .. } => k < left < self.nodes@.len() && k < right
                    < self.nodes@.len(),
            } by {
                let j = len - 1 - k;
                assert(self.nodes@[k] == orig[j].reindexed(len as int));
            }
        }
    }

    /// The box of the root node.
    pub fn top(&self) -> (r: &B)
        requires
            self@.len() > 0,
        ensures
            *r == self@[0].spec_aabb(),
    {
        self.nodes[0].aabb()
    }

    /// Walks the hierarchy from the root: a leaf contributes `find` of its
    /// primitive; at a binary node whose box `hit` accepts both children are
    /// visited and their results reduced with `comp`; a missed box prunes its
    /// subtree.
    pub fn find_intersection<O, H, F, C>(&self, hit: &H, find: &F, comp: &C) -> (r: Option<O>)
        where
            H: Fn(&B) -> bool,
            F: Fn(PrimitiveRef) -> Option<O>,
            C: Fn(O, O) -> O,
        requires
            parents_first(self@),
            forall|b: &B| #[trigger] hit.requires((b,)),
            forall|p: PrimitiveRef| #[trigger] find.requires((p,)),
            forall|a: O, b: O| #[trigger] comp.requires((a, b)),
            forall|b: &B, x: bool, y: bool|
                #[trigger] hit.ensures((b,), x) && #[trigger] hit.ensures((b,), y) ==> x == y,
            forall|p: PrimitiveRef, x: Option<O>, y: Option<O>|
                #[trigger] find.ensures((p,), x) && #[trigger] find.ensures((p,), y) ==> x == y,
            forall|a: O, b: O, x: O, y: O|
                #[trigger] comp.ensures((a, b), x) && #[trigger] comp.ensures((a, b), y) ==> x == y,
        ensures
            r == traverse(self@, 0, hit_of(*hit), find_of(*find), comp_of(*comp)),
    {
        if self.nodes.len() == 0 {
            return None;
        }
        self.find_intersection_rec(hit, find, comp, 0)
    }

    fn find_intersection_rec<O, H, F, C>(&self, hit: &H, find: &F, comp: &C, node: usize) -> (r: Option<O>)
        where
            H: Fn(&B) -> bool,
            F: Fn(PrimitiveRef) -> Option<O>,
            C: Fn(O, O) -> O,
        requires
            parents_first(self@),
            node < self@.len(),
            forall|b: &B| #[trigger] hit.requires((b,)),
            forall|p: PrimitiveRef| #[trigger] find.requires((p,)),
            forall|a: O, b: O| #[trigger] comp.requires((a, b)),
            forall|b: &B, x: bool, y: bool|
                #[trigger] hit.ensures((b,), x) && #[trigger] hit.ensures((b,), y) ==> x == y,
            forall|p: PrimitiveRef, x: Option<O>, y: Option<O>|
                #[trigger] find.ensures((p,), x) && #[trigger] find.ensures((p,), y) ==> x == y,
            forall|a: O, b: O, x: O, y: O|
                #[trigger] comp.ensures((a, b), x) && #[trigger] comp.ensures((a, b), y) ==> x == y,
        ensures
            r == traverse(self@, node as int, hit_of(*hit), find_of(*find), comp_of(*comp)),
        decreases self@.len() - node,
    {
        let ghost nodes = self@;
        assert(nodes[node as int] == self.nodes@[node as int]);
        match &self.nodes[node] {
            BVHNode::Leaf { primitive, .. } => {
                let r = find(*primitive);
                proof {
                    let o = choose|o: Option<O>| find.ensures((*primitive,), o);
                    assert(find.ensures((*primitive,), o));
                }
                r
            },
            BVHNode::Binary { aabb, left, right } => {
                let is_hit = hit(aabb);
                proof {
                    if !is_hit {
                        if hit.ensures((aabb,), true) {
                            assert(false);
                        }
                    }
                    assert(is_hit == hit_of(*hit)(*aabb));
                }
                if is_hit {
                    let l = self.find_intersection_rec(hit, find, comp, *left);
                    let r = self.find_intersection_rec(hit, find, comp, *right);
                    match (l, r) {
                        (None, None) => None,
                        (Some(a), None) => Some(a),
                        (None, Some(b)) => Some(b),
                        (Some(a), Some(b)) => {
                            let ghost ga = a;
                            let ghost gb = b;
                            let c = comp(a, b);
                            proof {
                                let o = choose|o: O| comp.ensures((ga, gb), o);
                                assert(comp.ensures((ga, gb), o));
                                assert(c == comp_of(*comp)(ga, gb));
                            }
                            Some(c)
                        },
                    }
                } else {
                    None
                }
            },
        }
    }
}

/// A coordinate axis.
#[derive(Copy, Clone, Debug, PartialEq, Eq, Hash, Structural)]
pub enum Axis {
    X,
    Y,
    Z,
}

impl Axis {
    pub open spec fn spec_index(self) -> int {
        match self {
            Axis::X => 0,
            Axis::Y => 1,
            Axis::Z => 2,
        }
    }

    pub fn to_index(&self) -> (r: usize)
        ensures
            r == self.spec_index(),
    {
        match self {
            Axis::X => 0,
            Axis::Y => 1,
            Axis::Z => 2,
        }
    }
}

pub open spec fn pow2(k: nat) -> nat
    decreases k,
{
    if k == 0 {
        1
    } else {
        2 * pow2((k - 1) as nat)
    }
}

/// `k` is the ceiling of the base-2 logarithm of `n`: the least `k` with
/// `2^k >= n`.
pub open spec fn is_ceil_log2(n: nat, k: nat) -> bool {
    pow2(k) >= n && (k == 0 || pow2((k - 1) as nat) < n)
}

/// Number of equal-width bins that a split of `n` primitives uses:
/// twice the ceiling of `log2(n)`, and at least one.
pub fn bucket_count(n: usize) -> (r: usize)
    ensures
        exists|k: nat| is_ceil_log2(n as nat, k) && r == if k == 0 { 1 } else { 2 * k },
{
    let mut k: usize = 0;
    let mut p: u128 = 1;
    while p < n as u128
        invariant
            p == pow2(k as nat),
            p >= 1,
            k == 0 || pow2((k - 1) as nat) < n,
            k <= 64,
        decreases 64 - k,
    {
        proof {
            if k == 64 {
                lemma_pow2_64();
                assert(false);
            }
        }
        p = p * 2;
        k = k + 1;
    }
    proof {
        assert(is_ceil_log2(n as nat, k as nat));
    }
    if k == 0 {
        1
    } else {
        2 * k
    }
}

proof fn lemma_pow2_64()
    ensures
        pow2(64) > usize::MAX,
{
    reveal_with_fuel(pow2, 65);
}

/// Where a slice of `past_line.len()` primitives, sorted along the split
/// axis, is cut: the first index whose primitive lies at or past the
/// dividing line while its predecessor does not (`past_line[i]` says whether
/// primitive `i` does). Where no such index exists, as when all centroids
/// coincide, the slice is cut in the middle.
pub fn compute_primitive_split_i(past_line: &Vec<bool>) -> (r: usize)
    requires
        past_line.len() >= 2,
    ensures
        1 <= r < past_line.len(),
        (exists|i: int| 1 <= i < past_line.len() && is_boundary(past_line@, i)) ==> (is_boundary(
            past_line@,
            r as int,
        ) && forall|i: int| 1 <= i < r ==> !is_boundary(past_line@, i)),
        (forall|i: int| 1 <= i < past_line.len() ==> !is_boundary(past_line@, i)) ==> r
            == past_line.len() / 2,
{
    let mut i: usize = 1;
    while i < past_line.len()
        invariant
            1 <= i <= past_line.len(),
            forall|j: int| 1 <= j < i ==> !is_boundary(past_line@, j),
        decreases past_line.len() - i,
    {
        if past_line[i] && !past_line[i - 1] {
            assert(is_boundary(past_line@, i as int));
            return i;
        }
        i = i + 1;
    }
    past_line.len() / 2
}

/// Primitive `i` is at or past the dividing line and primitive `i - 1` is not.
pub open spec fn is_boundary(past_line: Seq<bool>, i: int) -> bool {
    past_line[i] && !past_line[i - 1]
}

} // verus!
