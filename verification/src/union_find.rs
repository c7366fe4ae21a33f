//! Weighted union-find (disjoint-set) structure with path compression.
//!
//! The partition of `0..n` into components is modelled by a ghost sequence
//! `rep` that maps every element to the representative of its component.
//! `union` merges two components, attaching the smaller tree under the
//! larger; `root` compresses paths as it walks, which changes the parent
//! pointers but never the partition itself. A ghost `depth` measure that
//! strictly decreases along parent pointers witnesses that the parent
//! forest is acyclic, so every traversal terminates.

use vstd::prelude::*;

verus! {

/// The number of elements k in [0, bound) whose representative is r.
pub open spec fn count_in(rep: Seq<usize>, r: int, bound: int) -> int
    decreases bound,
{
    if bound <= 0 {
        0
    } else {
        count_in(rep, r, bound - 1) + if rep[bound - 1] == r {
            1int
        } else {
            0int
        }
    }
}

/// Relabel every element of `from`'s component to `to`: the partition
/// after a union that attaches the root `from` under the root `to`.
pub open spec fn merge_reps(rep: Seq<usize>, from: usize, to: usize) -> Seq<usize> {
    Seq::new(rep.len(), |i: int| if rep[i] == from { to } else { rep[i] })
}

/// x and y lie in the same component of the partition rep.
pub open spec fn same_set(rep: Seq<usize>, x: int, y: int) -> bool {
    rep[x] == rep[y]
}

/// The exact effect of `union(p, q)` on the partition relation: x and y
/// are connected afterwards iff they were connected before, or one is
/// connected to p and the other to q.
pub open spec fn union_relates(pre: Seq<usize>, post: Seq<usize>, p: int, q: int) -> bool {
    forall|x: int, y: int|
        0 <= x < pre.len() && 0 <= y < pre.len() ==> (#[trigger] same_set(post, x, y) <==> (
        same_set(pre, x, y) || (same_set(pre, x, p) && same_set(pre, y, q)) || (same_set(pre, x, q)
            && same_set(pre, y, p))))
}

/// Depths of `from`'s component lifted above everything hanging under `to`,
/// so that the new edge from -> to still decreases the measure.
spec fn shift_depth(depth: Seq<nat>, rep: Seq<usize>, from: usize, boost: nat) -> Seq<nat> {
    Seq::new(
        depth.len(),
        |i: int|
            if rep[i] == from {
                (depth[i] + boost) as nat
            } else {
                depth[i]
            },
    )
}

/// Internal consistency of the four components of the structure:
/// parent pointers and representatives stay in range, parents stay within
/// their component, representatives are real roots of the parent forest,
/// roots of the forest are their own representatives, the ghost depth
/// strictly decreases along parent pointers (so the forest is acyclic),
/// and the size recorded at each representative counts its component.
spec fn inv_parts(id: Seq<usize>, size: Seq<usize>, rep: Seq<usize>, depth: Seq<nat>) -> bool {
    let n = rep.len() as int;
    &&& id.len() == n
    &&& size.len() == n
    &&& depth.len() == n
    &&& forall|i: int| 0 <= i < n ==> #[trigger] id[i] < n
    &&& forall|i: int| 0 <= i < n ==> #[trigger] rep[i] < n
    &&& forall|i: int| 0 <= i < n ==> rep[#[trigger] id[i] as int] == rep[i]
    &&& forall|i: int| 0 <= i < n ==> id[#[trigger] rep[i] as int] == rep[i]
    &&& forall|i: int| 0 <= i < n ==> (#[trigger] id[i] == i ==> rep[i] == i)
    &&& forall|i: int| 0 <= i < n ==> (#[trigger] id[i] != i ==> depth[id[i] as int] < depth[i])
    &&& forall|r: int|
        0 <= r < n && #[trigger] rep[r] == r ==> size[r] as int == count_in(rep, r, n)
}

pub struct QuickFind {
    id: Vec<usize>,
    size: Vec<usize>,
    rep: Ghost<Seq<usize>>,
    depth: Ghost<Seq<nat>>,
}

impl View for QuickFind {
    type V = Seq<usize>;

    /// The partition: element i belongs to the component labelled self@[i].
    closed spec fn view(&self) -> Seq<usize> {
        self.rep@
    }
}

impl QuickFind {
    /// The size table; meaningful only at component representatives.
    pub closed spec fn sizes(&self) -> Seq<usize> {
        self.size@
    }

    pub closed spec fn wf(&self) -> bool {
        inv_parts(self.id@, self.size@, self.rep@, self.depth@)
    }

    /// n singleton components, element i its own representative.
    pub fn new(n: usize) -> (r: QuickFind)
        ensures
            r.wf(),
            r@.len() == n,
            forall|i: int| 0 <= i < n ==> r@[i] == i,
    {
        let mut id: Vec<usize> = Vec::new();
        let mut size: Vec<usize> = Vec::new();
        let mut i: usize = 0;
        while i < n
            invariant
                i <= n,
                id@.len() == i,
                size@.len() == i,
                forall|k: int| 0 <= k < i ==> #[trigger] id@[k] == k,
                forall|k: int| 0 <= k < i ==> #[trigger] size@[k] == 1,
            decreases n - i,
        {
            id.push(i);
            size.push(1);
            i = i + 1;
        }
        let ghost rep = id@;
        let ghost depth = Seq::new(n as nat, |k: int| 0nat);
        let r = QuickFind { id, size, rep: Ghost(rep), depth: Ghost(depth) };
        proof {
            assert forall|j: int| 0 <= j < n && #[trigger] r.rep@[j] == j implies r.size@[j] as int
                == count_in(r.rep@, j, n as int) by {
                lemma_count_identity(r.rep@, j, n as int);
            }
            assert(r.wf());
        }
        r
    }

    /// Representative of p's component, compressing the path walked:
    /// every visited element is re-pointed at its grandparent. The
    /// partition and the size table are left unchanged.
    fn root(&mut self, p: usize) -> (r: usize)
        requires
            old(self).wf(),
            p < old(self)@.len(),
        ensures
            final(self).wf(),
            final(self)@ == old(self)@,
            final(self).sizes() == old(self).sizes(),
            r == final(self)@[p as int],
            r < final(self)@.len(),
    {
        let mut i = p;
        while i != self.id[i]
            invariant
                self.wf(),
                self@ == old(self)@,
                self.sizes() == old(self).sizes(),
                (i as int) < self@.len(),
                self@[i as int] == self@[p as int],
            decreases self.depth@[i as int],
        {
            let parent = self.id[i];
            let grandparent = self.id[parent];
            proof {
                assert(self.depth@[parent as int] < self.depth@[i as int]);
                if parent != grandparent {
                    assert(self.depth@[grandparent as int] < self.depth@[parent as int]);
                }
                assert(grandparent != i);
                // i is not a root, so it represents no element, and the
                // grandparent hop stays within i's component.
                assert(self.rep@[i as int] != i);
                assert(self.rep@[grandparent as int] == self.rep@[i as int]);
            }
            self.id[i] = grandparent;
            i = grandparent;
        }
        i
    }

    /// Are p and q in the same component?
    pub fn connected(&mut self, p: usize, q: usize) -> (r: bool)
        requires
            old(self).wf(),
            p < old(self)@.len(),
            q < old(self)@.len(),
        ensures
            final(self).wf(),
            final(self)@ == old(self)@,
            final(self).sizes() == old(self).sizes(),
            r == same_set(final(self)@, p as int, q as int),
    {
        let rp = self.root(p);
        let rq = self.root(q);
        rp == rq
    }

    /// Merge the components of p and q; a no-op when already connected.
    /// The smaller component is attached under the larger, q's under p's
    /// when they tie, and the surviving root's size absorbs the other's.
    pub fn union(&mut self, p: usize, q: usize)
        requires
            old(self).wf(),
            p < old(self)@.len(),
            q < old(self)@.len(),
        ensures
            final(self).wf(),
            final(self)@.len() == old(self)@.len(),
            same_set(final(self)@, p as int, q as int),
            union_relates(old(self)@, final(self)@, p as int, q as int),
            old(self)@[p as int] == old(self)@[q as int] ==> final(self)@ == old(self)@,
            old(self)@[p as int] != old(self)@[q as int] && count_in(
                old(self)@,
                old(self)@[p as int] as int,
                old(self)@.len() as int,
            ) < count_in(old(self)@, old(self)@[q as int] as int, old(self)@.len() as int)
                ==> final(self)@ == merge_reps(
                old(self)@,
                old(self)@[p as int],
                old(self)@[q as int],
            ),
            old(self)@[p as int] != old(self)@[q as int] && count_in(
                old(self)@,
                old(self)@[p as int] as int,
                old(self)@.len() as int,
            ) >= count_in(old(self)@, old(self)@[q as int] as int, old(self)@.len() as int)
                ==> final(self)@ == merge_reps(
                old(self)@,
                old(self)@[q as int],
                old(self)@[p as int],
            ),
    {
        let ghost pre = self.rep@;
        let root_p = self.root(p);
        let root_q = self.root(q);
        if root_p == root_q {
            proof {
                lemma_noop_relates(pre, p as int, q as int);
            }
            return ;
        }
        let n = self.id.len();
        let ghost depth0 = self.depth@;
        proof {
            // The two components are disjoint, so the merged size is at
            // most n and the addition below cannot overflow.
            assert(pre.len() == n);
            lemma_count_pair_bound(pre, root_p as int, root_q as int, pre.len() as int);
        }
        if self.size[root_p] < self.size[root_q] {
            let new_size = self.size[root_q] + self.size[root_p];
            self.id[root_p] = root_q;
            self.size[root_q] = new_size;
            self.rep = Ghost(merge_reps(pre, root_p, root_q));
            self.depth = Ghost(
                shift_depth(depth0, pre, root_p, (depth0[root_q as int] + 1) as nat),
            );
            proof {
                lemma_attach(self.id@, self.size@, pre, depth0, root_p, root_q);
                lemma_merge_relates(pre, root_p, root_q, p as int, q as int);
            }
        } else {
            let new_size = self.size[root_p] + self.size[root_q];
            self.id[root_q] = root_p;
            self.size[root_p] = new_size;
            self.rep = Ghost(merge_reps(pre, root_q, root_p));
            self.depth = Ghost(
                shift_depth(depth0, pre, root_q, (depth0[root_p as int] + 1) as nat),
            );
            proof {
                lemma_attach(self.id@, self.size@, pre, depth0, root_q, root_p);
                lemma_merge_relates(pre, root_q, root_p, p as int, q as int);
            }
        }
    }

    /// The number of elements in p's component: the size bookkeeping at
    /// the component's representative, which well-formedness ties to the
    /// exact count.
    pub fn component_size(&mut self, p: usize) -> (r: usize)
        requires
            old(self).wf(),
            p < old(self)@.len(),
        ensures
            final(self).wf(),
            final(self)@ == old(self)@,
            final(self).sizes() == old(self).sizes(),
            r as int == count_in(old(self)@, old(self)@[p as int] as int, old(self)@.len() as int),
    {
        let rp = self.root(p);
        self.size[rp]
    }

    /// The size recorded at a representative equals the exact number of
    /// elements whose component it represents.
    pub proof fn lemma_size_at_root(&self, r: int)
        requires
            self.wf(),
            0 <= r < self@.len(),
            self@[r] == r,
        ensures
            self.sizes()[r] as int == count_in(self@, r, self@.len() as int),
    {
    }
}

/// In the identity partition every component is a singleton.
proof fn lemma_count_identity(rep: Seq<usize>, r: int, bound: int)
    requires
        0 <= bound <= rep.len(),
        forall|k: int| 0 <= k < rep.len() ==> #[trigger] rep[k] == k,
    ensures
        count_in(rep, r, bound) == if 0 <= r < bound {
            1int
        } else {
            0int
        },
    decreases bound,
{
    if bound > 0 {
        lemma_count_identity(rep, r, bound - 1);
    }
}

/// Two distinct components together hold at most all elements.
proof fn lemma_count_pair_bound(rep: Seq<usize>, a: int, b: int, bound: int)
    requires
        a != b,
        0 <= bound <= rep.len(),
    ensures
        0 <= count_in(rep, a, bound),
        0 <= count_in(rep, b, bound),
        count_in(rep, a, bound) + count_in(rep, b, bound) <= bound,
    decreases bound,
{
    if bound > 0 {
        lemma_count_pair_bound(rep, a, b, bound - 1);
    }
}

/// Component counts after relabelling `from`'s component to `to`:
/// `to` absorbs both old counts, `from` empties, the rest are untouched.
proof fn lemma_merge_count(rep: Seq<usize>, from: usize, to: usize, r: int, bound: int)
    requires
        from != to,
        0 <= bound <= rep.len(),
    ensures
        count_in(merge_reps(rep, from, to), r, bound) == if r == from {
            0int
        } else if r == to {
            count_in(rep, from as int, bound) + count_in(rep, to as int, bound)
        } else {
            count_in(rep, r, bound)
        },
    decreases bound,
{
    if bound > 0 {
        lemma_merge_count(rep, from, to, r, bound - 1);
    }
}

/// A union of two already-connected elements changes nothing.
proof fn lemma_noop_relates(pre: Seq<usize>, p: int, q: int)
    requires
        0 <= p < pre.len(),
        0 <= q < pre.len(),
        same_set(pre, p, q),
    ensures
        union_relates(pre, pre, p, q),
{
    assert forall|x: int, y: int| 0 <= x < pre.len() && 0 <= y < pre.len() implies (
    #[trigger] same_set(pre, x, y) <==> (same_set(pre, x, y) || (same_set(pre, x, p) && same_set(
        pre,
        y,
        q,
    )) || (same_set(pre, x, q) && same_set(pre, y, p)))) by {}
}

/// Relabelling one of p's and q's components to the other's label merges
/// exactly those two components and connects p with q.
proof fn lemma_merge_relates(pre: Seq<usize>, from: usize, to: usize, p: int, q: int)
    requires
        from != to,
        0 <= p < pre.len(),
        0 <= q < pre.len(),
        (pre[p] == from && pre[q] == to) || (pre[p] == to && pre[q] == from),
    ensures
        union_relates(pre, merge_reps(pre, from, to), p, q),
        same_set(merge_reps(pre, from, to), p, q),
{
    let post = merge_reps(pre, from, to);
    assert forall|x: int, y: int| 0 <= x < pre.len() && 0 <= y < pre.len() implies (
    #[trigger] same_set(post, x, y) <==> (same_set(pre, x, y) || (same_set(pre, x, p) && same_set(
        pre,
        y,
        q,
    )) || (same_set(pre, x, q) && same_set(pre, y, p)))) by {
        assert(post[x] == if pre[x] == from {
            to
        } else {
            pre[x]
        });
        assert(post[y] == if pre[y] == from {
            to
        } else {
            pre[y]
        });
    }
    assert(post[p] == to && post[q] == to);
}

/// Re-establish the invariant after attaching the root `from` under the
/// root `to`, with `to`'s size already set to the merged count.
proof fn lemma_attach(
    id1: Seq<usize>,
    size1: Seq<usize>,
    pre: Seq<usize>,
    depth0: Seq<nat>,
    from: usize,
    to: usize,
)
    requires
        from != to,
        (from as int) < pre.len(),
        (to as int) < pre.len(),
        pre[from as int] == from,
        pre[to as int] == to,
        id1.len() == pre.len(),
        size1.len() == pre.len(),
        depth0.len() == pre.len(),
        forall|i: int| 0 <= i < pre.len() ==> #[trigger] pre[i] < pre.len(),
        id1[from as int] == to,
        forall|i: int| 0 <= i < pre.len() && i != from ==> #[trigger] id1[i] < pre.len(),
        forall|i: int| 0 <= i < pre.len() && i != from ==> pre[#[trigger] id1[i] as int] == pre[i],
        forall|i: int|
            0 <= i < pre.len() ==> id1[#[trigger] pre[i] as int] == pre[i] || pre[i] == from,
        forall|i: int|
            0 <= i < pre.len() && i != from ==> (#[trigger] id1[i] == i ==> pre[i] == i),
        forall|i: int|
            0 <= i < pre.len() && i != from ==> (#[trigger] id1[i] != i ==> depth0[id1[i] as int]
                < depth0[i]),
        size1[to as int] as int == count_in(pre, from as int, pre.len() as int) + count_in(
            pre,
            to as int,
            pre.len() as int,
        ),
        forall|r: int|
            0 <= r < pre.len() && #[trigger] pre[r] == r && r != to ==> size1[r] as int == count_in(
                pre,
                r,
                pre.len() as int,
            ),
    ensures
        inv_parts(
            id1,
            size1,
            merge_reps(pre, from, to),
            shift_depth(depth0, pre, from, (depth0[to as int] + 1) as nat),
        ),
{
    let n = pre.len() as int;
    let post = merge_reps(pre, from, to);
    let nd = shift_depth(depth0, pre, from, (depth0[to as int] + 1) as nat);
    assert forall|i: int| 0 <= i < n implies post[#[trigger] id1[i] as int] == post[i] by {
        if i == from {
            assert(post[to as int] == to);
            assert(post[from as int] == to);
        } else {
            assert(pre[id1[i] as int] == pre[i]);
        }
    }
    assert forall|i: int| 0 <= i < n implies id1[#[trigger] post[i] as int] == post[i] by {
        if pre[i] == from {
            assert(post[i] == to);
            assert(id1[pre[to as int] as int] == pre[to as int] || pre[to as int] == from);
        } else {
            assert(post[i] == pre[i]);
            assert(id1[pre[i] as int] == pre[i] || pre[i] == from);
        }
    }
    assert forall|i: int| 0 <= i < n && #[trigger] id1[i] == i implies post[i] == i by {
        if i != from && id1[i] == i {
            assert(pre[i] == i);
            assert(post[i] == i);
        }
    }
    assert forall|i: int| 0 <= i < n && #[trigger] id1[i] != i implies nd[id1[i] as int]
        < nd[i] by {
        if id1[i] != i {
            if i == from {
                assert(pre[to as int] != from);
                assert(nd[to as int] == depth0[to as int]);
                assert(nd[from as int] == depth0[from as int] + depth0[to as int] + 1);
            } else {
                assert(pre[id1[i] as int] == pre[i]);
                assert(depth0[id1[i] as int] < depth0[i]);
            }
        }
    }
    assert forall|r: int| 0 <= r < n && #[trigger] post[r] == r implies size1[r] as int == count_in(
        post,
        r,
        n,
    ) by {
        lemma_merge_count(pre, from, to, r, n);
        assert(post[r] == if pre[r] == from {
            to
        } else {
            pre[r]
        });
        if pre[r] == from {
            assert(r == to || post[r] != r);
        }
    }
    assert(inv_parts(id1, size1, post, nd));
}

/// cur refines pre by having merged some components into f's component:
/// two elements are connected in cur iff they were connected in pre or
/// both are now connected to f.
pub open spec fn absorbed_into(pre: Seq<usize>, cur: Seq<usize>, f: int) -> bool {
    forall|x: int, y: int|
        0 <= x < pre.len() && 0 <= y < pre.len() ==> (#[trigger] same_set(cur, x, y) <==> (
        same_set(pre, x, y) || (same_set(cur, x, f) && same_set(cur, y, f))))
}

/// A partition absorbs into any of its elements trivially.
pub proof fn lemma_absorbed_refl(pre: Seq<usize>, f: int)
    requires
        0 <= f < pre.len(),
    ensures
        absorbed_into(pre, pre, f),
{
    assert forall|x: int, y: int| 0 <= x < pre.len() && 0 <= y < pre.len() implies (
    #[trigger] same_set(pre, x, y) <==> (same_set(pre, x, y) || (same_set(pre, x, f) && same_set(
        pre,
        y,
        f,
    )))) by {}
}

/// Following an absorbing chain with one more union against f keeps the
/// chain absorbing, and grows f's component by exactly b's old component.
pub proof fn lemma_absorbed_extend(
    pre: Seq<usize>,
    cur: Seq<usize>,
    next: Seq<usize>,
    f: int,
    b: int,
)
    requires
        pre.len() == cur.len(),
        cur.len() == next.len(),
        0 <= f < pre.len(),
        0 <= b < pre.len(),
        absorbed_into(pre, cur, f),
        union_relates(cur, next, b, f) || union_relates(cur, next, f, b),
    ensures
        absorbed_into(pre, next, f),
        forall|x: int|
            0 <= x < pre.len() ==> (#[trigger] same_set(next, x, f) <==> (same_set(cur, x, f)
                || same_set(pre, x, b))),
{
    assert forall|x: int| 0 <= x < pre.len() implies (#[trigger] same_set(next, x, f) <==> (
    same_set(cur, x, f) || same_set(pre, x, b))) by {
        assert(same_set(next, x, f) <==> (same_set(cur, x, f) || (same_set(cur, x, b) && same_set(
            cur,
            f,
            f,
        )) || (same_set(cur, x, f) && same_set(cur, f, b))));
        assert(same_set(cur, x, b) <==> (same_set(pre, x, b) || (same_set(cur, x, f) && same_set(
            cur,
            b,
            f,
        ))));
    }
    assert forall|x: int, y: int| 0 <= x < pre.len() && 0 <= y < pre.len() implies (
    #[trigger] same_set(next, x, y) <==> (same_set(pre, x, y) || (same_set(next, x, f) && same_set(
        next,
        y,
        f,
    )))) by {
        assert(same_set(next, x, y) <==> (same_set(cur, x, y) || (same_set(cur, x, b) && same_set(
            cur,
            y,
            f,
        )) || (same_set(cur, x, f) && same_set(cur, y, b))));
        assert(same_set(cur, x, y) <==> (same_set(pre, x, y) || (same_set(cur, x, f) && same_set(
            cur,
            y,
            f,
        ))));
        assert(same_set(cur, x, b) <==> (same_set(pre, x, b) || (same_set(cur, x, f) && same_set(
            cur,
            b,
            f,
        ))));
        assert(same_set(cur, y, b) <==> (same_set(pre, y, b) || (same_set(cur, y, f) && same_set(
            cur,
            b,
            f,
        ))));
        assert(same_set(next, x, f) <==> (same_set(cur, x, f) || same_set(pre, x, b)));
        assert(same_set(next, y, f) <==> (same_set(cur, y, f) || same_set(pre, y, b)));
    }
}

/// Connectivity is an equivalence relation over any partition:
/// reflexive, symmetric and transitive.
pub proof fn lemma_same_set_equivalence(rep: Seq<usize>, x: int, y: int, z: int)
    ensures
        same_set(rep, x, x),
        same_set(rep, x, y) ==> same_set(rep, y, x),
        same_set(rep, x, y) && same_set(rep, y, z) ==> same_set(rep, x, z),
{
}

/// After a union of p and q the two are connected, and every pair that
/// was connected beforehand stays connected; since every later union is
/// again a union_relates step, connectivity never decays.
pub proof fn lemma_union_connects(pre: Seq<usize>, post: Seq<usize>, p: int, q: int, x: int, y: int)
    requires
        0 <= p < pre.len(),
        0 <= q < pre.len(),
        0 <= x < pre.len(),
        0 <= y < pre.len(),
        union_relates(pre, post, p, q),
    ensures
        same_set(post, p, q),
        same_set(pre, x, y) ==> same_set(post, x, y),
{
    assert(same_set(post, p, q) <==> (same_set(pre, p, q) || (same_set(pre, p, p) && same_set(
        pre,
        q,
        q,
    )) || (same_set(pre, p, q) && same_set(pre, q, p))));
    assert(same_set(post, x, y) <==> (same_set(pre, x, y) || (same_set(pre, x, p) && same_set(
        pre,
        y,
        q,
    )) || (same_set(pre, x, q) && same_set(pre, y, p))));
}

} // verus!
