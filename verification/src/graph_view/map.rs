//! Mapping the values of a view into another arena.

use crate::graph_view::serialization::{number_all, numbered};
use crate::graph_view::RelRcGraph;
use crate::node::{Arena, RelRc};
use std::hash::Hash;
use vstd::prelude::*;

verus! {

/// Whether the node of `target` that stands `positions[x]` places after
/// `base` is the image of the node at position `x` of `arena`: its value is
/// what `map_node` gives for the value of that node, and its incoming edges
/// are those of that node, in their order, each with the image of its source
/// as the source and what `map_edge` gives for its value as the value.
pub open spec fn image_at<N, E, M, F, FN: Fn(&N) -> M, FE: Fn(&E) -> F>(
    arena: &Arena<N, E>,
    target: &Arena<M, F>,
    positions: Map<usize, usize>,
    base: int,
    x: usize,
    map_node: FN,
    map_edge: FE,
) -> bool {
    let node = arena.node(x as int);
    let image = target.node(base + positions[x]);
    &&& call_ensures(map_node, (&node.value,), image.value)
    &&& image.incoming.len() == node.incoming.len()
    &&& forall|k: int|
        0 <= k < node.incoming.len() ==> {
            &&& positions.contains_key((#[trigger] node.incoming[k]).source as usize)
            &&& image.incoming[k].source == base + positions[node.incoming[k].source as usize]
            &&& call_ensures(map_edge, (&node.incoming[k].value,), image.incoming[k].value)
        }
}

/// Whether `made` holds the one strong handle on each of the first `p` nodes
/// in `order`, which stand in `target` from position `base` on and are the
/// images of those nodes.
pub open spec fn images_upto<N, E, M, F, FN: Fn(&N) -> M, FE: Fn(&E) -> F>(
    arena: &Arena<N, E>,
    target: &Arena<M, F>,
    positions: Map<usize, usize>,
    base: int,
    order: Seq<usize>,
    made: Seq<RelRc>,
    p: int,
    map_node: FN,
    map_edge: FE,
) -> bool {
    forall|q2: int|
        0 <= q2 < p ==> (#[trigger] made[q2])@ == base + q2 && target.node(base + q2).handles == 1
            && image_at(arena, target, positions, base, order[q2], map_node, map_edge)
}

impl RelRcGraph {
    /// Whether `image` is this view with its values mapped, its nodes made
    /// in `target` from position `base` on, the node at `x` at
    /// `positions[x]` places after `base`: every node of the view has a place
    /// of its own, the sinks of `image` are the images of the sinks, in their
    /// order, and every place that still holds a node holds the image of the
    /// node whose place it is.
    pub open spec fn mapped_to<N, E, M, F, FN: Fn(&N) -> M, FE: Fn(&E) -> F>(
        &self,
        arena: &Arena<N, E>,
        image: &RelRcGraph,
        target: &Arena<M, F>,
        positions: Map<usize, usize>,
        base: int,
        map_node: FN,
        map_edge: FE,
    ) -> bool {
        &&& forall|i: int|
            self.nodes().contains(i) <==> 0 <= i <= usize::MAX && positions.contains_key(i as usize)
        &&& forall|x: usize| #[trigger]
            positions.contains_key(x) ==> positions[x] < self.nodes().len()
        &&& forall|x: usize, y: usize|
            positions.contains_key(x) && positions.contains_key(y) && positions[x] == positions[y]
                ==> x == y
        &&& image.sink_ptrs().len() == self.sink_ptrs().len()
        &&& forall|j: int|
            0 <= j < self.sink_ptrs().len() ==> positions.contains_key(self.sink_ptrs()[j] as usize)
                && (#[trigger] image.sink_ptrs()[j]) == base + positions[self.sink_ptrs()[j] as usize]
        &&& forall|x: usize|
            positions.contains_key(x) && #[trigger] target.is_live(base + positions[x]) ==> image_at(
                arena,
                target,
                positions,
                base,
                x,
                map_node,
                map_edge,
            )
    }

    /// Where the image of a node of the view is alive, so are the images of
    /// its ancestors.
    pub proof fn lemma_images_live<N, E, M, F, FN: Fn(&N) -> M, FE: Fn(&E) -> F>(
        &self,
        arena: &Arena<N, E>,
        image: &RelRcGraph,
        target: &Arena<M, F>,
        positions: Map<usize, usize>,
        base: int,
        map_node: FN,
        map_edge: FE,
        d: int,
        a: int,
        pass: spec_fn(int) -> bool,
    )
        requires
            target.wf(),
            self.mapped_to(arena, image, target, positions, base, map_node, map_edge),
            self.nodes().contains(d),
            target.is_live(base + positions[d as usize]),
            arena.descends(d, a, pass),
        ensures
            self.nodes().contains(a),
            target.is_live(base + positions[a as usize]),
        decreases d,
    {
        if a != d {
            let k = choose|k: int|
                0 <= k < arena.node(d).incoming.len() && 0 <= (#[trigger] arena.edge(d, k)).source < d
                    && arena.descends(arena.edge(d, k).source, a, pass);
            let s = arena.edge(d, k).source;
            let at = base + positions[d as usize];
            assert(positions.contains_key(d as usize));
            assert(image_at(arena, target, positions, base, d as usize, map_node, map_edge));
            let e = arena.node(d).incoming[k];
            assert(e == arena.edge(d, k));
            assert(target.edge(at, k) == target.node(at).incoming[k]);
            assert(target.is_live(target.edge(at, k).source));
            self.lemma_images_live(
                arena,
                image,
                target,
                positions,
                base,
                map_node,
                map_edge,
                s,
                a,
                pass,
            );
        }
    }

    /// Makes in `target` a node for every node of the view, with the value
    /// that `map_node` gives for it and the edge values that `map_edge`
    /// gives, parents before children, and returns the view of the ancestors
    /// of the images of the sinks.
    ///
    /// The functions are handed references: the view need not be the only
    /// owner of its nodes. The view must hold the parents of its nodes, as
    /// the view of all ancestors of some nodes does.
    pub fn map<N, E, M: Hash, F: Hash, FN: Fn(&N) -> M, FE: Fn(&E) -> F>(
        &self,
        arena: &Arena<N, E>,
        target: &mut Arena<M, F>,
        map_node: FN,
        map_edge: FE,
    ) -> (image: RelRcGraph)
        requires
            arena.wf(),
            self.wf(arena),
            self.closed(arena),
            old(target).wf(),
            forall|v: &N| call_requires(map_node, (v,)),
            forall|e: &E| call_requires(map_edge, (e,)),
        ensures
            final(target).wf(),
            final(target).len() == old(target).len() + self.nodes().len(),
            image.wf(final(target)),
            image.closed(final(target)),
            old(target).grown_by(final(target), &image),
            exists|positions: Map<usize, usize>|
                {
                    &&& #[trigger] self.mapped_to(
                        arena,
                        &image,
                        final(target),
                        positions,
                        old(target).len() as int,
                        map_node,
                        map_edge,
                    )
                    &&& forall|x: usize|
                        positions.contains_key(x) ==> final(target).is_live(
                            old(target).len() + #[trigger] positions[x],
                        )
                },
    {
        let (positions, order) = number_all(arena, self);
        let ghost base = target.len() as int;
        let mut made: Vec<RelRc> = Vec::new();
        let mut p: usize = 0;
        proof {
            target.lemma_extends_refl();
        }
        while p < order.len()
            invariant
                p <= order@.len(),
                arena.wf(),
                numbered(arena, positions@, order@),
                forall|v: &N| call_requires(map_node, (v,)),
                forall|e: &E| call_requires(map_edge, (e,)),
                base == old(target).len(),
                target.wf(),
                old(target).extends(target),
                forall|i: int| old(target).is_live(i) ==> #[trigger] target.node(i) == old(target).node(i),
                target.len() == base + p,
                made@.len() == p,
                images_upto(
                    arena,
                    target,
                    positions@,
                    base,
                    order@,
                    made@,
                    p as int,
                    map_node,
                    map_edge,
                ),
            decreases order@.len() - p,
        {
            let x = order[p];
            assert(positions@.contains_key(order@[p as int]));
            let data = arena.slots[x].as_ref().unwrap();
            let ghost prev = *target;
            let ghost made0 = made@;
            let value = map_node(&data.value);
            let mut parents: Vec<(&RelRc, F)> = Vec::new();
            let mut k: usize = 0;
            while k < data.incoming.len()
                invariant
                    k <= data.incoming@.len(),
                    arena.wf(),
                    arena.is_live(x as int),
                    data == arena.slots@[x as int].unwrap(),
                    numbered(arena, positions@, order@),
                    positions@.contains_key(x),
                    positions@[x] == p,
                    forall|e: &E| call_requires(map_edge, (e,)),
                    made@.len() == p,
                    parents@.len() == k,
                    forall|k2: int|
                        0 <= k2 < k ==> {
                            &&& (#[trigger] parents@[k2]).0@ == made@[positions@[arena.edge(
                                x as int,
                                k2,
                            ).source as usize] as int]@
                            &&& call_ensures(
                                map_edge,
                                (&arena.edge(x as int, k2).value,),
                                parents@[k2].1,
                            )
                        },
                decreases data.incoming@.len() - k,
            {
                let edge = &data.incoming[k];
                assert(arena.edge(x as int, k as int) == edge@);
                let source = *positions.get(&edge.source.ptr).unwrap();
                parents.push((&made[source], map_edge(&edge.value)));
                k += 1;
            }
            let ghost ps = parents@.map_values(|pe: (&RelRc, F)| pe.0@);
            let ghost vs = parents@.map_values(|pe: (&RelRc, F)| pe.1);
            proof {
                assert forall|k2: int| 0 <= k2 < parents@.len() implies target.is_live(
                    (#[trigger] parents@[k2]).0@,
                ) by {
                    let e = arena.edge(x as int, k2);
                    let s = positions@[e.source as usize] as int;
                    assert(made@[s]@ == base + s);
                }
                assert forall|k2: int| 0 <= k2 < ps.len() implies (#[trigger] ps[k2]) == base
                    + positions@[arena.edge(x as int, k2).source as usize] && call_ensures(
                    map_edge,
                    (&arena.edge(x as int, k2).value,),
                    vs[k2],
                ) by {
                    let e = arena.edge(x as int, k2);
                    let s = positions@[e.source as usize] as int;
                    assert(made@[s]@ == base + s);
                    assert(ps[k2] == parents@[k2].0@);
                    assert(vs[k2] == parents@[k2].1);
                }
                assert(ps.len() == arena.node(x as int).incoming.len());
                assert forall|k2: int| 0 <= k2 < ps.len() implies #[trigger] ps[k2] >= base by {}
            }
            let node = RelRc::with_parents(target, value, parents);
            made.push(node);
            proof {
                prev.lemma_created_extends(target, base + p, value, ps, vs);
                old(target).lemma_extends_trans(&prev, target);
                assert forall|i: int| old(target).is_live(i) implies #[trigger] target.node(i) == old(
                    target,
                ).node(i) by {
                    crate::node::lemma_backrefs_none(ps, i, base + p);
                    assert(prev.is_live(i));
                    let y = prev.node(i);
                    assert(prev.node(i).outgoing + Seq::<(int, int)>::empty() =~= prev.node(
                        i,
                    ).outgoing);
                }
                assert forall|q2: int| 0 <= q2 < p + 1 implies (#[trigger] made@[q2])@ == base + q2
                    && target.node(base + q2).handles == 1 && image_at(
                    arena,
                    target,
                    positions@,
                    base,
                    order@[q2],
                    map_node,
                    map_edge,
                ) by {
                    if q2 < p {
                        assert(made@[q2] == made0[q2]);
                        assert(positions@.contains_key(order@[q2]));
                        let y = prev.node(base + q2);
                    } else {
                        let image = target.node(base + p);
                        assert forall|k2: int|
                            0 <= k2 < arena.node(x as int).incoming.len() implies {
                            &&& positions@.contains_key(
                                (#[trigger] arena.node(x as int).incoming[k2]).source as usize,
                            )
                            &&& image.incoming[k2].source == base
                                + positions@[arena.node(x as int).incoming[k2].source as usize]
                            &&& call_ensures(
                                map_edge,
                                (&arena.node(x as int).incoming[k2].value,),
                                image.incoming[k2].value,
                            )
                        } by {
                            let e = arena.edge(x as int, k2);
                            let s = ps[k2];
                        }
                    }
                }
                assert(images_upto(
                    arena,
                    target,
                    positions@,
                    base,
                    order@,
                    made@,
                    p + 1,
                    map_node,
                    map_edge,
                ));
            }
            p += 1;
        }
        let mut sinks: Vec<usize> = Vec::new();
        let mut j: usize = 0;
        while j < self.sinks.len()
            invariant
                j <= self.sinks@.len(),
                self.wf(arena),
                self.closed(arena),
                numbered(arena, positions@, order@),
                forall|i: int|
                    self.nodes().contains(i) <==> 0 <= i <= usize::MAX && positions@.contains_key(
                        i as usize,
                    ),
                sinks@.len() == j,
                forall|j2: int|
                    0 <= j2 < j ==> positions@.contains_key(self.sink_ptrs()[j2] as usize) && (
                    #[trigger] sinks@[j2]) == positions@[self.sink_ptrs()[j2] as usize],
            decreases self.sinks@.len() - j,
        {
            let s = self.sinks[j].as_ptr();
            proof {
                assert(self.sink_ptrs()[j as int] == s);
                assert(self.nodes().contains(self.sink_ptrs()[j as int]));
            }
            sinks.push(*positions.get(&s).unwrap());
            j += 1;
        }
        let ghost full = *target;
        let ghost made0 = made@;
        proof {
            assert(self.sink_ptrs().len() == self.sinks@.len());
            assert forall|x: int| full.len() - made@.len() <= x < full.len() implies full.is_live(x)
                && (#[trigger] full.node(x)).handles >= 1 by {
                assert(made@[x - base]@ == x);
            }
            assert forall|j2: int| 0 <= j2 < sinks@.len() implies (#[trigger] sinks@[j2])
                < made@.len() by {
                assert(positions@.contains_key(self.sink_ptrs()[j2] as usize));
            }
        }
        let image = RelRcGraph::of_made(target, made, &sinks);
        proof {
            assert(self.mapped_to(arena, &image, target, positions@, base, map_node, map_edge)) by {
                assert forall|j2: int| 0 <= j2 < self.sink_ptrs().len() implies positions@.contains_key(
                    self.sink_ptrs()[j2] as usize,
                ) && (#[trigger] image.sink_ptrs()[j2]) == base
                    + positions@[self.sink_ptrs()[j2] as usize] by {
                    assert(sinks@[j2] == positions@[self.sink_ptrs()[j2] as usize]);
                }
                assert forall|x: usize|
                    positions@.contains_key(x) && #[trigger] target.is_live(
                        base + positions@[x],
                    ) implies image_at(
                    arena,
                    target,
                    positions@,
                    base,
                    x,
                    map_node,
                    map_edge,
                ) by {
                    let q = positions@[x] as int;
                    assert(order@[q] == x);
                    assert(made@[q]@ == base + q);
                    assert(image_at(arena, &full, positions@, base, order@[q], map_node, map_edge));
                    let y = target.node(base + q);
                }
            }
            assert forall|x: usize| positions@.contains_key(x) implies target.is_live(
                base + #[trigger] positions@[x],
            ) by {
                assert(self.nodes().contains(x as int));
                let j = choose|j: int|
                    0 <= j < self.sink_ptrs().len() && arena.is_ancestor(
                        x as int,
                        #[trigger] self.sink_ptrs()[j],
                    );
                let s = self.sink_ptrs()[j];
                assert(self.nodes().contains(s));
                assert(target.is_live(image.sink_ptrs()[j]));
                self.lemma_images_live(
                    arena,
                    &image,
                    target,
                    positions@,
                    base,
                    map_node,
                    map_edge,
                    s,
                    x as int,
                    |i: int| true,
                );
            }
            assert forall|x: int| base <= x < full.len() implies full.is_live(x) && (
            #[trigger] full.node(x)).handles == 1 && full.node(x).registry is None by {
                let t = made0[x - base];
            }
            assert forall|k: int| 0 <= k < image.sink_ptrs().len() implies base <= (
            #[trigger] image.sink_ptrs()[k]) < full.len() by {
                assert(image.sink_ptrs()[k] == base + sinks@[k]);
            }
            old(target).lemma_grown_by(&full, target, &image);
        }
        image
    }
}

} // verus!
