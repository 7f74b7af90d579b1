//! Walking a graph from children to parents.

use crate::node::{Arena, InnerData};
use std::collections::BTreeSet;
use vstd::prelude::*;
use vstd::std_specs::btree::*;
use vstd::std_specs::iter::IteratorSpec;

verus! {

broadcast use vstd::std_specs::btree::group_btree_axioms;

/// A finite set of machine integers below `n` has at most `n` elements.
pub proof fn lemma_bounded_set_len(s: Set<usize>, n: nat)
    requires
        s.finite(),
        forall|x: usize| s.contains(x) ==> x < n,
    ensures
        s.len() <= n,
    decreases n,
{
    if n == 0 {
        assert(s =~= Set::<usize>::empty());
    } else if n - 1 > usize::MAX {
        lemma_bounded_set_len(s, (n - 1) as nat);
    } else {
        let top = (n - 1) as usize;
        lemma_bounded_set_len(s.remove(top), (n - 1) as nat);
    }
}

/// Whether the test `f` holds of the data of a node: it does when the test
/// cannot answer no. The test is taken to be a function of the data: it never
/// gives both answers.
pub open spec fn verdict_of<N, E, F: Fn(&InnerData<N, E>) -> bool>(f: F, d: InnerData<N, E>) -> bool {
    !call_ensures(f, (&d,), false)
}

/// Whether the test `f` can be called on every node and is a function of the
/// data of the node.
pub open spec fn is_test<N, E, F: Fn(&InnerData<N, E>) -> bool>(f: F) -> bool {
    &&& forall|d: &InnerData<N, E>| call_requires(f, (d,))
    &&& forall|d: &InnerData<N, E>|
        !(call_ensures(f, (d,), true) && #[trigger] call_ensures(f, (d,), false))
}

impl<N, E> Arena<N, E> {
    /// The nodes of which the test `f` holds.
    pub open spec fn passing<F: Fn(&InnerData<N, E>) -> bool>(&self, f: F) -> spec_fn(int) -> bool {
        |i: int| verdict_of(f, self.data(i))
    }

    /// Whether the node at position `a` can be reached from one of `starts`
    /// through nodes that `pass` holds of.
    pub open spec fn reached(&self, starts: Seq<int>, a: int, pass: spec_fn(int) -> bool) -> bool {
        exists|j: int| 0 <= j < starts.len() && self.descends(#[trigger] starts[j], a, pass)
    }

    /// A set that holds a node and, with every node, its passing parents,
    /// holds every node that can be reached from that node.
    pub proof fn lemma_closed_holds_reached(
        &self,
        found: Set<usize>,
        d: int,
        a: int,
        pass: spec_fn(int) -> bool,
    )
        requires
            self.descends(d, a, pass),
            0 <= d <= usize::MAX,
            found.contains(d as usize),
            forall|v: usize, k: int|
                found.contains(v) && 0 <= k < self.node(v as int).incoming.len() && pass(
                    (#[trigger] self.edge(v as int, k)).source,
                ) ==> found.contains(self.edge(v as int, k).source as usize),
        ensures
            0 <= a <= usize::MAX,
            found.contains(a as usize),
        decreases d,
    {
        if a != d {
            let k = choose|k: int|
                0 <= k < self.node(d).incoming.len() && 0 <= (#[trigger] self.edge(d, k)).source < d
                    && self.descends(self.edge(d, k).source, a, pass);
            let p = self.edge(d, k).source;
            assert(pass(p));
            self.lemma_closed_holds_reached(found, p, a, pass);
        }
    }

    /// The nodes whose data `p` holds of.
    pub open spec fn holding(&self, p: spec_fn(InnerData<N, E>) -> bool) -> spec_fn(int) -> bool {
        |i: int| p(self.data(i))
    }

    /// Going from child to parent through the nodes that one test lets pass
    /// reaches what going through the nodes of another test reaches, if the
    /// two agree on every live node.
    pub proof fn lemma_descends_same(
        &self,
        d: int,
        a: int,
        p: spec_fn(int) -> bool,
        q: spec_fn(int) -> bool,
    )
        requires
            forall|i: int| self.is_live(i) ==> #[trigger] p(i) == q(i),
        ensures
            self.descends(d, a, p) == self.descends(d, a, q),
        decreases d,
    {
        if self.is_live(d) && a != d {
            assert forall|k: int|
                0 <= k < self.node(d).incoming.len() && 0 <= (#[trigger] self.edge(d, k)).source
                    < d implies self.descends(self.edge(d, k).source, a, p) == self.descends(
                self.edge(d, k).source,
                a,
                q,
            ) by {
                self.lemma_descends_same(self.edge(d, k).source, a, p, q);
            }
        }
    }

    /// The set of the nodes that can be reached from `starts` by going from
    /// child to parent through nodes of which the test holds. The test
    /// computes `p`.
    pub(crate) fn collect<F: Fn(&InnerData<N, E>) -> bool>(
        &self,
        starts: &Vec<usize>,
        test: F,
        Ghost(p): Ghost<spec_fn(InnerData<N, E>) -> bool>,
    ) -> (found: BTreeSet<usize>)
        requires
            self.wf(),
            forall|d: &InnerData<N, E>| call_requires(test, (d,)),
            forall|d: &InnerData<N, E>, b: bool| call_ensures(test, (d,), b) ==> b == p(*d),
            forall|j: int| 0 <= j < starts@.len() ==> self.is_live(#[trigger] starts@[j] as int),
        ensures
            found@.finite(),
            forall|a: usize| #[trigger]
                found@.contains(a) <==> self.reached(
                    starts@.map_values(|s: usize| s as int),
                    a as int,
                    self.holding(p),
                ),
    {
        let ghost pass = self.holding(p);
        let ghost origin = starts@.map_values(|s: usize| s as int);
        let mut found: BTreeSet<usize> = BTreeSet::new();
        let mut stack: Vec<usize> = Vec::new();
        let mut j: usize = 0;
        while j < starts.len()
            invariant
                j <= starts@.len(),
                stack@ == starts@.take(j as int),
            decreases starts@.len() - j,
        {
            stack.push(starts[j]);
            assert(starts@.take(j + 1) == starts@.take(j as int).push(starts@[j as int]));
            j += 1;
        }
        assert(starts@.take(starts@.len() as int) == starts@);
        proof {
            assert forall|x: usize| stack@.contains(x) implies self.is_live(x as int) && (pass(
                x as int,
            ) ==> self.reached(origin, x as int, pass)) by {
                let j = choose|j: int| 0 <= j < stack@.len() && stack@[j] == x;
                if pass(x as int) {
                    assert(self.descends(origin[j], x as int, pass));
                }
            }
        }
        while stack.len() > 0
            invariant
                self.wf(),
                forall|d: &InnerData<N, E>| call_requires(test, (d,)),
                forall|d: &InnerData<N, E>, b: bool| call_ensures(test, (d,), b) ==> b == p(*d),
                pass == self.holding(p),
                origin == starts@.map_values(|s: usize| s as int),
                found@.finite(),
                forall|x: usize| found@.contains(x) ==> x < self.len(),
                forall|x: usize| #[trigger]
                    stack@.contains(x) ==> self.is_live(x as int) && (pass(x as int)
                        ==> self.reached(origin, x as int, pass)),
                forall|v: usize| #[trigger] found@.contains(v) ==> self.reached(origin, v as int, pass),
                forall|v: usize, k: int|
                    found@.contains(v) && 0 <= k < self.node(v as int).incoming.len() && pass(
                        (#[trigger] self.edge(v as int, k)).source,
                    ) ==> found@.contains(self.edge(v as int, k).source as usize) || stack@.contains(
                        self.edge(v as int, k).source as usize,
                    ),
                forall|j: int|
                    0 <= j < starts@.len() && pass(#[trigger] starts@[j] as int) ==> found@.contains(
                        starts@[j],
                    ) || stack@.contains(starts@[j]),
            decreases self.len() - found@.len(), stack@.len(),
        {
            let ghost stack0 = stack@;
            let ghost found0 = found@;
            proof {
                lemma_bounded_set_len(found@, self.len());
            }
            assert(forall|y: usize| #[trigger]
                stack0.contains(y) ==> self.is_live(y as int) && (pass(y as int) ==> self.reached(
                    origin,
                    y as int,
                    pass,
                )));
            let x = stack.pop().unwrap();
            assert(stack0.contains(x)) by {
                assert(stack0[stack0.len() - 1] == x);
            }
            assert forall|y: usize| stack0.contains(y) implies y == x || stack@.contains(y) by {
                let j = choose|j: int| 0 <= j < stack0.len() && stack0[j] == y;
                if j < stack@.len() {
                    assert(stack@[j] == y);
                }
            }
            assert forall|y: usize| #[trigger] stack@.contains(y) implies stack0.contains(y)
                && self.is_live(y as int) && (pass(y as int) ==> self.reached(
                origin,
                y as int,
                pass,
            )) by {
                let j = choose|j: int| 0 <= j < stack@.len() && stack@[j] == y;
                assert(stack0[j] == y);
                assert(stack0.contains(y));
            }
            if !found.contains(&x) {
                let data = self.slots[x].as_ref().unwrap();
                assert(*data == self.data(x as int));
                if test(data) {
                    assert(pass(x as int));
                    found.insert(x);
                    proof {
                        lemma_bounded_set_len(found@, self.len());
                    }
                    let mut k: usize = 0;
                    let ghost stack1 = stack@;
                    while k < data.incoming.len()
                        invariant
                            self.wf(),
                            self.is_live(x as int),
                            data == self.slots@[x as int].unwrap(),
                            k <= data.incoming@.len(),
                            pass(x as int),
                            self.reached(origin, x as int, pass),
                            forall|y: usize| #[trigger]
                                stack@.contains(y) ==> self.is_live(y as int) && (pass(y as int)
                                    ==> self.reached(origin, y as int, pass)),
                            forall|y: usize| stack1.contains(y) ==> stack@.contains(y),
                            forall|k2: int|
                                0 <= k2 < k ==> stack@.contains(
                                    (#[trigger] self.edge(x as int, k2)).source as usize,
                                ),
                        decreases data.incoming@.len() - k,
                    {
                        let p = data.incoming[k].source.ptr;
                        let ghost stack2 = stack@;
                        assert(self.edge(x as int, k as int).source == p);
                        stack.push(p);
                        proof {
                            assert(stack@[stack2.len() as int] == p);
                            assert forall|y: usize| stack2.contains(y) implies stack@.contains(
                                y,
                            ) by {
                                let j = choose|j: int| 0 <= j < stack2.len() && stack2[j] == y;
                                assert(stack@[j] == y);
                            }
                            assert forall|y: usize| #[trigger]
                                stack@.contains(y) implies self.is_live(y as int) && (pass(y as int)
                                ==> self.reached(origin, y as int, pass)) by {
                                let j = choose|j: int| 0 <= j < stack@.len() && stack@[j] == y;
                                if j < stack2.len() {
                                    assert(stack2[j] == y);
                                    assert(stack2.contains(y));
                                } else if pass(p as int) {
                                    let s = choose|s: int|
                                        0 <= s < origin.len() && self.descends(
                                            #[trigger] origin[s],
                                            x as int,
                                            pass,
                                        );
                                    self.lemma_descends_step(origin[s], x as int, k as int, pass);
                                }
                            }
                        }
                        k += 1;
                    }
                } else {
                    assert(!pass(x as int));
                }
            }
        }
        proof {
            assert forall|a: usize| #[trigger]
                found@.contains(a) <==> self.reached(origin, a as int, pass) by {
                if self.reached(origin, a as int, pass) {
                    let s = choose|s: int|
                        0 <= s < origin.len() && self.descends(#[trigger] origin[s], a as int, pass);
                    assert(pass(starts@[s] as int));
                    assert(!stack@.contains(starts@[s]));
                    assert forall|v: usize, k: int|
                        found@.contains(v) && 0 <= k < self.node(v as int).incoming.len() && pass(
                            (#[trigger] self.edge(v as int, k)).source,
                        ) implies found@.contains(self.edge(v as int, k).source as usize) by {
                        assert(!stack@.contains(self.edge(v as int, k).source as usize));
                    }
                    self.lemma_closed_holds_reached(found@, origin[s], a as int, pass);
                }
            }
        }
        found
    }
}

/// The elements of a set, each once.
pub(crate) fn set_to_vec(s: &BTreeSet<usize>) -> (v: Vec<usize>)
    ensures
        v@.to_set() == s@,
        v@.no_duplicates(),
{
    let mut v: Vec<usize> = Vec::new();
    for x in it: s.iter()
        invariant
            v@ == it.seq().take(it.index() as int).unref(),
    {
        v.push(*x);
    }
    proof {
        let r = spec_btree_keys_iter(s).remaining();
        assert(v@ == r.unref());
        assert(r.unref().to_set() == s@);
        assert(r.no_duplicates());
        assert forall|i: int, j: int| 0 <= i < j < v@.len() implies v@[i] != v@[j] by {
            assert(r[i] != r[j]);
        }
    }
    v
}

/// The elements of a list of which `keep` holds, in their order.
pub open spec fn filtered<T>(s: Seq<T>, keep: spec_fn(T) -> bool) -> Seq<T>
    decreases s.len(),
{
    if s.len() == 0 {
        Seq::empty()
    } else if keep(s.last()) {
        filtered(s.drop_last(), keep).push(s.last())
    } else {
        filtered(s.drop_last(), keep)
    }
}

/// An element is kept exactly if it was there and `keep` holds of it; and
/// what is kept of a list without duplicates has no duplicates.
pub proof fn lemma_filtered<T>(s: Seq<T>, keep: spec_fn(T) -> bool)
    ensures
        forall|x: T| #[trigger] filtered(s, keep).contains(x) <==> s.contains(x) && keep(x),
        s.no_duplicates() ==> filtered(s, keep).no_duplicates(),
    decreases s.len(),
{
    if s.len() > 0 {
        let rest = s.drop_last();
        let kept = filtered(s, keep);
        let kept_rest = filtered(rest, keep);
        lemma_filtered(rest, keep);
        assert forall|x: T| #[trigger] kept.contains(x) <==> s.contains(x) && keep(x) by {
            if kept.contains(x) {
                let j = choose|j: int| 0 <= j < kept.len() && kept[j] == x;
                if j < kept_rest.len() {
                    assert(kept_rest[j] == x);
                    assert(kept_rest.contains(x));
                    assert(rest.contains(x));
                    let j2 = choose|j2: int| 0 <= j2 < rest.len() && rest[j2] == x;
                    assert(s[j2] == x);
                } else {
                    assert(s[s.len() - 1] == x);
                }
            }
            if s.contains(x) && keep(x) {
                let j = choose|j: int| 0 <= j < s.len() && s[j] == x;
                if j < rest.len() {
                    assert(rest[j] == x);
                    assert(rest.contains(x));
                    assert(kept_rest.contains(x));
                    let j2 = choose|j2: int| 0 <= j2 < kept_rest.len() && kept_rest[j2] == x;
                    assert(kept[j2] == x);
                } else {
                    assert(kept[kept.len() - 1] == x);
                }
            }
        }
        if s.no_duplicates() {
            assert forall|a: int, b: int| 0 <= a < b < rest.len() implies rest[a] != rest[b] by {
                assert(s[a] != s[b]);
            }
            assert forall|a: int, b: int| 0 <= a < b < kept.len() implies kept[a] != kept[b] by {
                if b == kept_rest.len() {
                    assert(kept_rest[a] == kept[a]);
                    assert(kept_rest.contains(kept[a]));
                    assert(rest.contains(kept[a]));
                    let j2 = choose|j2: int| 0 <= j2 < rest.len() && rest[j2] == kept[a];
                    assert(s[j2] != s[s.len() - 1]);
                } else {
                    assert(kept_rest[a] != kept_rest[b]);
                }
            }
        }
    }
}

} // verus!
