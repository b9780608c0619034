//! Directed graphs and the enumeration of all their paths.
//!
//! Only acyclic graphs can be enumerated: a cycle is reported as an error.

use vstd::laws_eq::obeys_concrete_eq;
use vstd::prelude::*;
use vstd::set_lib::lemma_len_subset;

verus! {

/// An edge of a directed graph, leading from one node to another.
pub trait Edge {
    type Node: PartialEq + Clone;

    /// The node this edge leaves.
    spec fn spec_from(&self) -> Self::Node;

    /// The node this edge enters.
    spec fn spec_to(&self) -> Self::Node;

    fn from(&self) -> (r: &Self::Node)
        ensures
            *r == self.spec_from(),
    ;

    fn to(&self) -> (r: &Self::Node)
        ensures
            *r == self.spec_to(),
    ;
}

/// A directed graph: a list of nodes, and for each node its outbound edges.
pub trait DiGraph {
    type Node: PartialEq + Clone;

    type Edge: Edge<Node = Self::Node> + Copy;

    spec fn spec_nodes(&self) -> Seq<Self::Node>;

    spec fn spec_outbounds(&self, node: Self::Node) -> Seq<Self::Edge>;

    fn nodes(&self) -> (r: Vec<Self::Node>)
        ensures
            r@ == self.spec_nodes(),
    ;

    fn outbounds(&self, node: &Self::Node) -> (r: Vec<Self::Edge>)
        ensures
            r@ == self.spec_outbounds(*node),
    ;
}

/// The graph holds a cycle, which path enumeration does not support.
#[derive(Debug, Clone, Copy, PartialEq, Eq)]
pub struct CyclicGraphError;

impl CyclicGraphError {
    /// A description of the error.
    pub fn message(&self) -> (r: String)
        ensures
            r@ == "Graph contains at least one cycle - this is currently unsupported"@,
    {
        String::from_str("Graph contains at least one cycle - this is currently unsupported")
    }
}

/// The `i`-th node visited when walking `p` from `start`: `start` itself,
/// then the node that each edge of `p` enters.
pub open spec fn node_at<G: DiGraph>(start: G::Node, p: Seq<G::Edge>, i: int) -> G::Node {
    if i == 0 {
        start
    } else {
        p[i - 1].spec_to()
    }
}

/// The nodes visited when walking `p` from `start`, `start` included.
pub open spec fn visits<G: DiGraph>(start: G::Node, p: Seq<G::Edge>) -> Seq<G::Node> {
    Seq::new((p.len() + 1) as nat, |i: int| node_at::<G>(start, p, i))
}

/// `p` is a walk of `g` from `start`: it has at least one edge, and each of
/// its edges is an outbound edge of the node reached just before it.
pub open spec fn is_walk<G: DiGraph>(g: &G, start: G::Node, p: Seq<G::Edge>) -> bool {
    &&& p.len() >= 1
    &&& forall|i: int|
        #![trigger p[i]]
        0 <= i < p.len() ==> g.spec_outbounds(node_at::<G>(start, p, i)).contains(p[i])
}

/// `p` is a path of `g`: a walk from one of the graph's listed nodes.
pub open spec fn is_path<G: DiGraph>(g: &G, p: Seq<G::Edge>) -> bool {
    exists|s: G::Node| #[trigger] g.spec_nodes().contains(s) && is_walk(g, s, p)
}

/// Every path of `g`.
pub open spec fn path_set<G: DiGraph>(g: &G) -> Set<Seq<G::Edge>> {
    Set::new(|p: Seq<G::Edge>| is_path(g, p))
}

/// Some walk from a listed node of `g` visits a node twice: a node reachable
/// from the listed nodes lies on a cycle.
pub open spec fn has_cycle<G: DiGraph>(g: &G) -> bool {
    exists|s: G::Node, p: Seq<G::Edge>|
        #![trigger g.spec_nodes().contains(s), is_walk(g, s, p)]
        g.spec_nodes().contains(s) && is_walk(g, s, p) && !visits::<G>(s, p).no_duplicates()
}

/// Every edge leaving a listed node enters a listed node.
pub open spec fn is_closed<G: DiGraph>(g: &G) -> bool {
    forall|n: G::Node, e: G::Edge|
        #![trigger g.spec_nodes().contains(n), g.spec_outbounds(n).contains(e)]
        g.spec_nodes().contains(n) && g.spec_outbounds(n).contains(e) ==> g.spec_nodes().contains(
            e.spec_to(),
        )
}

/// The edge sequences held by `ps`, as a set.
pub open spec fn seq_set<E>(ps: Seq<Vec<E>>) -> Set<Seq<E>> {
    Set::new(|q: Seq<E>| exists|i: int| 0 <= i < ps.len() && #[trigger] ps[i]@ == q)
}

/// `ps` holds every path of `g` and nothing else, in some order and possibly
/// more than once.
pub open spec fn enumerates<G: DiGraph>(g: &G, ps: Seq<Vec<G::Edge>>) -> bool {
    seq_set(ps) == path_set(g)
}

/// `start` reaches `v` along `p`: either `p` is empty and `v` is `start`, or
/// `p` is a walk from `start` that ends at `v`.
pub open spec fn reaches<G: DiGraph>(g: &G, start: G::Node, p: Seq<G::Edge>, v: G::Node) -> bool {
    if p.len() == 0 {
        v == start
    } else {
        is_walk(g, start, p) && p.last().spec_to() == v
    }
}

/// `q` is a walk from `start` that strictly extends the walk `p`.
pub open spec fn extends<G: DiGraph>(
    g: &G,
    start: G::Node,
    p: Seq<G::Edge>,
    q: Seq<G::Edge>,
) -> bool {
    &&& is_walk(g, start, q)
    &&& q.len() > p.len()
    &&& q.subrange(0, p.len() as int) == p
}

/// Every walk from `start` that strictly extends `p`.
pub open spec fn extension_set<G: DiGraph>(g: &G, start: G::Node, p: Seq<G::Edge>) -> Set<
    Seq<G::Edge>,
> {
    Set::new(|q: Seq<G::Edge>| extends(g, start, p, q))
}

/// Copies a path edge by edge.
fn copy_path<E: Copy>(p: &Vec<E>) -> (r: Vec<E>)
    ensures
        r@ == p@,
{
    let mut r: Vec<E> = Vec::new();
    let mut i: usize = 0;
    while i < p.len()
        invariant
            i <= p.len(),
            r@ == p@.subrange(0, i as int),
        decreases p.len() - i,
    {
        r.push(p[i]);
        i = i + 1;
    }
    assert(r@ =~= p@);
    r
}

/// Each node visited by a walk from a listed node of a closed graph is listed.
proof fn lemma_walk_stays_listed<G: DiGraph>(g: &G, start: G::Node, p: Seq<G::Edge>, i: int)
    requires
        is_closed(g),
        g.spec_nodes().contains(start),
        is_walk(g, start, p),
        0 <= i <= p.len(),
    ensures
        g.spec_nodes().contains(node_at::<G>(start, p, i)),
    decreases i,
{
    if i > 0 {
        lemma_walk_stays_listed(g, start, p, i - 1);
        assert(g.spec_outbounds(node_at::<G>(start, p, i - 1)).contains(p[i - 1]));
    }
}

/// A walk that visits no node twice has fewer edges than the graph has nodes.
proof fn lemma_simple_walk_length<G: DiGraph>(g: &G, start: G::Node, p: Seq<G::Edge>)
    requires
        is_closed(g),
        g.spec_nodes().contains(start),
        is_walk(g, start, p),
        visits::<G>(start, p).no_duplicates(),
    ensures
        p.len() + 1 <= g.spec_nodes().len(),
{
    let v = visits::<G>(start, p);
    v.unique_seq_to_set();
    assert forall|n: G::Node| v.to_set().contains(n) implies g.spec_nodes().to_set().contains(n) by {
        let i = choose|i: int| 0 <= i < v.len() && #[trigger] v[i] == n;
        lemma_walk_stays_listed(g, start, p, i);
    }
    lemma_len_subset(v.to_set(), g.spec_nodes().to_set());
    g.spec_nodes().lemma_cardinality_of_set();
}

/// Extending a walk by one outbound edge of its last node.
proof fn lemma_walk_push<G: DiGraph>(g: &G, start: G::Node, p: Seq<G::Edge>, next: G::Edge)
    requires
        is_walk(g, start, p),
        g.spec_outbounds(node_at::<G>(start, p, p.len() as int)).contains(next),
    ensures
        is_walk(g, start, p.push(next)),
        visits::<G>(start, p.push(next)) == visits::<G>(start, p).push(next.spec_to()),
        extends(g, start, p, p.push(next)),
        forall|q: Seq<G::Edge>| #[trigger]
            extends(g, start, p.push(next), q) ==> extends(g, start, p, q),
        forall|q: Seq<G::Edge>|
            #[trigger] extends(g, start, p, q) && q[p.len() as int] == next ==> q == p.push(next)
                || extends(g, start, p.push(next), q),
{
    let np = p.push(next);
    assert forall|i: int| 0 <= i < np.len() implies g.spec_outbounds(
        node_at::<G>(start, np, i),
    ).contains(#[trigger] np[i]) by {
        if i < p.len() {
            assert(node_at::<G>(start, np, i) == node_at::<G>(start, p, i));
            assert(np[i] == p[i]);
        }
    }
    assert(visits::<G>(start, np) =~= visits::<G>(start, p).push(next.spec_to()));
    assert(np.subrange(0, p.len() as int) =~= p);
    assert forall|q: Seq<G::Edge>| #[trigger] extends(g, start, np, q) implies extends(
        g,
        start,
        p,
        q,
    ) by {
        assert(q.subrange(0, p.len() as int) =~= q.subrange(0, np.len() as int).subrange(
            0,
            p.len() as int,
        ));
    }
    assert forall|q: Seq<G::Edge>|
        #[trigger] extends(g, start, p, q) && q[p.len() as int] == next implies q == np || extends(
        g,
        start,
        np,
        q,
    ) by {
        assert(q.subrange(0, np.len() as int) =~= np) by {
            assert forall|i: int| 0 <= i < np.len() implies q.subrange(0, np.len() as int)[i]
                == np[i] by {
                if i < p.len() {
                    assert(q.subrange(0, p.len() as int)[i] == q[i]);
                }
            }
        }
        if q.len() == np.len() {
            assert(q =~= np);
        }
    }
}

/// Whether the walk `p` from `start` visits `n`.
fn visits_node<G: DiGraph>(start: &G::Node, p: &Vec<G::Edge>, n: &G::Node) -> (r: bool)
    requires
        obeys_concrete_eq::<G::Node>(),
    ensures
        r == visits::<G>(*start, p@).contains(*n),
{
    proof {
        reveal(obeys_concrete_eq);
    }
    let v = Ghost(visits::<G>(*start, p@));
    if *start == *n {
        assert(v@[0] == *n);
        return true;
    }
    let mut k: usize = 0;
    while k < p.len()
        invariant
            k <= p.len(),
            v@ == visits::<G>(*start, p@),
            obeys_concrete_eq::<G::Node>(),
            forall|i: int| 0 <= i <= k ==> v@[i] != *n,
        decreases p.len() - k,
    {
        let e = p[k];
        assert(v@[k + 1] == node_at::<G>(*start, p@, k + 1));
        proof {
            reveal(obeys_concrete_eq);
        }
        if *e.to() == *n {
            return true;
        }
        k = k + 1;
    }
    false
}

/// Records, after `paths`, every walk from `initial_vertex` that strictly
/// extends `current_path`, depth first.
fn search<G: DiGraph>(
    graph: &G,
    current_path: Vec<G::Edge>,
    paths: &mut Vec<Vec<G::Edge>>,
    initial_vertex: &G::Node,
) -> (r: Result<(), CyclicGraphError>)
    requires
        obeys_concrete_eq::<G::Node>(),
        is_closed(graph),
        graph.spec_nodes().contains(*initial_vertex),
        is_walk(graph, *initial_vertex, current_path@),
        visits::<G>(*initial_vertex, current_path@).no_duplicates(),
    ensures
        r is Ok ==> seq_set(final(paths)@) == seq_set(old(paths)@).union(
            extension_set(graph, *initial_vertex, current_path@),
        ),
        r is Ok ==> forall|q: Seq<G::Edge>| #[trigger]
            extends(graph, *initial_vertex, current_path@, q) ==> visits::<G>(
                *initial_vertex,
                q,
            ).no_duplicates(),
        r is Err ==> exists|q: Seq<G::Edge>| #[trigger]
            extends(graph, *initial_vertex, current_path@, q) && !visits::<G>(
                *initial_vertex,
                q,
            ).no_duplicates(),
    decreases graph.spec_nodes().len() - current_path@.len(),
{
    let ghost s = *initial_vertex;
    let ghost p = current_path@;
    proof {
        lemma_simple_walk_length(graph, s, p);
    }
    let last = current_path.len() - 1;
    let current_destination = current_path[last].to();
    assert(*current_destination == node_at::<G>(s, p, p.len() as int));
    let outbounds = graph.outbounds(current_destination);
    let ghost outs = outbounds@;
    let mut j: usize = 0;
    while j < outbounds.len()
        invariant
            obeys_concrete_eq::<G::Node>(),
            is_closed(graph),
            graph.spec_nodes().contains(s),
            s == *initial_vertex,
            p == current_path@,
            is_walk(graph, s, p),
            visits::<G>(s, p).no_duplicates(),
            p.len() + 1 <= graph.spec_nodes().len(),
            outs == outbounds@,
            outs == graph.spec_outbounds(node_at::<G>(s, p, p.len() as int)),
            j <= outbounds.len(),
            seq_set(paths@) == seq_set(old(paths)@).union(
                Set::new(
                    |q: Seq<G::Edge>|
                        extends(graph, s, p, q) && outs.subrange(0, j as int).contains(
                            q[p.len() as int],
                        ),
                ),
            ),
            forall|q: Seq<G::Edge>|
                #[trigger] extends(graph, s, p, q) && outs.subrange(0, j as int).contains(
                    q[p.len() as int],
                ) ==> visits::<G>(s, q).no_duplicates(),
        decreases outbounds.len() - j,
    {
        let next = outbounds[j];
        assert(outs.contains(next)) by {
            assert(outs[j as int] == next);
        }
        proof {
            lemma_walk_push(graph, s, p, next);
        }
        let ghost np = p.push(next);
        if visits_node::<G>(initial_vertex, &current_path, next.to()) {
            assert(!visits::<G>(s, np).no_duplicates()) by {
                let k = choose|k: int| 0 <= k < visits::<G>(s, p).len() && #[trigger] visits::<G>(s, p)[k] == next.spec_to();
                assert(visits::<G>(s, np)[k] == visits::<G>(s, np)[p.len() + 1 as int]);
            }
            return Err(CyclicGraphError);
        }
        assert(visits::<G>(s, np).no_duplicates());
        let mut new_path = copy_path(&current_path);
        new_path.push(next);
        let ghost before = paths@;
        paths.push(copy_path(&new_path));
        assert(seq_set(paths@) == seq_set(before).insert(np)) by {
            assert(paths@[before.len() as int]@ == np);
            assert forall|q: Seq<G::Edge>| seq_set(paths@).contains(q) implies seq_set(before).insert(np).contains(q) by {
                let i = choose|i: int| 0 <= i < paths@.len() && #[trigger] paths@[i]@ == q;
                if i < before.len() {
                    assert(before[i]@ == q);
                }
            }
            assert forall|q: Seq<G::Edge>| seq_set(before).insert(np).contains(q) implies seq_set(paths@).contains(q) by {
                if q != np {
                    let i = choose|i: int| 0 <= i < before.len() && #[trigger] before[i]@ == q;
                    assert(paths@[i]@ == q);
                }
            }
            assert(seq_set(paths@) =~= seq_set(before).insert(np));
        }
        let ghost mid = paths@;
        match search(graph, new_path, paths, initial_vertex) {
            Ok(()) => {},
            Err(e) => {
                return Err(e);
            },
        }
        assert(outs.subrange(0, j + 1) == outs.subrange(0, j as int).push(next));
        assert(seq_set(paths@) == seq_set(old(paths)@).union(
            Set::new(
                |q: Seq<G::Edge>|
                    extends(graph, s, p, q) && outs.subrange(0, j + 1).contains(q[p.len() as int]),
            ),
        )) by {
            let lo = Set::new(
                |q: Seq<G::Edge>|
                    extends(graph, s, p, q) && outs.subrange(0, j as int).contains(q[p.len() as int]),
            );
            let hi = Set::new(
                |q: Seq<G::Edge>|
                    extends(graph, s, p, q) && outs.subrange(0, j + 1).contains(q[p.len() as int]),
            );
            assert forall|q: Seq<G::Edge>| hi.contains(q) <==> (lo.contains(q) || q == np || extension_set(graph, s, np).contains(q)) by {
                if hi.contains(q) && !lo.contains(q) {
                    let k = choose|k: int| 0 <= k < j + 1 && #[trigger] outs.subrange(0, j + 1)[k] == q[p.len() as int];
                    if k < j {
                        assert(outs.subrange(0, j as int)[k] == q[p.len() as int]);
                    }
                    assert(q[p.len() as int] == next);
                }
                if lo.contains(q) {
                    let k = choose|k: int| 0 <= k < j && #[trigger] outs.subrange(0, j as int)[k] == q[p.len() as int];
                    assert(outs.subrange(0, j + 1)[k] == q[p.len() as int]);
                }
                if q == np {
                    assert(np[p.len() as int] == next);
                    assert(outs.subrange(0, j + 1)[j as int] == next);
                }
                if extension_set(graph, s, np).contains(q) {
                    assert(extends(graph, s, np, q));
                    assert(q[p.len() as int] == q.subrange(0, np.len() as int)[p.len() as int]);
                    assert(outs.subrange(0, j + 1)[j as int] == next);
                }
            }
            assert(seq_set(paths@) =~= seq_set(old(paths)@).union(hi));
        }
        assert forall|q: Seq<G::Edge>|
            #[trigger] extends(graph, s, p, q) && outs.subrange(0, j + 1).contains(
                q[p.len() as int],
            ) implies visits::<G>(s, q).no_duplicates() by {
            let k = choose|k: int| 0 <= k < j + 1 && #[trigger] outs.subrange(0, j + 1)[k] == q[p.len() as int];
            if k < j {
                assert(outs.subrange(0, j as int)[k] == q[p.len() as int]);
            } else {
                assert(q[p.len() as int] == next);
            }
        }
        j = j + 1;
    }
    proof {
        let done = Set::new(
            |q: Seq<G::Edge>|
                extends(graph, s, p, q) && outs.subrange(0, j as int).contains(q[p.len() as int]),
        );
        assert(outs.subrange(0, j as int) =~= outs);
        assert forall|q: Seq<G::Edge>| #[trigger] extends(graph, s, p, q) implies outs.contains(q[p.len() as int]) by {
            assert(q.subrange(0, p.len() as int) == p);
            assert(node_at::<G>(s, q, p.len() as int) == node_at::<G>(s, p, p.len() as int)) by {
                if p.len() > 0 {
                    assert(q[p.len() - 1] == q.subrange(0, p.len() as int)[p.len() - 1]);
                }
            }
            assert(q[p.len() as int] == q[p.len() as int]);
        }
        assert(done =~= extension_set(graph, s, p));
    }
    Ok(())
}

/// Every walk from `start` whose first edge is one of `firsts`.
pub open spec fn walks_via<G: DiGraph>(g: &G, start: G::Node, firsts: Seq<G::Edge>) -> Set<
    Seq<G::Edge>,
> {
    Set::new(|q: Seq<G::Edge>| is_walk(g, start, q) && firsts.contains(q[0]))
}

/// Every walk from one of `starts`.
pub open spec fn walks_from<G: DiGraph>(g: &G, starts: Seq<G::Node>) -> Set<Seq<G::Edge>> {
    Set::new(|q: Seq<G::Edge>| exists|k: int| 0 <= k < starts.len() && is_walk(g, #[trigger] starts[k], q))
}

/// A walk whose first edge is `e` is `e` alone or extends `e`.
proof fn lemma_walk_from_first<G: DiGraph>(g: &G, start: G::Node, e: G::Edge, q: Seq<G::Edge>)
    requires
        is_walk(g, start, q),
        q[0] == e,
    ensures
        q == seq![e] || extends(g, start, seq![e], q),
{
    if q.len() == 1 {
        assert(q =~= seq![e]);
    } else {
        assert(q.subrange(0, 1) =~= seq![e]);
    }
}

/// Computes every path of `graph`: every walk, of every length from one edge
/// up, that leaves one of the graph's listed nodes.
///
/// The search runs depth first from each listed node. A walk that comes back
/// to a node it has already visited means a cycle, and the whole enumeration
/// fails.
///
/// The nodes' `==` must be equality, and each edge that leaves a listed node
/// must enter a listed node, so that the search ends.
pub fn all_paths<G: DiGraph>(graph: &G) -> (r: Result<Vec<Vec<G::Edge>>, CyclicGraphError>)
    requires
        obeys_concrete_eq::<G::Node>(),
        is_closed(graph),
    ensures
        r is Err <==> has_cycle(graph),
        r matches Ok(ps) ==> enumerates(graph, ps@),
{
    let mut paths: Vec<Vec<G::Edge>> = Vec::new();
    let nodes = graph.nodes();
    let ghost ns = nodes@;
    let mut i: usize = 0;
    assert(seq_set(paths@) =~= walks_from(graph, ns.subrange(0, 0)));
    while i < nodes.len()
        invariant
            obeys_concrete_eq::<G::Node>(),
            is_closed(graph),
            ns == nodes@,
            ns == graph.spec_nodes(),
            i <= nodes.len(),
            seq_set(paths@) == walks_from(graph, ns.subrange(0, i as int)),
            forall|k: int, q: Seq<G::Edge>|
                0 <= k < i && #[trigger] is_walk(graph, ns[k], q) ==> visits::<G>(
                    ns[k],
                    q,
                ).no_duplicates(),
        decreases nodes.len() - i,
    {
        let initial_vertex = &nodes[i];
        let ghost s = *initial_vertex;
        assert(ns.contains(s)) by {
            assert(ns[i as int] == s);
        }
        let outbounds = graph.outbounds(initial_vertex);
        let ghost outs = outbounds@;
        let ghost base = seq_set(paths@);
        let mut j: usize = 0;
        assert(seq_set(paths@) =~= base.union(walks_via(graph, s, outs.subrange(0, 0))));
        while j < outbounds.len()
            invariant
                obeys_concrete_eq::<G::Node>(),
                is_closed(graph),
                ns == graph.spec_nodes(),
                ns.contains(s),
                s == *initial_vertex,
                outs == outbounds@,
                outs == graph.spec_outbounds(s),
                j <= outbounds.len(),
                seq_set(paths@) == base.union(walks_via(graph, s, outs.subrange(0, j as int))),
                forall|q: Seq<G::Edge>|
                    #[trigger] is_walk(graph, s, q) && outs.subrange(0, j as int).contains(q[0])
                        ==> visits::<G>(s, q).no_duplicates(),
            decreases outbounds.len() - j,
        {
            let outbound = outbounds[j];
            let ghost one = seq![outbound];
            assert(is_walk(graph, s, one)) by {
                assert(outs[j as int] == outbound);
                assert(node_at::<G>(s, one, 0) == s);
            }
            assert(visits::<G>(s, one) =~= seq![s, outbound.spec_to()]);
            proof {
                reveal(obeys_concrete_eq);
            }
            if *outbound.to() == *initial_vertex {
                assert(!visits::<G>(s, one).no_duplicates()) by {
                    assert(visits::<G>(s, one)[0] == visits::<G>(s, one)[1]);
                }
                return Err(CyclicGraphError);
            }
            assert(visits::<G>(s, one).no_duplicates());
            let mut path: Vec<G::Edge> = Vec::new();
            path.push(outbound);
            assert(path@ =~= one);
            let ghost before = paths@;
            paths.push(copy_path(&path));
            assert(seq_set(paths@) == seq_set(before).insert(one)) by {
                assert(paths@[before.len() as int]@ == one);
                assert forall|q: Seq<G::Edge>| seq_set(paths@).contains(q) implies seq_set(
                    before,
                ).insert(one).contains(q) by {
                    let x = choose|x: int| 0 <= x < paths@.len() && #[trigger] paths@[x]@ == q;
                    if x < before.len() {
                        assert(before[x]@ == q);
                    }
                }
                assert forall|q: Seq<G::Edge>| seq_set(before).insert(one).contains(q) implies seq_set(
                    paths@,
                ).contains(q) by {
                    if q != one {
                        let x = choose|x: int| 0 <= x < before.len() && #[trigger] before[x]@ == q;
                        assert(paths@[x]@ == q);
                    }
                }
                assert(seq_set(paths@) =~= seq_set(before).insert(one));
            }
            match search(graph, path, &mut paths, initial_vertex) {
                Ok(()) => {},
                Err(e) => {
                    proof {
                        let q = choose|q: Seq<G::Edge>| #[trigger]
                            extends(graph, s, one, q) && !visits::<G>(s, q).no_duplicates();
                        assert(graph.spec_nodes().contains(s) && is_walk(graph, s, q));
                    }
                    return Err(e);
                },
            }
            assert(outs.subrange(0, j + 1) == outs.subrange(0, j as int).push(outbound));
            assert(seq_set(paths@) =~= base.union(walks_via(graph, s, outs.subrange(0, j + 1)))) by {
                let lo = walks_via(graph, s, outs.subrange(0, j as int));
                let hi = walks_via(graph, s, outs.subrange(0, j + 1));
                assert(seq_set(paths@) == base.union(lo).insert(one).union(extension_set(graph, s, one)));
                assert forall|q: Seq<G::Edge>| seq_set(paths@).contains(q) <==> base.union(hi).contains(q) by {
                    if hi.contains(q) && !lo.contains(q) {
                        let k = choose|k: int| 0 <= k < j + 1 && #[trigger] outs.subrange(0, j + 1)[k] == q[0];
                        if k < j {
                            assert(outs.subrange(0, j as int)[k] == q[0]);
                        }
                        lemma_walk_from_first(graph, s, outbound, q);
                    }
                    if lo.contains(q) {
                        let k = choose|k: int| 0 <= k < j && #[trigger] outs.subrange(0, j as int)[k] == q[0];
                        assert(outs.subrange(0, j + 1)[k] == q[0]);
                    }
                    if q == one {
                        assert(outs.subrange(0, j + 1)[j as int] == outbound);
                    }
                    if extension_set(graph, s, one).contains(q) {
                        assert(q[0] == q.subrange(0, 1)[0]);
                        assert(outs.subrange(0, j + 1)[j as int] == outbound);
                    }
                }
            }
            assert forall|q: Seq<G::Edge>|
                #[trigger] is_walk(graph, s, q) && outs.subrange(0, j + 1).contains(q[0])
                    implies visits::<G>(s, q).no_duplicates() by {
                let hi = outs.subrange(0, j + 1);
                let k = choose|k: int| 0 <= k < j + 1 && #[trigger] hi[k] == q[0];
                if k < j {
                    assert(outs.subrange(0, j as int)[k] == q[0]);
                } else {
                    lemma_walk_from_first(graph, s, outbound, q);
                }
            }
            j = j + 1;
        }
        proof {
            assert(outs.subrange(0, j as int) =~= outs);
            assert forall|q: Seq<G::Edge>| is_walk(graph, s, q) implies outs.contains(q[0]) by {
                assert(node_at::<G>(s, q, 0) == s);
            }
            assert(walks_via(graph, s, outs) =~= Set::new(|q: Seq<G::Edge>| is_walk(graph, s, q)));
            let next = ns.subrange(0, i + 1);
            assert forall|q: Seq<G::Edge>|
                walks_from(graph, next).contains(q) <==> (walks_from(graph, ns.subrange(0, i as int)).contains(q)
                    || is_walk(graph, s, q)) by {
                if walks_from(graph, next).contains(q) {
                    let k = choose|k: int| 0 <= k < next.len() && is_walk(graph, #[trigger] next[k], q);
                    if k < i {
                        assert(ns.subrange(0, i as int)[k] == next[k]);
                    }
                }
                if walks_from(graph, ns.subrange(0, i as int)).contains(q) {
                    let k = choose|k: int| 0 <= k < i && is_walk(graph, #[trigger] ns.subrange(0, i as int)[k], q);
                    assert(next[k] == ns.subrange(0, i as int)[k]);
                }
                if is_walk(graph, s, q) {
                    assert(next[i as int] == s);
                }
            }
            assert(seq_set(paths@) =~= walks_from(graph, next));
            assert forall|k: int, q: Seq<G::Edge>|
                0 <= k < i + 1 && #[trigger] is_walk(graph, ns[k], q) implies visits::<G>(
                    ns[k],
                    q,
                ).no_duplicates() by {
                if k == i {
                    assert(outs.contains(q[0])) by {
                        assert(node_at::<G>(s, q, 0) == s);
                    }
                }
            }
        }
        i = i + 1;
    }
    proof {
        assert(ns.subrange(0, i as int) =~= ns);
        assert forall|q: Seq<G::Edge>| walks_from(graph, ns).contains(q) <==> is_path(graph, q) by {
            if walks_from(graph, ns).contains(q) {
                let k = choose|k: int| 0 <= k < ns.len() && is_walk(graph, #[trigger] ns[k], q);
                assert(graph.spec_nodes().contains(ns[k]));
            }
            if is_path(graph, q) {
                let s = choose|s: G::Node| #[trigger] graph.spec_nodes().contains(s) && is_walk(graph, s, q);
                let k = choose|k: int| 0 <= k < ns.len() && ns[k] == s;
                assert(is_walk(graph, ns[k], q));
            }
        }
        assert(seq_set(paths@) =~= path_set(graph));
        assert(enumerates(graph, paths@));
        if has_cycle(graph) {
            let (s, q) = choose|s: G::Node, q: Seq<G::Edge>|
                graph.spec_nodes().contains(s) && is_walk(graph, s, q) && !visits::<G>(s, q).no_duplicates();
            let k = choose|k: int| 0 <= k < ns.len() && ns[k] == s;
            assert(is_walk(graph, ns[k], q));
        }
    }
    Ok(paths)
}

/// Two enumerations of the paths of one acyclic graph hold the same paths,
/// whatever their order.
pub proof fn lemma_enumeration_idempotent<G: DiGraph>(
    g: &G,
    first: Seq<Vec<G::Edge>>,
    second: Seq<Vec<G::Edge>>,
)
    requires
        !has_cycle(g),
        enumerates(g, first),
        enumerates(g, second),
    ensures
        seq_set(first) == seq_set(second),
{
}

/// A graph in which a node reachable from a listed node reaches itself again,
/// over one edge or more, has a cycle: path enumeration rejects it.
pub proof fn lemma_cycle_rejected<G: DiGraph>(
    g: &G,
    start: G::Node,
    p: Seq<G::Edge>,
    v: G::Node,
    c: Seq<G::Edge>,
)
    requires
        g.spec_nodes().contains(start),
        reaches(g, start, p, v),
        is_walk(g, v, c),
        c.last().spec_to() == v,
    ensures
        has_cycle(g),
{
    let q = p + c;
    let n = p.len() as int;
    assert forall|i: int| 0 <= i < q.len() implies g.spec_outbounds(node_at::<G>(start, q, i)).contains(
        #[trigger] q[i],
    ) by {
        if i < n {
            assert(node_at::<G>(start, q, i) == node_at::<G>(start, p, i));
        } else {
            assert(q[i] == c[i - n]);
            if i == n {
                if n > 0 {
                    assert(q[n - 1] == p[n - 1]);
                }
                assert(node_at::<G>(start, q, i) == node_at::<G>(v, c, 0));
            } else {
                assert(q[i - 1] == c[i - n - 1]);
                assert(node_at::<G>(start, q, i) == node_at::<G>(v, c, i - n));
            }
        }
    }
    assert(is_walk(g, start, q));
    let vs = visits::<G>(start, q);
    assert(vs[n] == v) by {
        if n > 0 {
            assert(q[n - 1] == p[n - 1]);
        }
    }
    assert(vs[n + c.len()] == v) by {
        assert(q[n + c.len() - 1] == c[c.len() - 1]);
    }
    assert(!vs.no_duplicates());
}

} // verus!
