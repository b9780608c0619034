//! Diagrams of sets and maps, and the check that they commute.
//!
//! A diagram lists its sets (the nodes, numbered from zero) and its maps (the
//! edges). It commutes when any two paths of maps with the same source and the
//! same destination agree on every generating element of their source.

use crate::element::Element;
use crate::graph::{
    all_paths, enumerates, has_cycle, is_closed, is_walk, node_at, path_set, seq_set, DiGraph, Edge,
};
use core::marker::PhantomData;
use vstd::prelude::*;

verus! {

/// A predicate that can be called on every value and always gives the same
/// answer for the same value.
pub open spec fn is_pure_predicate<V, P: Fn(&V) -> bool>(p: P) -> bool {
    &&& forall|v: &V| #[trigger] call_requires(p, (v,))
    &&& forall|v: &V, a: bool, b: bool|
        #[trigger] call_ensures(p, (v,), a) && #[trigger] call_ensures(p, (v,), b) ==> a == b
}

/// A function that can be called on every value and always gives the same
/// result for the same value.
pub open spec fn is_pure_function<V, M: Fn(&V) -> Option<V>>(m: M) -> bool {
    &&& forall|v: &V| #[trigger] call_requires(m, (v,))
    &&& forall|v: &V, a: Option<V>, b: Option<V>|
        #[trigger] call_ensures(m, (v,), a) && #[trigger] call_ensures(m, (v,), b) ==> a == b
}

/// What the predicate `p` says of `v`; `None` stands for a predicate that
/// holds of every value.
pub open spec fn holds_of<V, P: Fn(&V) -> bool>(p: Option<P>, v: V) -> bool {
    match p {
        Some(f) => call_ensures(f, (&v,), true),
        None => true,
    }
}

/// Calls the optional predicate `p` on `v`.
fn test_predicate<V, P: Fn(&V) -> bool>(p: &Option<P>, v: &V) -> (r: bool)
    requires
        p matches Some(f) ==> is_pure_predicate(f),
    ensures
        r == holds_of(*p, *v),
{
    match p {
        Some(f) => {
            let r = f(v);
            assert(r == call_ensures(*f, (v,), true));
            r
        },
        None => true,
    }
}

/// The interface through which a diagram reads one of its sets.
pub trait SetLike<V> {
    /// The generating elements: the values that comparisons start from.
    spec fn spec_elements(&self) -> Seq<V>;

    /// Whether a value satisfies the set's property; a value of the set that
    /// does not is an error.
    spec fn spec_check(&self, element: V) -> bool;

    /// Whether a value takes part in comparisons; one that does not is left
    /// out silently.
    spec fn spec_filter(&self, element: V) -> bool;

    fn elements(&self) -> (r: &[V])
        ensures
            r@ == self.spec_elements(),
    ;

    fn check(&self, element: &V) -> (r: bool)
        ensures
            r == self.spec_check(*element),
    ;

    fn filter(&self, element: &V) -> (r: bool)
        ensures
            r == self.spec_filter(*element),
    ;
}

/// A set of a diagram: its generating elements, an optional property its
/// values must satisfy, and an optional filter on the values that are tested.
#[verifier::reject_recursive_types(V)]
pub struct DiagramSet<V, P, F> where P: Fn(&V) -> bool, F: Fn(&V) -> bool {
    elements: Vec<V>,
    property: Option<P>,
    filter: Option<F>,
}

impl<V, P, F> DiagramSet<V, P, F> where P: Fn(&V) -> bool, F: Fn(&V) -> bool {
    #[verifier::type_invariant]
    spec fn predicates_are_pure(self) -> bool {
        &&& (self.property matches Some(p) ==> is_pure_predicate(p))
        &&& (self.filter matches Some(f) ==> is_pure_predicate(f))
    }

    /// The property, if the set has one.
    pub closed spec fn spec_property(&self) -> Option<P> {
        self.property
    }

    /// The filter, if the set has one.
    pub closed spec fn spec_filter_fn(&self) -> Option<F> {
        self.filter
    }

    /// The generating elements.
    pub closed spec fn spec_generators(&self) -> Seq<V> {
        self.elements@
    }

    /// A set with these generating elements, no property and no filter.
    pub fn new(elements: Vec<V>) -> (r: Self)
        ensures
            r.spec_generators() == elements@,
            r.spec_property() is None,
            r.spec_filter_fn() is None,
    {
        DiagramSet { elements, property: None, filter: None }
    }

    /// A set without generating elements, no property and no filter: its
    /// values are only those that maps bring into it.
    pub fn new_no_generating_set() -> (r: Self)
        ensures
            r.spec_generators() == Seq::<V>::empty(),
            r.spec_property() is None,
            r.spec_filter_fn() is None,
    {
        DiagramSet { elements: Vec::new(), property: None, filter: None }
    }

    /// A set with these generating elements and a property.
    pub fn new_checked(elements: Vec<V>, property: P) -> (r: Self)
        requires
            is_pure_predicate(property),
        ensures
            r.spec_generators() == elements@,
            r.spec_property() == Some(property),
            r.spec_filter_fn() is None,
    {
        DiagramSet { elements, property: Some(property), filter: None }
    }

    /// A set without generating elements, with a property.
    pub fn new_no_generating_set_checked(property: P) -> (r: Self)
        requires
            is_pure_predicate(property),
        ensures
            r.spec_generators() == Seq::<V>::empty(),
            r.spec_property() == Some(property),
            r.spec_filter_fn() is None,
    {
        DiagramSet { elements: Vec::new(), property: Some(property), filter: None }
    }

    /// A set with these generating elements and a filter.
    pub fn new_filtered(elements: Vec<V>, filter: F) -> (r: Self)
        requires
            is_pure_predicate(filter),
        ensures
            r.spec_generators() == elements@,
            r.spec_property() is None,
            r.spec_filter_fn() == Some(filter),
    {
        DiagramSet { elements, property: None, filter: Some(filter) }
    }

    /// A set without generating elements, with a filter.
    pub fn new_no_generating_set_filtered(filter: F) -> (r: Self)
        requires
            is_pure_predicate(filter),
        ensures
            r.spec_generators() == Seq::<V>::empty(),
            r.spec_property() is None,
            r.spec_filter_fn() == Some(filter),
    {
        DiagramSet { elements: Vec::new(), property: None, filter: Some(filter) }
    }

    /// A set with these generating elements, a property and a filter.
    pub fn new_checked_filtered(elements: Vec<V>, property: P, filter: F) -> (r: Self)
        requires
            is_pure_predicate(property),
            is_pure_predicate(filter),
        ensures
            r.spec_generators() == elements@,
            r.spec_property() == Some(property),
            r.spec_filter_fn() == Some(filter),
    {
        DiagramSet { elements, property: Some(property), filter: Some(filter) }
    }

    /// A set without generating elements, with a property and a filter.
    pub fn new_no_generating_set_checked_filtered(property: P, filter: F) -> (r: Self)
        requires
            is_pure_predicate(property),
            is_pure_predicate(filter),
        ensures
            r.spec_generators() == Seq::<V>::empty(),
            r.spec_property() == Some(property),
            r.spec_filter_fn() == Some(filter),
    {
        DiagramSet { elements: Vec::new(), property: Some(property), filter: Some(filter) }
    }
}

impl<V, P, F> SetLike<V> for DiagramSet<V, P, F> where P: Fn(&V) -> bool, F: Fn(&V) -> bool {
    open spec fn spec_elements(&self) -> Seq<V> {
        self.spec_generators()
    }

    open spec fn spec_check(&self, element: V) -> bool {
        holds_of(self.spec_property(), element)
    }

    open spec fn spec_filter(&self, element: V) -> bool {
        holds_of(self.spec_filter_fn(), element)
    }

    fn elements(&self) -> (r: &[V]) {
        self.elements.as_slice()
    }

    fn check(&self, element: &V) -> (r: bool) {
        proof {
            use_type_invariant(self);
        }
        test_predicate(&self.property, element)
    }

    fn filter(&self, element: &V) -> (r: bool) {
        proof {
            use_type_invariant(self);
        }
        test_predicate(&self.filter, element)
    }
}

/// A map of a diagram: a function from the values of one set to those of
/// another, with a name for diagnostics.
///
/// The function gives `None` for a value it cannot take, a value of another
/// kind than its source set holds.
#[verifier::reject_recursive_types(V)]
pub struct DiagramMap<V, M> where M: Fn(&V) -> Option<V> {
    from: usize,
    to: usize,
    map: M,
    name: String,
    marker: PhantomData<V>,
}

impl<V, M> DiagramMap<V, M> where M: Fn(&V) -> Option<V> {
    #[verifier::type_invariant]
    spec fn function_is_pure(self) -> bool {
        is_pure_function(self.map)
    }

    /// The index of the source set.
    pub closed spec fn spec_from(&self) -> usize {
        self.from
    }

    /// The index of the destination set.
    pub closed spec fn spec_to(&self) -> usize {
        self.to
    }

    /// The name.
    pub closed spec fn spec_name(&self) -> Seq<char> {
        self.name@
    }

    /// The function.
    pub closed spec fn spec_map(&self) -> M {
        self.map
    }

    /// What the function gives for `v`.
    pub open spec fn spec_apply(&self, v: V) -> Option<V> {
        choose|r: Option<V>| call_ensures(self.spec_map(), (&v,), r)
    }

    /// A map from the set with index `from` to the set with index `to`.
    pub fn new(from: usize, to: usize, map: M, name: &str) -> (r: Self)
        requires
            is_pure_function(map),
        ensures
            r.spec_from() == from,
            r.spec_to() == to,
            r.spec_map() == map,
            r.spec_name() == name@,
    {
        DiagramMap { from, to, map, name: name.to_owned(), marker: PhantomData }
    }

    /// Applies the function to `v`.
    pub fn apply(&self, v: &V) -> (r: Option<V>)
        ensures
            r == self.spec_apply(*v),
    {
        proof {
            use_type_invariant(self);
        }
        let r = (self.map)(v);
        assert(call_ensures(self.spec_map(), (v,), self.spec_apply(*v)));
        r
    }

    /// The name.
    pub fn name(&self) -> (r: &String)
        ensures
            r@ == self.spec_name(),
    {
        &self.name
    }
}

/// An edge of a diagram: the map with index `ix`, which leads from the set
/// with index `from` to the set with index `to`.
#[derive(Clone, Copy, PartialEq, Eq, Debug)]
pub struct DiEdge {
    pub from: usize,
    pub to: usize,
    pub ix: usize,
}

impl Edge for DiEdge {
    type Node = usize;

    open spec fn spec_from(&self) -> usize {
        self.from
    }

    open spec fn spec_to(&self) -> usize {
        self.to
    }

    fn from(&self) -> (r: &usize) {
        &self.from
    }

    fn to(&self) -> (r: &usize) {
        &self.to
    }
}

/// The edges that leave `node`, one for each of `maps` that starts there, in
/// the order of the maps.
pub open spec fn outbound_edges<V, M: Fn(&V) -> Option<V>>(
    maps: Seq<DiagramMap<V, M>>,
    node: usize,
) -> Seq<DiEdge>
    decreases maps.len(),
{
    if maps.len() == 0 {
        Seq::empty()
    } else {
        let rest = outbound_edges(maps.drop_last(), node);
        if maps.last().spec_from() == node {
            rest.push(DiEdge { from: node, to: maps.last().spec_to(), ix: (maps.len() - 1) as usize })
        } else {
            rest
        }
    }
}

/// Every map of `maps` leads between sets of `n_sets`.
pub open spec fn maps_within<V, M: Fn(&V) -> Option<V>>(
    maps: Seq<DiagramMap<V, M>>,
    n_sets: nat,
) -> bool {
    forall|i: int|
        0 <= i < maps.len() ==> #[trigger] maps[i].spec_from() < n_sets && maps[i].spec_to()
            < n_sets
}

/// An edge that leaves `node` is the edge of one of `maps` that starts there.
pub proof fn lemma_outbound_edge<V, M: Fn(&V) -> Option<V>>(
    maps: Seq<DiagramMap<V, M>>,
    node: usize,
    e: DiEdge,
)
    requires
        outbound_edges(maps, node).contains(e),
        maps.len() <= usize::MAX,
    ensures
        e.ix < maps.len(),
        e.from == node,
        maps[e.ix as int].spec_from() == node,
        e.to == maps[e.ix as int].spec_to(),
    decreases maps.len(),
{
    let rest = outbound_edges(maps.drop_last(), node);
    if maps.len() > 0 {
        if rest.contains(e) {
            lemma_outbound_edge(maps.drop_last(), node, e);
            assert(maps.drop_last()[e.ix as int] == maps[e.ix as int]);
        } else {
            let k = choose|k: int| 0 <= k < outbound_edges(maps, node).len() && outbound_edges(maps, node)[k] == e;
            assert(k == rest.len());
        }
    }
}

/// The outcome of a check that ran to its end.
#[derive(Clone, Debug)]
pub enum CommutativeDiagramResult {
    /// Every two paths with the same ends agree on every tested element.
    Commutes,
    /// Two paths disagree; the text names them, the element and both results.
    DoesNotCommute(String),
}

/// Why a check could not decide whether a diagram commutes.
#[derive(Clone, Debug)]
pub enum CommutativeDiagramError {
    /// The diagram holds a cycle.
    CyclicGraphError,
    /// A value failed the property of a set it belongs to; the text names it.
    PropertyCheckError(String),
    /// A map was given a value it cannot take, a value of another kind than
    /// its source set holds; the text names the map.
    ContractViolation(String),
}

/// What becomes of a value replayed along a path of maps.
pub enum Replay<V> {
    /// It reaches the end of the path as this value.
    Arrived(V),
    /// A set on the way filters it out.
    Filtered,
    /// It becomes this value, which fails the property of the set it enters.
    Rejected(V),
    /// The map with this index gives no result for it.
    Unmapped(usize),
}

/// The outcome of comparing two paths on one generating element.
pub enum Comparison<V> {
    /// The paths agree, or a filter leaves the element out.
    Pass,
    /// The element fails the property of the source set.
    SourceRejected,
    /// A value on one of the paths fails the property of the set it enters.
    Rejected(V),
    /// The map with this index gives no result for a value on a path.
    Unmapped(usize),
    /// The paths end at these two different values.
    Disagree(V, V),
}

/// Both paths have edges, start at the same set and end at the same set.
pub open spec fn coterminal(a: Seq<DiEdge>, b: Seq<DiEdge>) -> bool {
    &&& a.len() > 0
    &&& b.len() > 0
    &&& a[0].from == b[0].from
    &&& a.last().to == b.last().to
}

/// `(i2, j2, k2)` comes before `(i, j, k)` in lexicographic order.
pub open spec fn before(i2: int, j2: int, k2: int, i: int, j: int, k: int) -> bool {
    ||| i2 < i
    ||| i2 == i && j2 < j
    ||| i2 == i && j2 == j && k2 < k
}

/// The text of a failed property at the source of a comparison.
pub open spec fn source_failure(name: Seq<char>) -> Seq<char> {
    "Element does not satisfy source set property: "@ + name
}

/// The text of a failed property on a path.
pub open spec fn target_failure(name: Seq<char>) -> Seq<char> {
    "Element does not satisfy target set property: "@ + name
}

/// The text of a map that gave no result.
pub open spec fn unmapped_failure(name: Seq<char>) -> Seq<char> {
    "Map "@ + name + " gives no result for a value it was applied to"@
}

/// A commutative diagram: sets, numbered from zero, and maps between them.
#[verifier::reject_recursive_types(V)]
pub struct Diagram<V, S, M> where S: SetLike<V>, M: Fn(&V) -> Option<V> {
    sets: Vec<S>,
    maps: Vec<DiagramMap<V, M>>,
}

impl<V, S, M> Diagram<V, S, M> where S: SetLike<V>, M: Fn(&V) -> Option<V> {
    #[verifier::type_invariant]
    spec fn maps_are_within(self) -> bool {
        maps_within(self.maps@, self.sets@.len())
    }

    /// The sets.
    pub closed spec fn spec_sets(&self) -> Seq<S> {
        self.sets@
    }

    /// The maps.
    pub closed spec fn spec_maps(&self) -> Seq<DiagramMap<V, M>> {
        self.maps@
    }

    /// A diagram of these sets and maps. Each map leads between two of the
    /// sets.
    pub fn new(sets: Vec<S>, maps: Vec<DiagramMap<V, M>>) -> (r: Self)
        requires
            maps_within(maps@, sets@.len()),
        ensures
            r.spec_sets() == sets@,
            r.spec_maps() == maps@,
    {
        Diagram { sets, maps }
    }
}

impl<V, S, M> DiGraph for Diagram<V, S, M> where S: SetLike<V>, M: Fn(&V) -> Option<V> {
    type Node = usize;

    type Edge = DiEdge;

    open spec fn spec_nodes(&self) -> Seq<usize> {
        Seq::new(self.spec_sets().len(), |i: int| i as usize)
    }

    open spec fn spec_outbounds(&self, node: usize) -> Seq<DiEdge> {
        outbound_edges(self.spec_maps(), node)
    }

    fn nodes(&self) -> (r: Vec<usize>) {
        let mut r: Vec<usize> = Vec::new();
        let mut i: usize = 0;
        while i < self.sets.len()
            invariant
                i <= self.sets@.len(),
                r@ == Seq::new(i as nat, |k: int| k as usize),
            decreases self.sets@.len() - i,
        {
            r.push(i);
            i = i + 1;
            assert(r@ =~= Seq::new(i as nat, |k: int| k as usize));
        }
        r
    }

    fn outbounds(&self, node: &usize) -> (r: Vec<DiEdge>) {
        let mut r: Vec<DiEdge> = Vec::new();
        let mut i: usize = 0;
        while i < self.maps.len()
            invariant
                i <= self.maps@.len(),
                r@ == outbound_edges(self.maps@.subrange(0, i as int), *node),
            decreases self.maps@.len() - i,
        {
            assert(self.maps@.subrange(0, i + 1).drop_last() =~= self.maps@.subrange(0, i as int));
            if self.maps[i].from == *node {
                r.push(DiEdge { from: *node, to: self.maps[i].to, ix: i });
            }
            i = i + 1;
        }
        assert(self.maps@.subrange(0, i as int) =~= self.maps@);
        r
    }
}

impl<V: Element, S, M> Diagram<V, S, M> where S: SetLike<V>, M: Fn(&V) -> Option<V> {
    /// Each edge of `p` is the edge of a map of the diagram, between two of
    /// its sets.
    pub open spec fn edges_within(&self, p: Seq<DiEdge>) -> bool {
        forall|i: int|
            0 <= i < p.len() ==> {
                &&& #[trigger] p[i].ix < self.spec_maps().len()
                &&& p[i].from < self.spec_sets().len()
                &&& p[i].to < self.spec_sets().len()
            }
    }

    /// What becomes of `v` when the map of `e` is applied to it: the map's
    /// result must pass the filter, then the property, of the set it enters.
    pub open spec fn hop(&self, e: DiEdge, v: V) -> Replay<V> {
        match self.spec_maps()[e.ix as int].spec_apply(v) {
            None => Replay::Unmapped(e.ix),
            Some(w) => {
                let set = self.spec_sets()[e.to as int];
                if !set.spec_filter(w) {
                    Replay::Filtered
                } else if !set.spec_check(w) {
                    Replay::Rejected(w)
                } else {
                    Replay::Arrived(w)
                }
            },
        }
    }

    /// What becomes of `x` replayed along `p`: it hops edge by edge until the
    /// path ends or a hop does not arrive.
    pub open spec fn replay(&self, x: V, p: Seq<DiEdge>) -> Replay<V>
        decreases p.len(),
    {
        if p.len() == 0 {
            Replay::Arrived(x)
        } else {
            match self.replay(x, p.drop_last()) {
                Replay::Arrived(v) => self.hop(p.last(), v),
                other => other,
            }
        }
    }

    /// The generating elements of the set where `a` starts.
    pub open spec fn source_elements(&self, a: Seq<DiEdge>) -> Seq<V> {
        self.spec_sets()[a[0].from as int].spec_elements()
    }

    /// The comparison of the co-terminal paths `a` and `b` on the generating
    /// element `x` of their source: `x` must pass the source's filter, then
    /// its property, and is then replayed along `a`, then along `b`.
    pub open spec fn compare(&self, a: Seq<DiEdge>, b: Seq<DiEdge>, x: V) -> Comparison<V> {
        let source = self.spec_sets()[a[0].from as int];
        if !source.spec_filter(x) {
            Comparison::Pass
        } else if !source.spec_check(x) {
            Comparison::SourceRejected
        } else {
            match self.replay(x, a) {
                Replay::Filtered => Comparison::Pass,
                Replay::Rejected(w) => Comparison::Rejected(w),
                Replay::Unmapped(ix) => Comparison::Unmapped(ix),
                Replay::Arrived(ra) => match self.replay(x, b) {
                    Replay::Filtered => Comparison::Pass,
                    Replay::Rejected(w) => Comparison::Rejected(w),
                    Replay::Unmapped(ix) => Comparison::Unmapped(ix),
                    Replay::Arrived(rb) => if ra == rb {
                        Comparison::Pass
                    } else {
                        Comparison::Disagree(ra, rb)
                    },
                },
            }
        }
    }

    /// The names of the maps of `p`, joined by arrows.
    pub open spec fn path_description(&self, p: Seq<DiEdge>) -> Seq<char>
        decreases p.len(),
    {
        if p.len() == 0 {
            Seq::empty()
        } else if p.len() == 1 {
            self.spec_maps()[p[0].ix as int].spec_name()
        } else {
            self.path_description(p.drop_last()) + " -> "@ + self.spec_maps()[p.last().ix as int].spec_name()
        }
    }

    /// The text that reports that `a` and `b` disagree on `x`, giving `ra`
    /// and `rb`.
    pub open spec fn disagreement(&self, a: Seq<DiEdge>, b: Seq<DiEdge>, x: V, ra: V, rb: V) -> Seq<char> {
        self.path_description(a) + " and "@ + self.path_description(b) + " don't agree on "@
            + x.spec_name() + ". Left gets "@ + ra.spec_name() + " while right gets "@
            + rb.spec_name()
    }

    /// `r` reports the failed comparison of `a` and `b` on `x`.
    pub open spec fn reports(
        &self,
        r: Result<CommutativeDiagramResult, CommutativeDiagramError>,
        a: Seq<DiEdge>,
        b: Seq<DiEdge>,
        x: V,
    ) -> bool {
        match self.compare(a, b, x) {
            Comparison::Pass => false,
            Comparison::SourceRejected => r matches Err(
                CommutativeDiagramError::PropertyCheckError(m),
            ) && m@ == source_failure(x.spec_name()),
            Comparison::Rejected(w) => r matches Err(
                CommutativeDiagramError::PropertyCheckError(m),
            ) && m@ == target_failure(w.spec_name()),
            Comparison::Unmapped(ix) => r matches Err(
                CommutativeDiagramError::ContractViolation(m),
            ) && m@ == unmapped_failure(self.spec_maps()[ix as int].spec_name()),
            Comparison::Disagree(ra, rb) => r matches Ok(
                CommutativeDiagramResult::DoesNotCommute(m),
            ) && m@ == self.disagreement(a, b, x, ra, rb),
        }
    }

    /// `(i, j, k)` names a comparison over the paths `ps`: of the co-terminal
    /// paths `ps[i]` and `ps[j]` on the `k`-th generating element of their
    /// source.
    pub open spec fn is_probe(&self, ps: Seq<Vec<DiEdge>>, i: int, j: int, k: int) -> bool {
        &&& 0 <= i < ps.len()
        &&& 0 <= j < ps.len()
        &&& coterminal(ps[i]@, ps[j]@)
        &&& 0 <= k < self.source_elements(ps[i]@).len()
    }

    /// The comparison that `(i, j, k)` names.
    pub open spec fn probe(&self, ps: Seq<Vec<DiEdge>>, i: int, j: int, k: int) -> Comparison<V> {
        self.compare(ps[i]@, ps[j]@, self.source_elements(ps[i]@)[k])
    }

    /// Every comparison over `ps` before `(i, j, k)` passes.
    pub open spec fn passes_before(&self, ps: Seq<Vec<DiEdge>>, i: int, j: int, k: int) -> bool {
        forall|i2: int, j2: int, k2: int|
            #[trigger] self.is_probe(ps, i2, j2, k2) && before(i2, j2, k2, i, j, k)
                ==> self.probe(ps, i2, j2, k2) is Pass
    }

    /// `(i, j, k)` is the first comparison over `ps` that does not pass.
    pub open spec fn is_first_failure(&self, ps: Seq<Vec<DiEdge>>, i: int, j: int, k: int) -> bool {
        &&& self.is_probe(ps, i, j, k)
        &&& !(self.probe(ps, i, j, k) is Pass)
        &&& self.passes_before(ps, i, j, k)
    }

    /// `r` is the verdict of the comparisons over `ps`, taken in order: the
    /// report of the first one that fails, or `Commutes` if all pass.
    pub open spec fn verdict(
        &self,
        ps: Seq<Vec<DiEdge>>,
        r: Result<CommutativeDiagramResult, CommutativeDiagramError>,
    ) -> bool {
        ||| (forall|i: int, j: int, k: int| #[trigger] self.is_probe(ps, i, j, k) ==> self.probe(ps, i, j, k) is Pass)
            && r matches Ok(CommutativeDiagramResult::Commutes)
        ||| exists|i: int, j: int, k: int|
            #[trigger] self.is_first_failure(ps, i, j, k) && self.reports(
                r,
                ps[i]@,
                ps[j]@,
                self.source_elements(ps[i]@)[k],
            )
    }

    /// A filter leaves `x` out of the comparison of `a` and `b`: the source's
    /// filter rejects it; or `x` satisfies the source's property and a filter
    /// rejects the value it becomes along `a`; or it arrives at the end of `a`
    /// and a filter rejects the value it becomes along `b`.
    pub open spec fn filtered_out(&self, a: Seq<DiEdge>, b: Seq<DiEdge>, x: V) -> bool {
        let source = self.spec_sets()[a[0].from as int];
        ||| !source.spec_filter(x)
        ||| source.spec_check(x) && self.replay(x, a) is Filtered
        ||| source.spec_check(x) && self.replay(x, a) is Arrived && self.replay(x, b) is Filtered
    }

    /// Any two co-terminal paths of the diagram agree on every generating
    /// element of their source: every comparison passes.
    pub open spec fn all_agree(&self) -> bool {
        forall|a: Seq<DiEdge>, b: Seq<DiEdge>, k: int|
            #![trigger path_set(self).contains(a), path_set(self).contains(b), self.source_elements(a)[k]]
            path_set(self).contains(a) && path_set(self).contains(b) && coterminal(a, b) && 0 <= k
                < self.source_elements(a).len() ==> self.compare(a, b, self.source_elements(a)[k]) is Pass
    }
}

/// Every edge of a path of a diagram is the edge of one of its maps, between
/// two of its sets.
proof fn lemma_path_within<V: Element, S: SetLike<V>, M: Fn(&V) -> Option<V>>(
    d: &Diagram<V, S, M>,
    p: Seq<DiEdge>,
)
    requires
        maps_within(d.spec_maps(), d.spec_sets().len()),
        d.spec_maps().len() <= usize::MAX,
        path_set(d).contains(p),
    ensures
        p.len() >= 1,
        d.edges_within(p),
{
    let s = choose|s: usize| #[trigger] d.spec_nodes().contains(s) && is_walk(d, s, p);
    assert forall|i: int| 0 <= i < p.len() implies {
        &&& #[trigger] p[i].ix < d.spec_maps().len()
        &&& p[i].from < d.spec_sets().len()
        &&& p[i].to < d.spec_sets().len()
    } by {
        let n = node_at::<Diagram<V, S, M>>(s, p, i);
        assert(outbound_edges(d.spec_maps(), n).contains(p[i]));
        lemma_outbound_edge(d.spec_maps(), n, p[i]);
        assert(d.spec_maps()[p[i].ix as int].spec_from() < d.spec_sets().len());
    }
}

/// The edges of a diagram lead to its sets.
proof fn lemma_diagram_closed<V: Element, S: SetLike<V>, M: Fn(&V) -> Option<V>>(
    d: &Diagram<V, S, M>,
)
    requires
        maps_within(d.spec_maps(), d.spec_sets().len()),
        d.spec_maps().len() <= usize::MAX,
    ensures
        is_closed(d),
{
    assert forall|n: usize, e: DiEdge|
        d.spec_nodes().contains(n) && d.spec_outbounds(n).contains(e) implies d.spec_nodes().contains(
        e.spec_to(),
    ) by {
        lemma_outbound_edge(d.spec_maps(), n, e);
        assert(d.spec_maps()[e.ix as int].spec_to() < d.spec_sets().len());
        assert(d.spec_nodes()[e.to as int] == e.to);
    }
}

impl<V: Element, S, M> Diagram<V, S, M> where S: SetLike<V>, M: Fn(&V) -> Option<V> {
    /// A replay that ends at a map without result names a map of the
    /// diagram.
    proof fn lemma_unmapped_within(&self, x: V, p: Seq<DiEdge>)
        requires
            self.edges_within(p),
        ensures
            self.replay(x, p) matches Replay::Unmapped(ix) ==> ix < self.spec_maps().len(),
        decreases p.len(),
    {
        if p.len() > 0 {
            let q = p.drop_last();
            assert(self.edges_within(q)) by {
                assert forall|i: int| 0 <= i < q.len() implies {
                    &&& #[trigger] q[i].ix < self.spec_maps().len()
                    &&& q[i].from < self.spec_sets().len()
                    &&& q[i].to < self.spec_sets().len()
                } by {
                    assert(q[i] == p[i]);
                    assert(p[i].ix < self.spec_maps().len());
                }
            }
            self.lemma_unmapped_within(x, q);
            assert(p.last().ix < self.spec_maps().len());
        }
    }

    /// Applies the map of `e` to `v` and tests the result against the set it
    /// enters.
    fn hop_along(&self, e: &DiEdge, v: &V) -> (r: Replay<V>)
        requires
            e.ix < self.spec_maps().len(),
            e.to < self.spec_sets().len(),
        ensures
            r == self.hop(*e, *v),
    {
        match self.maps[e.ix].apply(v) {
            None => Replay::Unmapped(e.ix),
            Some(w) => {
                let set = &self.sets[e.to];
                if !set.filter(&w) {
                    Replay::Filtered
                } else if !set.check(&w) {
                    Replay::Rejected(w)
                } else {
                    Replay::Arrived(w)
                }
            },
        }
    }

    /// Replays `x` along the path `p`.
    fn replay_along(&self, x: &V, p: &Vec<DiEdge>) -> (r: Replay<V>)
        requires
            p@.len() >= 1,
            self.edges_within(p@),
        ensures
            r == self.replay(*x, p@),
    {
        assert(p@[0].ix < self.spec_maps().len());
        let mut current = self.hop_along(&p[0], x);
        assert(p@.subrange(0, 1).drop_last() =~= Seq::<DiEdge>::empty());
        assert(self.replay(*x, Seq::<DiEdge>::empty()) == Replay::Arrived(*x));
        assert(p@.subrange(0, 1).last() == p@[0]);
        let mut i: usize = 1;
        while i < p.len()
            invariant
                1 <= i <= p@.len(),
                self.edges_within(p@),
                current == self.replay(*x, p@.subrange(0, i as int)),
            decreases p@.len() - i,
        {
            assert(p@.subrange(0, i + 1).drop_last() =~= p@.subrange(0, i as int));
            assert(p@[i as int].ix < self.spec_maps().len());
            current = match current {
                Replay::Arrived(v) => self.hop_along(&p[i], &v),
                other => other,
            };
            i = i + 1;
        }
        assert(p@.subrange(0, i as int) =~= p@);
        current
    }

    /// Compares the co-terminal paths `a` and `b` on `x`.
    fn compare_along(&self, a: &Vec<DiEdge>, b: &Vec<DiEdge>, x: &V) -> (r: Comparison<V>)
        requires
            coterminal(a@, b@),
            self.edges_within(a@),
            self.edges_within(b@),
        ensures
            r == self.compare(a@, b@, *x),
    {
        assert(a@[0].ix < self.spec_maps().len());
        let source = &self.sets[a[0].from];
        if !source.filter(x) {
            return Comparison::Pass;
        }
        if !source.check(x) {
            return Comparison::SourceRejected;
        }
        match self.replay_along(x, a) {
            Replay::Filtered => Comparison::Pass,
            Replay::Rejected(w) => Comparison::Rejected(w),
            Replay::Unmapped(ix) => Comparison::Unmapped(ix),
            Replay::Arrived(ra) => match self.replay_along(x, b) {
                Replay::Filtered => Comparison::Pass,
                Replay::Rejected(w) => Comparison::Rejected(w),
                Replay::Unmapped(ix) => Comparison::Unmapped(ix),
                Replay::Arrived(rb) => if ra.eq(&rb) {
                    Comparison::Pass
                } else {
                    Comparison::Disagree(ra, rb)
                },
            },
        }
    }

    /// The names of the maps of `p`, joined by arrows.
    fn describe(&self, p: &Vec<DiEdge>) -> (r: String)
        requires
            p@.len() >= 1,
            self.edges_within(p@),
        ensures
            r@ == self.path_description(p@),
    {
        assert(p@[0].ix < self.spec_maps().len());
        let mut out = self.maps[p[0].ix].name().clone();
        assert(p@.subrange(0, 1).len() == 1);
        let mut i: usize = 1;
        while i < p.len()
            invariant
                1 <= i <= p@.len(),
                self.edges_within(p@),
                out@ == self.path_description(p@.subrange(0, i as int)),
            decreases p@.len() - i,
        {
            assert(p@.subrange(0, i + 1).drop_last() =~= p@.subrange(0, i as int));
            assert(p@[i as int].ix < self.spec_maps().len());
            out.append(" -> ");
            out.append(self.maps[p[i].ix].name().as_str());
            i = i + 1;
        }
        assert(p@.subrange(0, i as int) =~= p@);
        out
    }

    /// The result that reports the failed comparison `c` of `a` and `b` on
    /// `x`.
    fn report(&self, c: Comparison<V>, a: &Vec<DiEdge>, b: &Vec<DiEdge>, x: &V) -> (r: Result<
        CommutativeDiagramResult,
        CommutativeDiagramError,
    >)
        requires
            c == self.compare(a@, b@, *x),
            !(c is Pass),
            a@.len() >= 1,
            b@.len() >= 1,
            self.edges_within(a@),
            self.edges_within(b@),
        ensures
            self.reports(r, a@, b@, *x),
    {
        match c {
            Comparison::Pass => Ok(CommutativeDiagramResult::Commutes),
            Comparison::SourceRejected => {
                let mut m = String::from_str("Element does not satisfy source set property: ");
                m.append(x.name().as_str());
                Err(CommutativeDiagramError::PropertyCheckError(m))
            },
            Comparison::Rejected(w) => {
                let mut m = String::from_str("Element does not satisfy target set property: ");
                m.append(w.name().as_str());
                Err(CommutativeDiagramError::PropertyCheckError(m))
            },
            Comparison::Unmapped(ix) => {
                proof {
                    self.lemma_unmapped_within(*x, a@);
                    self.lemma_unmapped_within(*x, b@);
                }
                let mut m = String::from_str("Map ");
                m.append(self.maps[ix].name().as_str());
                m.append(" gives no result for a value it was applied to");
                Err(CommutativeDiagramError::ContractViolation(m))
            },
            Comparison::Disagree(ra, rb) => {
                let mut m = self.describe(a);
                m.append(" and ");
                m.append(self.describe(b).as_str());
                m.append(" don't agree on ");
                m.append(x.name().as_str());
                m.append(". Left gets ");
                m.append(ra.name().as_str());
                m.append(" while right gets ");
                m.append(rb.name().as_str());
                Ok(CommutativeDiagramResult::DoesNotCommute(m))
            },
        }
    }
}

/// Checks whether `diagram` commutes.
///
/// Every two paths that start at the same set and end at the same set are
/// compared, in the order of the enumerated paths, on each generating
/// element of their source set, in the set's order. An element that a filter
/// leaves out is skipped. The first comparison that fails decides: a value
/// failing the property of its set, or a map given a value it cannot take,
/// is an error; two different results mean the diagram does not commute.
pub fn diagram_commutes<V: Element, S: SetLike<V>, M: Fn(&V) -> Option<V>>(
    diagram: &Diagram<V, S, M>,
) -> (r: Result<CommutativeDiagramResult, CommutativeDiagramError>)
    ensures
        r matches Err(CommutativeDiagramError::CyclicGraphError) <==> has_cycle(diagram),
        !has_cycle(diagram) ==> exists|ps: Seq<Vec<DiEdge>>|
            enumerates(diagram, ps) && #[trigger] diagram.verdict(ps, r),
        r matches Ok(CommutativeDiagramResult::Commutes) <==> !has_cycle(diagram)
            && diagram.all_agree(),
{
    proof {
        use_type_invariant(diagram);
    }
    let n_maps = diagram.maps.len();
    proof {
        lemma_diagram_closed(diagram);
    }
    let all_possible_paths = match all_paths(diagram) {
        Ok(ps) => ps,
        Err(_) => {
            return Err(CommutativeDiagramError::CyclicGraphError);
        },
    };
    let ghost ps = all_possible_paths@;
    proof {
        assert forall|x: int| 0 <= x < ps.len() implies #[trigger] ps[x]@.len() >= 1
            && diagram.edges_within(ps[x]@) by {
            assert(seq_set(ps).contains(ps[x]@));
            lemma_path_within(diagram, ps[x]@);
        }
    }
    let mut i: usize = 0;
    while i < all_possible_paths.len()
        invariant
            ps == all_possible_paths@,
            enumerates(diagram, ps),
            !has_cycle(diagram),
            forall|x: int| 0 <= x < ps.len() ==> #[trigger] ps[x]@.len() >= 1 && diagram.edges_within(ps[x]@),
            i <= ps.len(),
            diagram.passes_before(ps, i as int, 0, 0),
        decreases ps.len() - i,
    {
        let path_a = &all_possible_paths[i];
        assert(ps[i as int]@.len() >= 1);
        let mut j: usize = 0;
        while j < all_possible_paths.len()
            invariant
                ps == all_possible_paths@,
                enumerates(diagram, ps),
                !has_cycle(diagram),
                forall|x: int| 0 <= x < ps.len() ==> #[trigger] ps[x]@.len() >= 1 && diagram.edges_within(ps[x]@),
                i < ps.len(),
                *path_a == ps[i as int],
                j <= ps.len(),
                diagram.passes_before(ps, i as int, j as int, 0),
            decreases ps.len() - j,
        {
            let path_b = &all_possible_paths[j];
            assert(ps[j as int]@.len() >= 1);
            let last_a = path_a.len() - 1;
            let last_b = path_b.len() - 1;
            if path_a[0].from == path_b[0].from && path_a[last_a].to == path_b[last_b].to {
                assert(coterminal(ps[i as int]@, ps[j as int]@));
                assert(ps[i as int]@[0].ix < diagram.spec_maps().len());
                let source_set = &diagram.sets[path_a[0].from];
                let source_elements = source_set.elements();
                let mut k: usize = 0;
                while k < source_elements.len()
                    invariant
                        ps == all_possible_paths@,
                        enumerates(diagram, ps),
                        !has_cycle(diagram),
                        forall|x: int| 0 <= x < ps.len() ==> #[trigger] ps[x]@.len() >= 1 && diagram.edges_within(ps[x]@),
                        i < ps.len(),
                        j < ps.len(),
                        *path_a == ps[i as int],
                        *path_b == ps[j as int],
                        coterminal(ps[i as int]@, ps[j as int]@),
                        source_elements@ == diagram.source_elements(ps[i as int]@),
                        k <= source_elements@.len(),
                        diagram.passes_before(ps, i as int, j as int, k as int),
                    decreases source_elements@.len() - k,
                {
                    let element = &source_elements[k];
                    let outcome = diagram.compare_along(path_a, path_b, element);
                    if !matches!(outcome, Comparison::Pass) {
                        let r = diagram.report(outcome, path_a, path_b, element);
                        proof {
                            assert(diagram.is_probe(ps, i as int, j as int, k as int));
                            assert(diagram.is_first_failure(ps, i as int, j as int, k as int));
                            assert(diagram.verdict(ps, r));
                            assert(!diagram.all_agree()) by {
                                assert(seq_set(ps).contains(ps[i as int]@));
                                assert(seq_set(ps).contains(ps[j as int]@));
                                assert(path_set(diagram).contains(ps[i as int]@));
                                assert(path_set(diagram).contains(ps[j as int]@));
                                let x = diagram.source_elements(ps[i as int]@)[k as int];
                                assert(!(diagram.compare(ps[i as int]@, ps[j as int]@, x) is Pass));
                            }
                        }
                        return r;
                    }
                    k = k + 1;
                }
            } else {
                assert(!coterminal(ps[i as int]@, ps[j as int]@));
            }
            proof {
                assert forall|i2: int, j2: int, k2: int|
                    #[trigger] diagram.is_probe(ps, i2, j2, k2) && before(i2, j2, k2, i as int, j + 1, 0)
                        implies diagram.probe(ps, i2, j2, k2) is Pass by {
                    if i2 == i && j2 == j {
                        assert(before(i2, j2, k2, i as int, j as int, diagram.source_elements(ps[i as int]@).len() as int));
                    } else {
                        assert(before(i2, j2, k2, i as int, j as int, 0));
                    }
                }
            }
            j = j + 1;
        }
        proof {
            assert forall|i2: int, j2: int, k2: int|
                #[trigger] diagram.is_probe(ps, i2, j2, k2) && before(i2, j2, k2, i + 1, 0, 0)
                    implies diagram.probe(ps, i2, j2, k2) is Pass by {
                assert(before(i2, j2, k2, i as int, j as int, 0));
            }
        }
        i = i + 1;
    }
    let r = Ok(CommutativeDiagramResult::Commutes);
    proof {
        assert forall|i2: int, j2: int, k2: int| #[trigger] diagram.is_probe(ps, i2, j2, k2) implies diagram.probe(ps, i2, j2, k2) is Pass by {
            assert(before(i2, j2, k2, i as int, 0, 0));
        }
        assert(diagram.verdict(ps, r));
        assert forall|a: Seq<DiEdge>, b: Seq<DiEdge>, k: int|
            path_set(diagram).contains(a) && path_set(diagram).contains(b) && coterminal(a, b) && 0 <= k
                < diagram.source_elements(a).len() implies #[trigger] diagram.compare(a, b, diagram.source_elements(a)[k]) is Pass by {
            assert(seq_set(ps).contains(a));
            assert(seq_set(ps).contains(b));
            let ia = choose|x: int| 0 <= x < ps.len() && #[trigger] ps[x]@ == a;
            let ib = choose|x: int| 0 <= x < ps.len() && #[trigger] ps[x]@ == b;
            assert(diagram.is_probe(ps, ia, ib, k));
        }
    }
    r
}

impl<V: Element, S, M> Diagram<V, S, M> where S: SetLike<V>, M: Fn(&V) -> Option<V> {
    /// An element that a filter leaves out of a comparison passes it: no
    /// result of a check reports that comparison, neither as a disagreement
    /// nor as a failed property.
    pub proof fn lemma_filtered_element_passes(&self, a: Seq<DiEdge>, b: Seq<DiEdge>, x: V)
        requires
            coterminal(a, b),
            self.filtered_out(a, b, x),
        ensures
            self.compare(a, b, x) is Pass,
            forall|r: Result<CommutativeDiagramResult, CommutativeDiagramError>|
                !#[trigger] self.reports(r, a, b, x),
    {
    }

    /// A generating element of a path's source that passes the source's
    /// filter but fails its property fails each comparison it takes part in
    /// as a failed property: the check never finds that the diagram commutes,
    /// and reports the element's failed property unless an earlier comparison
    /// failed.
    pub proof fn lemma_check_enforced(
        &self,
        ps: Seq<Vec<DiEdge>>,
        r: Result<CommutativeDiagramResult, CommutativeDiagramError>,
        i: int,
        j: int,
        k: int,
    )
        requires
            self.verdict(ps, r),
            self.is_probe(ps, i, j, k),
            self.spec_sets()[ps[i]@[0].from as int].spec_filter(self.source_elements(ps[i]@)[k]),
            !self.spec_sets()[ps[i]@[0].from as int].spec_check(self.source_elements(ps[i]@)[k]),
        ensures
            self.probe(ps, i, j, k) == Comparison::<V>::SourceRejected,
            !(r matches Ok(CommutativeDiagramResult::Commutes)),
            self.passes_before(ps, i, j, k) ==> (r matches Err(
                CommutativeDiagramError::PropertyCheckError(m),
            ) && m@ == source_failure(self.source_elements(ps[i]@)[k].spec_name())),
    {
        if self.passes_before(ps, i, j, k) {
            assert(self.is_first_failure(ps, i, j, k));
            if !(forall|i2: int, j2: int, k2: int| #[trigger] self.is_probe(ps, i2, j2, k2) ==> self.probe(ps, i2, j2, k2) is Pass) {
                let (i2, j2, k2) = choose|i2: int, j2: int, k2: int|
                    #[trigger] self.is_first_failure(ps, i2, j2, k2) && self.reports(
                        r,
                        ps[i2]@,
                        ps[j2]@,
                        self.source_elements(ps[i2]@)[k2],
                    );
                if before(i2, j2, k2, i, j, k) {
                    assert(self.probe(ps, i2, j2, k2) is Pass);
                } else if before(i, j, k, i2, j2, k2) {
                    assert(self.probe(ps, i, j, k) is Pass);
                } else {
                    assert(i2 == i && j2 == j && k2 == k);
                }
            }
        }
    }
}

} // verus!
