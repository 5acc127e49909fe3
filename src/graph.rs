//! The dependency graph: its construction from features and a parent layer,
//! its resolution into an execution order, and the resolved result.
use vstd::prelude::*;

use crate::feature::Feature;
use crate::feature::Requirement;
use crate::item::FileType;
use crate::item::FsEntry;
use crate::item::Group;
use crate::item::Item;
use crate::item::ItemKey;
use crate::item::KeyId;
use crate::item::Layer;
use crate::item::PathItem;
use crate::item::User;
use crate::feature::reqs_match;
use crate::feature::lemma_feature_order;
use crate::feature::same_feature;
use crate::order::acyclic;
use crate::order::has_edge;
use crate::order::is_walk;
use crate::order::lemma_cycle_narrow;
use crate::order::lemma_topo_insert;
use crate::order::lemma_topo_order_acyclic;
use crate::order::lemma_walk_rises;
use crate::order::position;
use crate::order::listed;
use crate::order::lemma_walk_widen;
use crate::order::toposort;
use crate::order::edge_rel;
use crate::order::edges_in_range;
use crate::order::is_topo_order;
use crate::order::on_cycle;
use crate::phase::Phase;
use crate::phase::PHASE_COUNT;
use crate::validator::Validator;

verus! {

/// A vertex of the dependency graph.
#[derive(Debug)]
pub enum Node {
    /// A feature that is to be compiled in this layer.
    PendingFeature(Feature),
    /// An item provided by the parent layer or a feature in this layer.
    Item(Item),
    /// A key that a feature requires but that nothing provides.
    MissingItem(ItemKey),
    /// A feature of a layer in the parent chain.
    ParentFeature(Feature),
    /// Start of a phase of the build.
    PhaseStart(Phase),
    /// End of a phase of the build.
    PhaseEnd(Phase),
}

/// An edge of the dependency graph.
#[derive(Debug, Clone)]
pub enum Edge {
    /// This feature is part of a phase.
    PartOf,
    /// This feature provides an item.
    Provides,
    /// This feature requires an item, which must satisfy the validator.
    Requires(Validator),
    /// Plain ordering.
    After,
}

impl Edge {
    /// A copy equal to this edge.
    pub fn duplicate(&self) -> (r: Edge)
        ensures
            r == *self,
    {
        match self {
            Edge::PartOf => Edge::PartOf,
            Edge::Provides => Edge::Provides,
            Edge::Requires(v) => Edge::Requires(v.duplicate()),
            Edge::After => Edge::After,
        }
    }
}

/// Projects the endpoints of each edge.
pub open spec fn endpoints(es: Seq<(usize, usize, Edge)>) -> Seq<(usize, usize)> {
    es.map_values(|e: (usize, usize, Edge)| (e.0, e.1))
}

/// Whether the key entries are unique and point at nodes in range.
pub open spec fn index_wf(nodes: Seq<Node>, items: Seq<(ItemKey, usize)>) -> bool {
    &&& forall|i: int, j: int|
        0 <= i < j < items.len() ==> (#[trigger] items[i]).0.id() != (#[trigger] items[j]).0.id()
    &&& forall|i: int| 0 <= i < items.len() ==> (#[trigger] items[i]).1 < nodes.len()
}

/// Whether entry `i` is the first one of the index under `id`.
pub open spec fn first_entry(items: Seq<(ItemKey, usize)>, id: KeyId, i: int) -> bool {
    &&& 0 <= i < items.len()
    &&& items[i].0.id() == id
    &&& forall|j: int| 0 <= j < i ==> (#[trigger] items[j]).0.id() != id
}

/// The node that `id` is registered to.
pub open spec fn lookup(items: Seq<(ItemKey, usize)>, id: KeyId) -> Option<usize> {
    if exists|i: int| #[trigger] first_entry(items, id, i) {
        Some(items[choose|i: int| #[trigger] first_entry(items, id, i)].1)
    } else {
        None
    }
}

proof fn lemma_lookup_first(items: Seq<(ItemKey, usize)>, id: KeyId, i: int)
    requires
        first_entry(items, id, i),
    ensures
        lookup(items, id) == Some(items[i].1),
{
    let j = choose|j: int| #[trigger] first_entry(items, id, j);
    if j < i {
        assert(items[j].0.id() != id);
    } else if i < j {
        assert(items[i].0.id() != id);
    }
}

proof fn lemma_first_exists(items: Seq<(ItemKey, usize)>, id: KeyId, j: int)
    requires
        0 <= j < items.len(),
        items[j].0.id() == id,
    ensures
        exists|i: int| #[trigger] first_entry(items, id, i),
    decreases j,
{
    if forall|k: int| 0 <= k < j ==> (#[trigger] items[k]).0.id() != id {
        assert(first_entry(items, id, j));
    } else {
        let k = choose|k: int| 0 <= k < j && (#[trigger] items[k]).0.id() == id;
        lemma_first_exists(items, id, k);
    }
}

proof fn lemma_lookup_push_other(items: Seq<(ItemKey, usize)>, e: (ItemKey, usize), id: KeyId)
    requires
        id != e.0.id(),
    ensures
        lookup(items.push(e), id) == lookup(items, id),
{
    let items2 = items.push(e);
    if exists|i: int| #[trigger] first_entry(items, id, i) {
        let i = choose|i: int| #[trigger] first_entry(items, id, i);
        assert forall|j: int| 0 <= j < i implies (#[trigger] items2[j]).0.id() != id by {
            assert(items2[j] == items[j]);
        }
        assert(first_entry(items2, id, i));
        lemma_lookup_first(items, id, i);
        lemma_lookup_first(items2, id, i);
    } else {
        if exists|i: int| #[trigger] first_entry(items2, id, i) {
            let i = choose|i: int| #[trigger] first_entry(items2, id, i);
            assert(i < items.len());
            assert(items2[i] == items[i]);
            lemma_first_exists(items, id, i);
        }
    }
}

proof fn lemma_lookup_set_other(items: Seq<(ItemKey, usize)>, at: int, e: (ItemKey, usize), id: KeyId)
    requires
        0 <= at < items.len(),
        items[at].0.id() == e.0.id(),
        id != e.0.id(),
    ensures
        lookup(items.update(at, e), id) == lookup(items, id),
{
    let items2 = items.update(at, e);
    assert forall|j: int| 0 <= j < items.len() implies (#[trigger] items2[j]).0.id() == id <==> items[j].0.id()
        == id by {
        if j != at {
            assert(items2[j] == items[j]);
        }
    }
    if exists|i: int| #[trigger] first_entry(items, id, i) {
        let i = choose|i: int| #[trigger] first_entry(items, id, i);
        assert(i != at);
        assert(items2[i] == items[i]);
        assert forall|j: int| 0 <= j < i implies (#[trigger] items2[j]).0.id() != id by {
            assert(items[j].0.id() != id);
        }
        assert(first_entry(items2, id, i));
        lemma_lookup_first(items, id, i);
        lemma_lookup_first(items2, id, i);
    } else {
        if exists|i: int| #[trigger] first_entry(items2, id, i) {
            let i = choose|i: int| #[trigger] first_entry(items2, id, i);
            assert(items[i].0.id() == id);
            lemma_first_exists(items, id, i);
        }
    }
}

proof fn lemma_prefix_index<A>(a: Seq<A>, b: Seq<A>, q: int)
    requires
        a.is_prefix_of(b),
        0 <= q < a.len(),
    ensures
        a[q] == b[q],
{
    assert(a[q] == b.subrange(0, a.len() as int)[q]);
}

proof fn lemma_linked_grow(es: Seq<(usize, usize, Edge)>, es2: Seq<(usize, usize, Edge)>)
    requires
        es.is_prefix_of(es2),
    ensures
        forall|a: int, b: int| linked(es, a, b) ==> #[trigger] linked(es2, a, b),
{
    assert forall|a: int, b: int| linked(es, a, b) implies #[trigger] linked(es2, a, b) by {
        let k = choose|k: int| 0 <= k < es.len() && (#[trigger] es[k]).0 == a && es[k].1 == b;
        assert(es2[k] == es[k]);
    }
}

proof fn lemma_lookup_none(items: Seq<(ItemKey, usize)>, id: KeyId)
    requires
        forall|i: int| 0 <= i < items.len() ==> (#[trigger] items[i]).0.id() != id,
    ensures
        lookup(items, id) is None,
{
    if exists|i: int| #[trigger] first_entry(items, id, i) {
        let j = choose|j: int| #[trigger] first_entry(items, id, j);
        assert(items[j].0.id() != id);
    }
}

/// The position of `key` in the index, if it is there.
fn find_key(items: &Vec<(ItemKey, usize)>, key: &ItemKey) -> (r: Option<usize>)
    ensures
        match r {
            Some(i) => first_entry(items@, key.id(), i as int),
            None => forall|i: int| 0 <= i < items.len() ==> (#[trigger] items@[i]).0.id() != key.id(),
        },
{
    let mut i: usize = 0;
    while i < items.len()
        invariant
            i <= items.len(),
            forall|j: int| 0 <= j < i ==> (#[trigger] items@[j]).0.id() != key.id(),
        decreases items.len() - i,
    {
        if items[i].0.same(key) {
            return Some(i);
        }
        i = i + 1;
    }
    None
}

proof fn lemma_lookup_at(items: Seq<(ItemKey, usize)>, i: int)
    requires
        0 <= i < items.len(),
        forall|a: int, b: int|
            0 <= a < b < items.len() ==> (#[trigger] items[a]).0.id() != (#[trigger] items[b]).0.id(),
    ensures
        lookup(items, items[i].0.id()) == Some(items[i].1),
{
    let id = items[i].0.id();
    assert forall|j: int| 0 <= j < i implies (#[trigger] items[j]).0.id() != id by {
        assert(items[j].0.id() != items[i].0.id());
    }
    lemma_lookup_first(items, id, i);
}

/// Whether some edge from `a` to `b` exists.
pub open spec fn linked(es: Seq<(usize, usize, Edge)>, a: int, b: int) -> bool {
    exists|k: int| 0 <= k < es.len() && (#[trigger] es[k]).0 == a && es[k].1 == b
}

/// Whether the phase sentinels are chained, each start before its end and
/// each end before the next start.
pub open spec fn phases_chained(es: Seq<(usize, usize, Edge)>, phases: Seq<(usize, usize)>) -> bool {
    &&& forall|p: int| 0 <= p < phases.len() ==> linked(es, (#[trigger] phases[p]).0 as int, phases[p].1 as int)
    &&& forall|p: int|
        0 <= p < phases.len() - 1 ==> linked(es, (#[trigger] phases[p]).1 as int, phases[p + 1].0 as int)
}

/// Whether every entry of the key index names an item node with that key.
pub open spec fn index_names_items(nodes: Seq<Node>, items: Seq<(ItemKey, usize)>) -> bool {
    forall|i: int|
        0 <= i < items.len() ==> {
            let x = (#[trigger] items[i]).1 as int;
            &&& 0 <= x < nodes.len()
            &&& nodes[x] is Item
            &&& nodes[x]->Item_0.spec_key().id() == items[i].0.id()
        }
}

/// Collects the features of a layer, the items they provide and require, and
/// what a parent layer left, before they are resolved into a [Graph].
#[derive(Debug)]
pub struct GraphBuilder {
    nodes: Vec<Node>,
    edges: Vec<(usize, usize, Edge)>,
    root: usize,
    pending_features: Vec<usize>,
    requirements: Vec<Vec<Requirement>>,
    items: Vec<(ItemKey, usize)>,
    phases: Vec<(usize, usize)>,
}

impl GraphBuilder {
    pub closed spec fn spec_nodes(&self) -> Seq<Node> {
        self.nodes@
    }

    pub closed spec fn spec_edges(&self) -> Seq<(usize, usize, Edge)> {
        self.edges@
    }

    pub closed spec fn spec_items(&self) -> Seq<(ItemKey, usize)> {
        self.items@
    }

    /// The node of each feature added to this layer, in order of addition.
    pub closed spec fn spec_pending(&self) -> Seq<usize> {
        self.pending_features@
    }

    /// The requirements of each feature added to this layer.
    pub closed spec fn spec_requirements(&self) -> Seq<Seq<Requirement>> {
        self.requirements@.map_values(|v: Vec<Requirement>| v@)
    }

    pub closed spec fn spec_phases(&self) -> Seq<(usize, usize)> {
        self.phases@
    }

    /// The node that the key index maps `id` to.
    pub open spec fn spec_lookup(&self, id: KeyId) -> Option<usize> {
        lookup(self.spec_items(), id)
    }

    pub closed spec fn wf(&self) -> bool {
        let nodes = self.nodes@;
        let n = nodes.len();
        &&& edges_in_range(n, endpoints(self.edges@))
        &&& index_wf(nodes, self.items@)
        &&& index_names_items(nodes, self.items@)
        &&& self.phases@.len() == PHASE_COUNT
        &&& forall|p: int|
            0 <= p < PHASE_COUNT ==> {
                let (s, e) = #[trigger] self.phases@[p];
                &&& s < n
                &&& e < n
                &&& nodes[s as int] == Node::PhaseStart(Phase::spec_from_index(p as nat))
                &&& nodes[e as int] == Node::PhaseEnd(Phase::spec_from_index(p as nat))
            }
        &&& phases_chained(self.edges@, self.phases@)
        &&& self.root == self.phases@[0].0
        &&& self.pending_features@.len() == self.requirements@.len()
        &&& forall|i: int|
            0 <= i < self.pending_features@.len() ==> {
                let x = (#[trigger] self.pending_features@[i]) as int;
                &&& x < n
                &&& nodes[x] is PendingFeature
                &&& nodes[x]->PendingFeature_0.spec_requires() is Some
                &&& reqs_match(
                    self.requirements@[i]@,
                    nodes[x]->PendingFeature_0.spec_requires()->Some_0,
                )
            }
        &&& forall|i: int, j: int|
            0 <= i < j < self.pending_features@.len() ==> self.pending_features@[i]
                < self.pending_features@[j]
        &&& forall|x: int|
            0 <= x < n && (#[trigger] nodes[x]) is PendingFeature ==> exists|i: int|
                0 <= i < self.pending_features@.len() && self.pending_features@[i] == x
        &&& forall|x: int| 0 <= x < n ==> !((#[trigger] nodes[x]) is MissingItem)
    }

    /// Whether an edge marks feature node `f` as a provider of node `x`.
    pub closed spec fn provides_edge(&self, f: int, x: int) -> bool {
        exists|k: int|
            0 <= k < self.edges@.len() && (#[trigger] self.edges@[k]).0 == f && self.edges@[k].1 == x
                && self.edges@[k].2 is Provides
    }

    /// Adds `feature` to this layer: it joins its phase, and the items it
    /// provides are registered. Fails, changing nothing, where the feature
    /// cannot declare what it provides or requires.
    #[verifier::rlimit(100)]
    #[verifier::spinoff_prover]
    pub fn add_feature(&mut self, feature: Feature) -> (r: Result<(), String>)
        requires
            old(self).wf(),
        ensures
            final(self).wf(),
            r is Err <==> (feature.spec_provides() is None || feature.spec_requires() is None),
            r is Err ==> *final(self) == *old(self),
            forall|id: KeyId| old(self).spec_lookup(id) is Some ==> (#[trigger] final(self).spec_lookup(id)) is Some,
            r is Ok ==> {
                let fx = old(self).spec_nodes().len() as int;
                let provided = feature.spec_provides()->Some_0;
                &&& old(self).spec_nodes().is_prefix_of(final(self).spec_nodes())
                &&& old(self).spec_edges().is_prefix_of(final(self).spec_edges())
                &&& final(self).spec_nodes()[fx] == Node::PendingFeature(feature)
                &&& final(self).spec_pending() == old(self).spec_pending().push(fx as usize)
                &&& final(self).spec_phases() == old(self).spec_phases()
                &&& final(self).spec_edges()[old(self).spec_edges().len() as int] == (
                    old(self).spec_phases()[feature.spec_phase().spec_index() as int].0,
                    fx as usize,
                    Edge::PartOf,
                )
                &&& final(self).spec_edges()[old(self).spec_edges().len() as int + 1] == (
                    fx as usize,
                    old(self).spec_phases()[feature.spec_phase().spec_index() as int].1,
                    Edge::After,
                )
                &&& forall|t: int|
                    0 <= t < provided.len() ==> exists|x: int|
                        #[trigger] final(self).provides_edge(fx, x) && 0 <= x < final(self).spec_nodes().len()
                            && final(self).spec_nodes()[x] is Item
                            && final(self).spec_nodes()[x]->Item_0.spec_key().id() == (#[trigger] provided[t]).spec_key().id()
                &&& forall|id: KeyId|
                    (forall|t: int| 0 <= t < provided.len() ==> (#[trigger] provided[t]).spec_key().id() != id)
                        ==> #[trigger] final(self).spec_lookup(id) == old(self).spec_lookup(id)
                &&& forall|t: int|
                    0 <= t < provided.len() && (forall|u: int| t < u < provided.len() ==> (#[trigger] provided[u]).spec_key().id()
                        != provided[t].spec_key().id()) ==> {
                        let k = (#[trigger] provided[t]).spec_key().id();
                        &&& final(self).spec_lookup(k) is Some
                        &&& final(self).provides_edge(fx, final(self).spec_lookup(k)->Some_0 as int)
                    }
                &&& forall|k: int|
                    old(self).spec_edges().len() <= k < final(self).spec_edges().len() && (#[trigger] final(self).spec_edges()[k]).2 is Requires
                        ==> final(self).spec_edges()[k].2 == Edge::Requires(Validator::Exists)
                        && final(self).spec_nodes()[final(self).spec_edges()[k].1 as int] is Item
                        && final(self).spec_nodes()[final(self).spec_edges()[k].1 as int]->Item_0.spec_is_undo()
                &&& (forall|t: int| 0 <= t < provided.len() ==> !(#[trigger] provided[t]).spec_is_undo())
                    ==> forall|t: int|
                    0 <= t < provided.len() && old(self).spec_lookup((#[trigger] provided[t]).spec_key().id()) is Some
                        ==> final(self).provides_edge(
                        fx,
                        old(self).spec_lookup(provided[t].spec_key().id())->Some_0 as int,
                    )
            },
    {
        let mut provided = match feature.provides() {
            Ok(v) => v,
            Err(e) => {
                return Err(e);
            },
        };
        let reqs = match feature.requirements() {
            Ok(v) => v,
            Err(e) => {
                return Err(e);
            },
        };
        let ghost all = provided@;
        let phase = feature.phase();
        let fx = self.nodes.len();
        self.nodes.push(Node::PendingFeature(feature));
        self.pending_features.push(fx);
        self.requirements.push(reqs);
        let (ps, pe) = self.phases[phase.index()];
        self.edges.push((ps, fx, Edge::PartOf));
        self.edges.push((fx, pe, Edge::After));
        proof {
            let b0 = *old(self);
            assert(endpoints(self.edges@) =~= endpoints(b0.edges@).push((ps, fx)).push((fx, pe)));
            lemma_linked_grow(b0.edges@, self.edges@);
            assert(self.requirements@.map_values(|v: Vec<Requirement>| v@) =~= b0.requirements@.map_values(
                |v: Vec<Requirement>| v@,
            ).push(reqs@));
            assert forall|x: int|
                0 <= x < self.nodes@.len() && (#[trigger] self.nodes@[x]) is PendingFeature implies exists|i: int|
                    0 <= i < self.pending_features@.len() && self.pending_features@[i] == x by {
                if x < fx {
                    assert(b0.nodes@[x] == self.nodes@[x]);
                    let i = choose|i: int| 0 <= i < b0.pending_features@.len() && b0.pending_features@[i] == x;
                    assert(self.pending_features@[i] == x);
                } else {
                    assert(self.pending_features@[b0.pending_features@.len() as int] == x);
                }
            }
            assert forall|i: int| 0 <= i < self.pending_features@.len() implies {
                let x = (#[trigger] self.pending_features@[i]) as int;
                &&& x < self.nodes@.len()
                &&& self.nodes@[x] is PendingFeature
                &&& self.nodes@[x]->PendingFeature_0.spec_requires() is Some
                &&& reqs_match(self.requirements@[i]@, self.nodes@[x]->PendingFeature_0.spec_requires()->Some_0)
            } by {
                if i < b0.pending_features@.len() {
                    assert(self.pending_features@[i] == b0.pending_features@[i]);
                    assert(self.nodes@[self.pending_features@[i] as int] == b0.nodes@[b0.pending_features@[i] as int]);
                    assert(self.requirements@[i] == b0.requirements@[i]);
                }
            }
            assert(self.items@ == b0.items@);
        }
        let ghost mut t: int = 0;
        while provided.len() > 0
            invariant
                self.wf(),
                0 <= t, t + provided@.len() == all.len(),
                provided@ == all.subrange(t, all.len() as int),
                fx < self.nodes@.len(),
                self.nodes@[fx as int] == Node::PendingFeature(feature),
                self.pending_features@ == old(self).pending_features@.push(fx),
                old(self).nodes@.is_prefix_of(self.nodes@),
                old(self).edges@.is_prefix_of(self.edges@),
                self.phases@ == old(self).phases@,
                self.edges@.len() >= old(self).edges@.len() + 2,
                self.edges@[old(self).edges@.len() as int] == (ps, fx, Edge::PartOf),
                self.edges@[old(self).edges@.len() as int + 1] == (fx, pe, Edge::After),
                (ps, pe) == old(self).phases@[feature.spec_phase().spec_index() as int],
                forall|u: int|
                    0 <= u < t ==> exists|x: int|
                        #[trigger] self.provides_edge(fx as int, x) && 0 <= x < self.nodes@.len()
                            && self.nodes@[x] is Item
                            && self.nodes@[x]->Item_0.spec_key().id() == (#[trigger] all[u]).spec_key().id(),
                (forall|u: int| 0 <= u < all.len() ==> !(#[trigger] all[u]).spec_is_undo()) ==> forall|id: KeyId|
                    old(self).spec_lookup(id) is Some ==> #[trigger] self.spec_lookup(id) == old(self).spec_lookup(id),
                forall|id: KeyId| old(self).spec_lookup(id) is Some ==> (#[trigger] self.spec_lookup(id)) is Some,
                (forall|u: int| 0 <= u < all.len() ==> !(#[trigger] all[u]).spec_is_undo()) ==> forall|u: int|
                    0 <= u < t && old(self).spec_lookup((#[trigger] all[u]).spec_key().id()) is Some
                        ==> self.provides_edge(fx as int, old(self).spec_lookup(all[u].spec_key().id())->Some_0 as int),
                forall|id: KeyId|
                    (forall|u: int| 0 <= u < t ==> (#[trigger] all[u]).spec_key().id() != id)
                        ==> #[trigger] self.spec_lookup(id) == old(self).spec_lookup(id),
                forall|u: int|
                    0 <= u < t && (forall|v: int| u < v < t ==> (#[trigger] all[v]).spec_key().id() != all[u].spec_key().id()) ==> {
                        let k = (#[trigger] all[u]).spec_key().id();
                        &&& self.spec_lookup(k) is Some
                        &&& self.provides_edge(fx as int, self.spec_lookup(k)->Some_0 as int)
                    },
                forall|k: int|
                    old(self).edges@.len() <= k < self.edges@.len() && (#[trigger] self.edges@[k]).2 is Requires
                        ==> self.edges@[k].2 == Edge::Requires(Validator::Exists)
                        && self.nodes@[self.edges@[k].1 as int] is Item
                        && self.nodes@[self.edges@[k].1 as int]->Item_0.spec_is_undo(),
            decreases provided.len(),
        {
            let item = provided.remove(0);
            let ghost before = *self;
            let nx = self.add_item(item);
            let ghost mid = *self;
            let ghost k = self.edges@.len();
            self.edges.push((fx, nx, Edge::Provides));
            proof {
                assert(item == all[t]);
                assert(endpoints(self.edges@) =~= endpoints(mid.edges@).push((fx, nx)));
                lemma_linked_grow(mid.edges@, self.edges@);
                assert(self.edges@[k as int] == (fx, nx, Edge::Provides));
                assert(self.provides_edge(fx as int, nx as int));
                assert forall|x: int| #[trigger] mid.provides_edge(fx as int, x) implies self.provides_edge(fx as int, x) by {
                    let k2 = choose|k2: int| 0 <= k2 < mid.edges@.len() && (#[trigger] mid.edges@[k2]).0 == fx && mid.edges@[k2].1 == x && mid.edges@[k2].2 is Provides;
                    assert(self.edges@[k2] == mid.edges@[k2]);
                }
                assert forall|x: int| #[trigger] before.provides_edge(fx as int, x) implies self.provides_edge(fx as int, x) by {
                    let k2 = choose|k2: int| 0 <= k2 < before.edges@.len() && (#[trigger] before.edges@[k2]).0 == fx && before.edges@[k2].1 == x && before.edges@[k2].2 is Provides;
                    assert(mid.edges@[k2] == before.edges@[k2]);
                    assert(self.edges@[k2] == before.edges@[k2]);
                }
                assert forall|u: int| 0 <= u < t + 1 implies exists|x: int|
                        #[trigger] self.provides_edge(fx as int, x) && 0 <= x < self.nodes@.len()
                            && self.nodes@[x] is Item
                            && self.nodes@[x]->Item_0.spec_key().id() == (#[trigger] all[u]).spec_key().id() by {
                    if u < t {
                        let x = choose|x: int| #[trigger] before.provides_edge(fx as int, x) && 0 <= x < before.nodes@.len()
                            && before.nodes@[x] is Item
                            && before.nodes@[x]->Item_0.spec_key().id() == all[u].spec_key().id();
                        assert(self.nodes@[x] == before.nodes@[x]);
                    } else {
                        assert(self.provides_edge(fx as int, nx as int));
                    }
                }
                assert(provided@ =~= all.subrange(t + 1, all.len() as int));
                lemma_prefix_index(before.edges@, self.edges@, old(self).edges@.len() as int);
                lemma_prefix_index(before.edges@, self.edges@, old(self).edges@.len() as int + 1);
                assert forall|id: KeyId|
                    (forall|u: int| 0 <= u < t + 1 ==> (#[trigger] all[u]).spec_key().id() != id)
                        implies #[trigger] self.spec_lookup(id) == old(self).spec_lookup(id) by {
                    assert(all[t].spec_key().id() != id);
                    assert(self.items@ == mid.items@);
                    assert(mid.spec_lookup(id) == before.spec_lookup(id));
                }
                assert forall|u: int|
                    0 <= u < t + 1 && (forall|v: int| u < v < t + 1 ==> (#[trigger] all[v]).spec_key().id() != all[u].spec_key().id()) implies {
                        let k = (#[trigger] all[u]).spec_key().id();
                        &&& self.spec_lookup(k) is Some
                        &&& self.provides_edge(fx as int, self.spec_lookup(k)->Some_0 as int)
                    } by {
                    assert(self.items@ == mid.items@);
                    if u < t {
                        assert(all[t].spec_key().id() != all[u].spec_key().id());
                        assert(mid.spec_lookup(all[u].spec_key().id()) == before.spec_lookup(all[u].spec_key().id()));
                        assert(before.provides_edge(fx as int, before.spec_lookup(all[u].spec_key().id())->Some_0 as int));
                    } else {
                        assert(mid.spec_lookup(item.spec_key().id()) == Some(nx));
                    }
                }
                assert forall|k: int|
                    old(self).edges@.len() <= k < self.edges@.len() && (#[trigger] self.edges@[k]).2 is Requires
                        implies self.edges@[k].2 == Edge::Requires(Validator::Exists)
                        && self.nodes@[self.edges@[k].1 as int] is Item
                        && self.nodes@[self.edges@[k].1 as int]->Item_0.spec_is_undo() by {
                    if k < before.edges@.len() {
                        lemma_prefix_index(before.edges@, self.edges@, k);
                        assert(endpoints(before.edges@)[k].1 < before.nodes@.len());
                        lemma_prefix_index(before.nodes@, self.nodes@, before.edges@[k].1 as int);
                    } else if k < mid.edges@.len() {
                        assert(self.edges@[k] == mid.edges@[k]);
                    }
                }
                assert forall|id: KeyId| old(self).spec_lookup(id) is Some implies (#[trigger] self.spec_lookup(id)) is Some by {
                    assert(before.spec_lookup(id) is Some);
                    assert(self.items@ == mid.items@);
                    if id != item.spec_key().id() {
                        assert(mid.spec_lookup(id) == before.spec_lookup(id));
                    }
                }
                if forall|u: int| 0 <= u < all.len() ==> !(#[trigger] all[u]).spec_is_undo() {
                    assert(!all[t].spec_is_undo());
                    assert forall|u: int|
                        0 <= u < t + 1 && old(self).spec_lookup((#[trigger] all[u]).spec_key().id()) is Some
                            implies self.provides_edge(fx as int, old(self).spec_lookup(all[u].spec_key().id())->Some_0 as int) by {
                        if u == t {
                            assert(before.spec_lookup(item.spec_key().id()) == old(self).spec_lookup(item.spec_key().id()));
                        }
                    }
                    assert forall|id: KeyId| old(self).spec_lookup(id) is Some implies #[trigger] self.spec_lookup(id) == old(self).spec_lookup(id) by {
                        assert(before.spec_lookup(id) == old(self).spec_lookup(id));
                        assert(self.items@ == mid.items@);
                        if id == item.spec_key().id() {
                            assert(mid.spec_lookup(id) == Some(nx));
                        } else {
                            assert(mid.spec_lookup(id) == before.spec_lookup(id));
                        }
                    }
                }
            }
            proof {
                t = t + 1;
            }
        }
        Ok(())
    }

    /// Registers `item`, or finds the node already registered under its key.
    /// An item that undoes an earlier one gets a node of its own, ordered
    /// after the earlier one, and takes over the key.
    fn add_item(&mut self, item: Item) -> (nx: usize)
        requires
            old(self).wf(),
        ensures
            final(self).wf(),
            nx < final(self).spec_nodes().len(),
            final(self).spec_lookup(item.spec_key().id()) == Some(nx),
            final(self).spec_nodes()[nx as int] is Item,
            final(self).spec_nodes()[nx as int]->Item_0.spec_key().id() == item.spec_key().id(),
            final(self).spec_pending() == old(self).spec_pending(),
            final(self).spec_requirements() == old(self).spec_requirements(),
            final(self).spec_phases() == old(self).spec_phases(),
            old(self).spec_nodes().is_prefix_of(final(self).spec_nodes()),
            old(self).spec_edges().is_prefix_of(final(self).spec_edges()),
            forall|id: KeyId|
                id != item.spec_key().id() ==> #[trigger] final(self).spec_lookup(id)
                    == old(self).spec_lookup(id),
            old(self).spec_lookup(item.spec_key().id()) is Some && !item.spec_is_undo() ==> {
                &&& nx == old(self).spec_lookup(item.spec_key().id())->Some_0
                &&& *final(self) == *old(self)
            },
            old(self).spec_lookup(item.spec_key().id()) is None || item.spec_is_undo() ==> {
                &&& nx == old(self).spec_nodes().len()
                &&& final(self).spec_nodes() == old(self).spec_nodes().push(Node::Item(item))
            },
            old(self).spec_lookup(item.spec_key().id()) is None ==> final(self).spec_edges()
                == old(self).spec_edges(),
            old(self).spec_lookup(item.spec_key().id()) is Some && item.spec_is_undo()
                ==> final(self).spec_edges() == old(self).spec_edges().push(
                (
                    old(self).spec_lookup(item.spec_key().id())->Some_0,
                    nx,
                    Edge::Requires(Validator::Exists),
                ),
            ),
    {
        let key = item.key();
        let ghost id = key.id();
        match find_key(&self.items, &key) {
            Some(i) => {
                proof {
                    lemma_lookup_first(self.items@, id, i as int);
                }
                if item.is_undo() {
                    let old_x = self.items[i].1;
                    let nx = self.nodes.len();
                    self.nodes.push(Node::Item(item));
                    self.edges.push((old_x, nx, Edge::Requires(Validator::Exists)));
                    self.items.set(i, (key, nx));
                    proof {
                        let items0 = old(self).items@;
                        assert(self.items@ =~= items0.update(i as int, (key, nx)));
                        assert(endpoints(self.edges@) =~= endpoints(old(self).edges@).push((old_x, nx)));
                        lemma_linked_grow(old(self).edges@, self.edges@);
                        assert forall|id2: KeyId| id2 != id implies #[trigger] lookup(self.items@, id2)
                            == lookup(items0, id2) by {
                            lemma_lookup_set_other(items0, i as int, (key, nx), id2);
                        }
                        lemma_lookup_at(self.items@, i as int);
                        assert(self.pending_features@ == old(self).pending_features@);
                        assert forall|x: int|
                            0 <= x < self.nodes@.len() && (#[trigger] self.nodes@[x]) is PendingFeature implies exists|i: int|
                                0 <= i < self.pending_features@.len() && self.pending_features@[i] == x by {
                            assert(x < old(self).nodes@.len());
                            assert(old(self).nodes@[x] == self.nodes@[x]);
                        }
                    }
                    nx
                } else {
                    self.items[i].1
                }
            },
            None => {
                proof {
                    lemma_lookup_none(self.items@, id);
                }
                let nx = self.nodes.len();
                self.nodes.push(Node::Item(item));
                self.items.push((key, nx));
                proof {
                    let items0 = old(self).items@;
                    assert(self.edges@ == old(self).edges@);
                    assert forall|id2: KeyId| id2 != id implies #[trigger] lookup(self.items@, id2)
                        == lookup(items0, id2) by {
                        lemma_lookup_push_other(items0, (key, nx), id2);
                    }
                    assert forall|j: int| 0 <= j < items0.len() implies (#[trigger] self.items@[j]).0.id()
                        != self.items@[items0.len() as int].0.id() by {
                        assert(self.items@[j] == items0[j]);
                    }
                    lemma_lookup_at(self.items@, items0.len() as int);
                    assert forall|x: int|
                        0 <= x < self.nodes@.len() && (#[trigger] self.nodes@[x]) is PendingFeature implies exists|i: int|
                            0 <= i < self.pending_features@.len() && self.pending_features@[i] == x by {
                        assert(x < old(self).nodes@.len());
                        assert(old(self).nodes@[x] == self.nodes@[x]);
                    }
                }
                nx
            },
        }
    }
}

impl GraphBuilder {
    /// Whether this is the builder every layer starts from: the start and end
    /// of each phase, chained in order, and exactly three items, the `root`
    /// user, the `root` group and the `/` directory with mode `0o755`, with
    /// no feature.
    pub open spec fn is_seeded(&self) -> bool {
        let nodes = self.spec_nodes();
        let root = seq!['r', 'o', 'o', 't'];
        &&& nodes.len() == 11
        &&& nodes[0] == Node::PhaseStart(Phase::Init)
        &&& nodes[1] == Node::PhaseEnd(Phase::Init)
        &&& nodes[2] == Node::PhaseStart(Phase::OsPackage)
        &&& nodes[3] == Node::PhaseEnd(Phase::OsPackage)
        &&& nodes[4] == Node::PhaseStart(Phase::Compile)
        &&& nodes[5] == Node::PhaseEnd(Phase::Compile)
        &&& nodes[6] == Node::PhaseStart(Phase::End)
        &&& nodes[7] == Node::PhaseEnd(Phase::End)
        &&& nodes[8] matches Node::Item(Item::User(u)) && u.name@ == root
        &&& nodes[9] matches Node::Item(Item::Group(g)) && g.name@ == root
        &&& nodes[10] matches Node::Item(Item::Path(PathItem::Entry(e))) && e.path@ == seq!['/']
            && e.file_type == FileType::Directory && e.mode == 0o755
        &&& self.spec_phases() == seq![(0usize, 1usize), (2usize, 3usize), (4usize, 5usize), (6usize, 7usize)]
        &&& self.spec_edges() == seq![
            (0usize, 1usize, Edge::After),
            (1usize, 2usize, Edge::After),
            (2usize, 3usize, Edge::After),
            (3usize, 4usize, Edge::After),
            (4usize, 5usize, Edge::After),
            (5usize, 6usize, Edge::After),
            (6usize, 7usize, Edge::After),
        ]
        &&& self.spec_pending().len() == 0
        &&& self.spec_lookup((1int, root)) == Some(8usize)
        &&& self.spec_lookup((2int, root)) == Some(9usize)
        &&& self.spec_lookup((0int, seq!['/'])) == Some(10usize)
        &&& forall|id: KeyId|
            #[trigger] self.spec_lookup(id) is Some ==> id == (0int, seq!['/']) || id == (1int, root) || id == (
                2int,
                root,
            )
    }
}

impl Default for GraphBuilder {
    /// A builder with the phase sentinels chained in order and the items
    /// that every operating system has: the `root` user and group and the
    /// `/` directory.
    fn default() -> (r: GraphBuilder)
        ensures
            r.wf(),
            r.is_seeded(),
    {
        let nodes = vec![
            Node::PhaseStart(Phase::Init),
            Node::PhaseEnd(Phase::Init),
            Node::PhaseStart(Phase::OsPackage),
            Node::PhaseEnd(Phase::OsPackage),
            Node::PhaseStart(Phase::Compile),
            Node::PhaseEnd(Phase::Compile),
            Node::PhaseStart(Phase::End),
            Node::PhaseEnd(Phase::End),
            Node::Item(Item::User(User { name: "root".to_owned() })),
            Node::Item(Item::Group(Group { name: "root".to_owned() })),
            Node::Item(
                Item::Path(
                    PathItem::Entry(
                        FsEntry { path: "/".to_owned(), file_type: FileType::Directory, mode: 0o755 },
                    ),
                ),
            ),
        ];
        let edges = vec![
            (0, 1, Edge::After),
            (1, 2, Edge::After),
            (2, 3, Edge::After),
            (3, 4, Edge::After),
            (4, 5, Edge::After),
            (5, 6, Edge::After),
            (6, 7, Edge::After),
        ];
        let phases: Vec<(usize, usize)> = vec![(0, 1), (2, 3), (4, 5), (6, 7)];
        let items = vec![
            (ItemKey::User("root".to_owned()), 8),
            (ItemKey::Group("root".to_owned()), 9),
            (ItemKey::Path("/".to_owned()), 10),
        ];
        let r = GraphBuilder {
            nodes,
            edges,
            root: 0,
            pending_features: Vec::new(),
            requirements: Vec::new(),
            items,
            phases,
        };
        proof {
            reveal_strlit("root");
            reveal_strlit("/");
            assert(linked(r.edges@, 0, 1));
            assert(linked(r.edges@, 1, 2));
            assert(linked(r.edges@, 2, 3));
            assert(linked(r.edges@, 3, 4));
            assert(linked(r.edges@, 4, 5));
            assert(linked(r.edges@, 5, 6));
            assert(linked(r.edges@, 6, 7));
            lemma_lookup_at(r.items@, 0);
            lemma_lookup_at(r.items@, 1);
            lemma_lookup_at(r.items@, 2);
            assert(r.items@[0].0.id() == (1int, seq!['r', 'o', 'o', 't']));
            assert(r.items@[1].0.id() == (2int, seq!['r', 'o', 'o', 't']));
            assert(r.items@[2].0.id() == (0int, seq!['/']));
            assert("root"@ =~= seq!['r', 'o', 'o', 't']);
            assert("/"@ =~= seq!['/']);
            assert forall|id: KeyId| #[trigger] r.spec_lookup(id) is Some implies id == (0int, seq!['/']) || id == (
                1int,
                seq!['r', 'o', 'o', 't'],
            ) || id == (2int, seq!['r', 'o', 'o', 't']) by {
                let i = choose|i: int| #[trigger] first_entry(r.items@, id, i);
            }
            assert(r.edges@ =~= seq![
                (0usize, 1usize, Edge::After),
                (1usize, 2usize, Edge::After),
                (2usize, 3usize, Edge::After),
                (3usize, 4usize, Edge::After),
                (4usize, 5usize, Edge::After),
                (5usize, 6usize, Edge::After),
                (6usize, 7usize, Edge::After),
            ]);
            assert(r.phases@ =~= seq![(0usize, 1usize), (2usize, 3usize), (4usize, 5usize), (6usize, 7usize)]);
        }
        r
    }
}

impl GraphBuilder {
    fn push_edge(&mut self, a: usize, b: usize, w: Edge)
        requires
            old(self).wf(),
            a < old(self).spec_nodes().len(),
            b < old(self).spec_nodes().len(),
        ensures
            final(self).wf(),
            final(self).spec_nodes() == old(self).spec_nodes(),
            final(self).spec_items() == old(self).spec_items(),
            final(self).spec_pending() == old(self).spec_pending(),
            final(self).spec_edges() == old(self).spec_edges().push((a, b, w)),
    {
        self.edges.push((a, b, w));
        proof {
            assert(endpoints(self.edges@) =~= endpoints(old(self).edges@).push((a, b)));
            lemma_linked_grow(old(self).edges@, self.edges@);
        }
    }

    fn push_parent_feature(&mut self, f: Feature) -> (x: usize)
        requires
            old(self).wf(),
        ensures
            final(self).wf(),
            x == old(self).spec_nodes().len(),
            final(self).spec_nodes() == old(self).spec_nodes().push(Node::ParentFeature(f)),
            final(self).spec_items() == old(self).spec_items(),
            final(self).spec_pending() == old(self).spec_pending(),
            final(self).spec_edges() == old(self).spec_edges(),
    {
        let x = self.nodes.len();
        self.nodes.push(Node::ParentFeature(f));
        proof {
            assert forall|y: int|
                0 <= y < self.nodes@.len() && (#[trigger] self.nodes@[y]) is PendingFeature implies exists|i: int|
                    0 <= i < self.pending_features@.len() && self.pending_features@[i] == y by {
                assert(y < x);
                assert(old(self).nodes@[y] == self.nodes@[y]);
                assert(old(self).nodes@[y] is PendingFeature);
                let i = choose|i: int| 0 <= i < old(self).pending_features@.len() && old(self).pending_features@[i] == y;
                assert(self.pending_features@[i] == y);
            }
        }
        x
    }

    /// Copies what a resolved parent layer holds: its items, looked up as
    /// this layer's own, and its features, which are not compiled again;
    /// edges between copied nodes are kept.
    fn inherit(&mut self, parent: Graph)
        requires
            old(self).wf(),
            parent.wf(),
        ensures
            final(self).wf(),
            final(self).spec_pending() == old(self).spec_pending(),
            forall|id: KeyId| old(self).spec_lookup(id) is Some ==> (#[trigger] final(self).spec_lookup(id)) is Some,
            forall|x: int|
                0 <= x < parent.spec_nodes().len() && (#[trigger] parent.spec_nodes()[x]) is Item
                    ==> final(self).spec_lookup(parent.spec_nodes()[x]->Item_0.spec_key().id()) is Some,
            old(self).spec_nodes().is_prefix_of(final(self).spec_nodes()),
            forall|y: int|
                old(self).spec_nodes().len() <= y < final(self).spec_nodes().len() ==> (#[trigger] final(self).spec_nodes()[y]) is ParentFeature
                    || final(self).spec_nodes()[y] is Item,
            forall|x: int|
                0 <= x < parent.spec_nodes().len() && is_feature_node(#[trigger] parent.spec_nodes()[x]) ==> exists|y: int|
                    0 <= y < final(self).spec_nodes().len() && final(self).spec_nodes()[y] == Node::ParentFeature(
                        feature_of(parent.spec_nodes()[x]),
                    ),
    {
        let ghost orig = parent.spec_nodes();
        let Graph { nodes: mut pnodes, edges: pedges, .. } = parent;
        let mut map: Vec<Option<usize>> = Vec::new();
        while pnodes.len() > 0
            invariant
                self.wf(),
                self.spec_pending() == old(self).spec_pending(),
                map@.len() + pnodes@.len() == orig.len(),
                pnodes@ == orig.subrange(map@.len() as int, orig.len() as int),
                forall|j: int| 0 <= j < map@.len() && (#[trigger] map@[j]) is Some ==> map@[j]->Some_0 < self.spec_nodes().len(),
                forall|id: KeyId| old(self).spec_lookup(id) is Some ==> (#[trigger] self.spec_lookup(id)) is Some,
                forall|j: int|
                    0 <= j < map@.len() && (#[trigger] orig[j]) is Item ==> self.spec_lookup(orig[j]->Item_0.spec_key().id()) is Some,
                old(self).spec_nodes().is_prefix_of(self.spec_nodes()),
                forall|y: int|
                    old(self).spec_nodes().len() <= y < self.spec_nodes().len() ==> (#[trigger] self.spec_nodes()[y]) is ParentFeature
                        || self.spec_nodes()[y] is Item,
                forall|j: int|
                    0 <= j < map@.len() && is_feature_node(#[trigger] orig[j]) ==> map@[j] is Some && map@[j]->Some_0
                        < self.spec_nodes().len() && self.spec_nodes()[map@[j]->Some_0 as int] == Node::ParentFeature(feature_of(orig[j])),
            decreases pnodes@.len(),
        {
            let ghost before = *self;
            let ghost map0 = map@;
            let node = pnodes.remove(0);
            let ghost j = map@.len() as int;
            proof {
                assert(node == orig[j]);
            }
            let m = match node {
                Node::Item(i) => Some(self.add_item(i)),
                Node::PendingFeature(f) => Some(self.push_parent_feature(f)),
                Node::ParentFeature(f) => Some(self.push_parent_feature(f)),
                _ => None,
            };
            map.push(m);
            proof {
                assert(pnodes@ =~= orig.subrange(map@.len() as int, orig.len() as int));
                assert forall|id: KeyId| before.spec_lookup(id) is Some implies (#[trigger] self.spec_lookup(id)) is Some by {
                    if orig[j] is Item && id == orig[j]->Item_0.spec_key().id() {
                    } else {
                        assert(self.spec_lookup(id) == before.spec_lookup(id));
                    }
                }
                assert forall|i: int|
                    0 <= i < map@.len() && (#[trigger] orig[i]) is Item implies self.spec_lookup(orig[i]->Item_0.spec_key().id()) is Some by {
                    if i < j {
                        assert(before.spec_lookup(orig[i]->Item_0.spec_key().id()) is Some);
                    }
                }
                lemma_prefix_trans(old(self).spec_nodes(), before.spec_nodes(), self.spec_nodes());
                assert forall|y: int|
                    old(self).spec_nodes().len() <= y < self.spec_nodes().len() implies (#[trigger] self.spec_nodes()[y]) is ParentFeature
                        || self.spec_nodes()[y] is Item by {
                    if y < before.spec_nodes().len() {
                        lemma_prefix_index(before.spec_nodes(), self.spec_nodes(), y);
                    }
                }
                assert forall|i: int|
                    0 <= i < map@.len() && is_feature_node(#[trigger] orig[i]) implies map@[i] is Some && map@[i]->Some_0
                        < self.spec_nodes().len() && self.spec_nodes()[map@[i]->Some_0 as int] == Node::ParentFeature(feature_of(orig[i])) by {
                    if i < j {
                        assert(map@[i] == map0[i]);
                        lemma_prefix_index(before.spec_nodes(), self.spec_nodes(), map0[i]->Some_0 as int);
                    }
                }
                assert forall|i: int| 0 <= i < map@.len() && (#[trigger] map@[i]) is Some implies map@[i]->Some_0 < self.spec_nodes().len() by {
                    if i < j {
                        assert(map@[i] == map0[i]);
                    }
                }
            }
        }
        let mut k: usize = 0;
        while k < pedges.len()
            invariant
                self.wf(),
                self.spec_pending() == old(self).spec_pending(),
                old(self).spec_nodes().is_prefix_of(self.spec_nodes()),
                forall|y: int|
                    old(self).spec_nodes().len() <= y < self.spec_nodes().len() ==> (#[trigger] self.spec_nodes()[y]) is ParentFeature
                        || self.spec_nodes()[y] is Item,
                forall|j: int|
                    0 <= j < map@.len() && is_feature_node(#[trigger] orig[j]) ==> map@[j] is Some && map@[j]->Some_0
                        < self.spec_nodes().len() && self.spec_nodes()[map@[j]->Some_0 as int] == Node::ParentFeature(feature_of(orig[j])),
                map@.len() == orig.len(),
                edges_in_range(orig.len(), endpoints(pedges@)),
                forall|j: int| 0 <= j < map@.len() && (#[trigger] map@[j]) is Some ==> map@[j]->Some_0 < self.spec_nodes().len(),
                forall|id: KeyId| old(self).spec_lookup(id) is Some ==> (#[trigger] self.spec_lookup(id)) is Some,
                forall|j: int|
                    0 <= j < map@.len() && (#[trigger] orig[j]) is Item ==> self.spec_lookup(orig[j]->Item_0.spec_key().id()) is Some,
            decreases pedges.len() - k,
        {
            let (a, b, w) = &pedges[k];
            let ghost before = *self;
            proof {
                assert(endpoints(pedges@)[k as int] == (*a, *b));
            }
            match (map[*a], map[*b]) {
                (Some(x), Some(y)) => {
                    self.push_edge(x, y, w.duplicate());
                },
                _ => {},
            }
            proof {
                assert forall|id: KeyId| #[trigger] self.spec_lookup(id) == before.spec_lookup(id) by {
                    assert(self.spec_items() == before.spec_items());
                }
            }
            k = k + 1;
        }
    }

    /// The nodes collected so far, by index.
    pub fn nodes(&self) -> (r: &Vec<Node>)
        ensures
            r@ == self.spec_nodes(),
    {
        &self.nodes
    }

    /// The edges collected so far, as source, target and kind.
    pub fn edges(&self) -> (r: &Vec<(usize, usize, Edge)>)
        ensures
            r@ == self.spec_edges(),
    {
        &self.edges
    }

    /// Makes another, already resolved, layer available to the validators
    /// of this layer's requirements, under its label.
    pub fn add_layer_dependency(&mut self, label: String, graph: Graph)
        requires
            old(self).wf(),
        ensures
            final(self).wf(),
            final(self).spec_pending() == old(self).spec_pending(),
            final(self).spec_lookup((3int, label@)) is Some,
            forall|id: KeyId| id != (3int, label@) ==> #[trigger] final(self).spec_lookup(id) == old(self).spec_lookup(id),
            old(self).spec_lookup((3int, label@)) is Some ==> *final(self) == *old(self),
            old(self).spec_lookup((3int, label@)) is None ==> {
                &&& final(self).spec_nodes() == old(self).spec_nodes().push(Node::Item(Item::Layer(Layer { label, graph })))
                &&& final(self).spec_edges() == old(self).spec_edges()
                &&& final(self).spec_lookup((3int, label@)) == Some(old(self).spec_nodes().len() as usize)
            },
    {
        self.add_item(Item::Layer(Layer { label, graph }));
    }

    /// A builder for a layer on top of `parent`, or for a first layer.
    pub fn new(parent: Option<Graph>) -> (r: GraphBuilder)
        requires
            parent is Some ==> parent->Some_0.wf(),
        ensures
            r.wf(),
            r.spec_pending().len() == 0,
            r.spec_lookup((0int, seq!['/'])) is Some,
            r.spec_lookup((1int, seq!['r', 'o', 'o', 't'])) is Some,
            r.spec_lookup((2int, seq!['r', 'o', 'o', 't'])) is Some,
            parent is None ==> r.is_seeded(),
            forall|y: int| 0 <= y < r.spec_nodes().len() ==> !((#[trigger] r.spec_nodes()[y]) is PendingFeature),
            parent is Some ==> forall|y: int|
                11 <= y < r.spec_nodes().len() ==> (#[trigger] r.spec_nodes()[y]) is ParentFeature || r.spec_nodes()[y] is Item,
            parent is Some ==> forall|x: int|
                0 <= x < parent->Some_0.spec_nodes().len() && is_feature_node(#[trigger] parent->Some_0.spec_nodes()[x])
                    ==> exists|y: int|
                    0 <= y < r.spec_nodes().len() && r.spec_nodes()[y] == Node::ParentFeature(
                        feature_of(parent->Some_0.spec_nodes()[x]),
                    ),
            parent is Some ==> forall|x: int|
                0 <= x < parent->Some_0.spec_nodes().len() && (#[trigger] parent->Some_0.spec_nodes()[x]) is Item
                    ==> r.spec_lookup(parent->Some_0.spec_nodes()[x]->Item_0.spec_key().id()) is Some,
    {
        let mut s = GraphBuilder::default();
        match parent {
            None => s,
            Some(parent) => {
                s.inherit(parent);
                s
            },
        }
    }
}

/// Whether a node is a feature, of this layer or of a parent.
pub open spec fn is_feature_node(n: Node) -> bool {
    n is PendingFeature || n is ParentFeature
}

/// The feature of a feature node.
pub open spec fn feature_of(n: Node) -> Feature {
    if n is PendingFeature {
        n->PendingFeature_0
    } else {
        n->ParentFeature_0
    }
}

/// The features that form a cycle in the dependency graph.
#[derive(Debug, Clone)]
pub struct Cycle(pub Vec<Feature>);

/// Why a layer's features cannot be resolved.
#[derive(Debug)]
pub enum Error {
    /// The features require each other in a circle.
    Cycle(Cycle),
    /// Several features of this layer provide the same item.
    Conflict { item: Item, features: Vec<Feature> },
    /// A required key was never provided.
    MissingItem { key: ItemKey },
    /// A required item does not satisfy its validator.
    Unsatisfied { item: Item, validator: Validator },
}

impl GraphBuilder {
    /// Whether requirement `j` of the `i`-th added feature exists.
    pub closed spec fn is_req(&self, i: int, j: int) -> bool {
        0 <= i < self.pending_features@.len() && 0 <= j < self.requirements@[i]@.len()
    }

    /// Requirement `j` of the `i`-th added feature.
    pub closed spec fn req(&self, i: int, j: int) -> Requirement {
        self.requirements@[i]@[j]
    }

    /// Whether requirement `j` of the `i`-th added feature resolves to node
    /// `a`.
    pub closed spec fn resolves_to(&self, i: int, j: int, a: int) -> bool {
        &&& self.is_req(i, j)
        &&& lookup(self.items@, self.req(i, j).key.id()) is Some
        &&& lookup(self.items@, self.req(i, j).key.id())->Some_0 == a
    }

    /// The dependency relation: the edges so far, and an edge from the item
    /// that each requirement resolves to to the feature that requires it.
    pub closed spec fn dep(&self) -> spec_fn(int, int) -> bool {
        |a: int, c: int|
            linked(self.edges@, a, c) || exists|i: int, j: int|
                #[trigger] self.resolves_to(i, j, a) && self.pending_features@[i] == c
    }

    /// Whether requirement `j` of the `i`-th added feature is met.
    pub closed spec fn req_ok(&self, i: int, j: int) -> bool {
        let r = self.req(i, j);
        match lookup(self.items@, r.key.id()) {
            Some(x) => r.validator.spec_satisfies(self.nodes@[x as int]->Item_0),
            None => r.validator.spec_is_absence(),
        }
    }

    /// Whether a requirement edge already present (from a parent layer, or
    /// between an item and the item that undoes it) is met.
    pub closed spec fn inherited_ok(&self, k: int) -> bool {
        let (a, _b, w) = self.edges@[k];
        w is Requires && self.nodes@[a as int] is Item ==> w->Requires_0.spec_satisfies(
            self.nodes@[a as int]->Item_0,
        )
    }

    pub closed spec fn requirements_ok(&self) -> bool {
        &&& forall|k: int| 0 <= k < self.edges@.len() ==> #[trigger] self.inherited_ok(k)
        &&& forall|i: int, j: int| #[trigger] self.is_req(i, j) ==> self.req_ok(i, j)
    }

    /// Whether `f` is a feature of this layer that provides node `x`.
    pub closed spec fn is_provider(&self, f: int, x: int) -> bool {
        0 <= f < self.nodes@.len() && self.nodes@[f] is PendingFeature && self.provides_edge(f, x)
    }

    /// Whether some item is provided by two features of this layer.
    pub closed spec fn has_conflict(&self) -> bool {
        exists|x: int, f1: int, f2: int|
            0 <= x < self.nodes@.len() && self.nodes@[x] is Item && f1 != f2
                && #[trigger] self.is_provider(f1, x) && #[trigger] self.is_provider(f2, x)
    }

    /// What `build` returns: a graph where the dependency relation has no
    /// cycle, no item has two providers and every requirement is met, and
    /// otherwise the first kind of failure in that order.
    pub open spec fn build_post(&self, r: Result<Graph, Error>) -> bool {
        &&& r is Ok <==> (acyclic(self.dep()) && !self.has_conflict() && self.requirements_ok())
        &&& match r {
            Ok(g) => {
                &&& g.wf()
                &&& self.spec_nodes().is_prefix_of(g.spec_nodes())
                &&& self.spec_edges().is_prefix_of(g.spec_edges())
                &&& forall|a: int, c: int| #[trigger] self.dep()(a, c) ==> linked(g.spec_edges(), a, c)
                &&& forall|x: int|
                    self.spec_nodes().len() <= x < g.spec_nodes().len() ==> (#[trigger] g.spec_nodes()[x]) is MissingItem
            },
            Err(Error::Cycle(c)) => {
                &&& !acyclic(self.dep())
                &&& forall|i: int| 0 <= i < c.0@.len() ==> #[trigger] self.has_cyclic_pending(c.0@[i])
                &&& forall|i: int| 0 <= i < c.0@.len() ==> !(#[trigger] c.0@[i]).spec_lt(&c.0@[0])
            },
            Err(Error::Conflict { item, features }) => {
                &&& acyclic(self.dep())
                &&& self.has_conflict()
                &&& exists|x: int, ps: Seq<usize>|
                    #[trigger] self.conflict_at(x, ps, item, features@)
            },
            Err(Error::MissingItem { key }) => {
                &&& acyclic(self.dep())
                &&& !self.has_conflict()
                &&& exists|i: int, j: int|
                    #[trigger] self.is_req(i, j) && self.req(i, j).key.id() == key.id()
                        && lookup(self.spec_items(), key.id()) is None && !self.req(i, j).validator.spec_is_absence()
            },
            Err(Error::Unsatisfied { item, validator }) => {
                &&& acyclic(self.dep())
                &&& !self.has_conflict()
                &&& !validator.spec_satisfies(item)
                &&& (exists|i: int, j: int|
                    #[trigger] self.is_req(i, j) && self.req(i, j).validator == validator
                        && lookup(self.spec_items(), self.req(i, j).key.id()) is Some
                        && self.spec_nodes()[lookup(self.spec_items(), self.req(i, j).key.id())->Some_0 as int]
                        == Node::Item(item)) || (exists|k: int|
                    0 <= k < self.spec_edges().len() && (#[trigger] self.spec_edges()[k]).2
                        == Edge::Requires(validator) && self.spec_nodes()[self.spec_edges()[k].0 as int]
                        == Node::Item(item))
            },
        }
    }

    /// Whether `f` is a feature of this layer that lies on a cycle of the
    /// dependency relation.
    pub closed spec fn has_cyclic_pending(&self, f: Feature) -> bool {
        exists|x: int|
            0 <= x < self.nodes@.len() && self.nodes@[x] is PendingFeature && same_feature(
                f,
                #[trigger] self.nodes@[x]->PendingFeature_0,
            ) && on_cycle(self.dep(), x)
    }

    /// Whether `ps` are all the features of this layer that provide item node
    /// `x`, at least two, each once, and `features` are theirs.
    pub closed spec fn conflict_at(&self, x: int, ps: Seq<usize>, item: Item, features: Seq<Feature>) -> bool {
        &&& 0 <= x < self.nodes@.len()
        &&& self.nodes@[x] == Node::Item(item)
        &&& ps.len() == features.len()
        &&& ps.len() >= 2
        &&& forall|a: int, b: int| 0 <= a < b < ps.len() ==> ps[a] != ps[b]
        &&& forall|a: int|
            0 <= a < ps.len() ==> self.is_provider(ps[a] as int, x) && same_feature(
                #[trigger] features[a],
                self.nodes@[ps[a] as int]->PendingFeature_0,
            )
        &&& forall|f: int| #[trigger] self.is_provider(f, x) ==> ps.contains(f as usize)
    }
}

/// The graph of a layer once each requirement has its edge.
struct Linked {
    nodes: Vec<Node>,
    edges: Vec<(usize, usize, Edge)>,
    items: Vec<(ItemKey, usize)>,
}

/// Whether requirement `(i2, j2)` comes before `(i, j)` in the order in which
/// requirements are linked.
spec fn linked_before(i2: int, j2: int, i: int, j: int) -> bool {
    i2 < i || (i2 == i && j2 < j)
}

/// Whether edge `e` is the one made for requirement `j` of the `i`-th
/// feature of `b0`: from the node its key resolves to, or from a new missing
/// node, to the feature, carrying the validator.
spec fn req_edge(b0: GraphBuilder, nodes: Seq<Node>, e: (usize, usize, Edge), i: int, j: int) -> bool {
    let r = b0.req(i, j);
    &&& b0.is_req(i, j)
    &&& e.1 == b0.spec_pending()[i]
    &&& e.2 == Edge::Requires(r.validator)
    &&& match lookup(b0.spec_items(), r.key.id()) {
        Some(x) => e.0 == x,
        None => {
            &&& b0.spec_nodes().len() <= e.0 < nodes.len()
            &&& nodes[e.0 as int] is MissingItem
            &&& nodes[e.0 as int]->MissingItem_0.id() == r.key.id()
        },
    }
}

proof fn lemma_req_edge_grow(
    b0: GraphBuilder,
    nodes: Seq<Node>,
    nodes2: Seq<Node>,
    e: (usize, usize, Edge),
    i: int,
    j: int,
)
    requires
        req_edge(b0, nodes, e, i, j),
        nodes.is_prefix_of(nodes2),
    ensures
        req_edge(b0, nodes2, e, i, j),
{
    if lookup(b0.spec_items(), b0.req(i, j).key.id()) is None {
        lemma_prefix_index(nodes, nodes2, e.0 as int);
    }
}

/// Whether `e` is the edge of a requirement linked before `(i, j)`.
spec fn earlier_req_edge(b0: GraphBuilder, nodes: Seq<Node>, e: (usize, usize, Edge), i: int, j: int) -> bool {
    exists|i2: int, j2: int| linked_before(i2, j2, i, j) && #[trigger] req_edge(b0, nodes, e, i2, j2)
}

/// Whether `l` is `b0` with the requirements before `(i, j)` linked.
spec fn linked_upto(b0: GraphBuilder, l: Linked, i: int, j: int) -> bool {
    let n0 = b0.spec_nodes().len();
    let e0 = b0.spec_edges().len();
    let i0 = b0.spec_items().len();
    &&& b0.spec_nodes().is_prefix_of(l.nodes@)
    &&& forall|x: int| n0 <= x < l.nodes@.len() ==> (#[trigger] l.nodes@[x]) is MissingItem
    &&& b0.spec_edges().is_prefix_of(l.edges@)
    &&& edges_in_range(l.nodes@.len(), endpoints(l.edges@))
    &&& forall|k: int| e0 <= k < l.edges@.len() ==> #[trigger] earlier_req_edge(b0, l.nodes@, l.edges@[k], i, j)
    &&& forall|i2: int, j2: int|
        #[trigger] b0.is_req(i2, j2) && linked_before(i2, j2, i, j) ==> exists|k: int|
            e0 <= k < l.edges@.len() && #[trigger] req_edge(b0, l.nodes@, l.edges@[k], i2, j2)
    &&& index_wf(l.nodes@, l.items@)
    &&& b0.spec_items().is_prefix_of(l.items@)
    &&& forall|q: int|
        i0 <= q < l.items@.len() ==> {
            let x = (#[trigger] l.items@[q]).1 as int;
            &&& n0 <= x
            &&& l.nodes@[x] == Node::MissingItem(l.items@[q].0)
            &&& lookup(b0.spec_items(), l.items@[q].0.id()) is None
        }
}

impl GraphBuilder {
    /// Gives each requirement of each feature of this layer an edge from the
    /// node its key resolves to, registering a missing node for a key that
    /// nothing provides.
    fn link(self) -> (l: Linked)
        requires
            self.wf(),
        ensures
            linked_upto(self, l, self.spec_pending().len() as int, 0),
    {
        let ghost b0 = self;
        let GraphBuilder { nodes, edges, root: _, pending_features, requirements, items, phases: _ } = self;
        let mut l = Linked { nodes, edges, items };
        let ghost n0 = b0.spec_nodes().len();
        let ghost e0 = b0.spec_edges().len();
        let ghost i0 = b0.spec_items().len();
        proof {
            assert(b0.spec_nodes().is_prefix_of(l.nodes@));
            assert(b0.spec_edges().is_prefix_of(l.edges@));
            assert(b0.spec_items().is_prefix_of(l.items@));
        }
        let mut i: usize = 0;
        while i < pending_features.len()
            invariant
                b0.wf(),
                pending_features@ == b0.spec_pending(),
                requirements@.map_values(|v: Vec<Requirement>| v@) == b0.spec_requirements(),
                requirements@.len() == pending_features@.len(),
                i <= pending_features@.len(),
                n0 == b0.spec_nodes().len(),
                e0 == b0.spec_edges().len(),
                i0 == b0.spec_items().len(),
                linked_upto(b0, l, i as int, 0),
            decreases pending_features.len() - i,
        {
            let reqs = &requirements[i];
            let f = pending_features[i];
            proof {
                assert(b0.spec_requirements()[i as int] == reqs@);
            }
            let mut j: usize = 0;
            while j < reqs.len()
                invariant
                    b0.wf(),
                    pending_features@ == b0.spec_pending(),
                    requirements@.map_values(|v: Vec<Requirement>| v@) == b0.spec_requirements(),
                    requirements@.len() == pending_features@.len(),
                    i < pending_features@.len(),
                    reqs == requirements@[i as int],
                    f == pending_features@[i as int],
                    b0.spec_requirements()[i as int] == reqs@,
                    j <= reqs@.len(),
                    n0 == b0.spec_nodes().len(),
                    e0 == b0.spec_edges().len(),
                    i0 == b0.spec_items().len(),
                    linked_upto(b0, l, i as int, j as int),
                decreases reqs.len() - j,
            {
                let req = &reqs[j];
                let ghost id = req.key.id();
                let ghost before = l;
                proof {
                    assert(b0.req(i as int, j as int) == *req);
                    assert(b0.is_req(i as int, j as int));
                    assert(b0.pending_features@[i as int] == f);
                }
                let src = match find_key(&l.items, &req.key) {
                    Some(q) => {
                        proof {
                            lemma_lookup_first(l.items@, id, q as int);
                            if q < i0 {
                                lemma_prefix_index(b0.spec_items(), l.items@, q as int);
                                assert forall|q2: int| 0 <= q2 < q implies (#[trigger] b0.spec_items()[q2]).0.id() != id by {
                                    lemma_prefix_index(b0.spec_items(), l.items@, q2);
                                }
                                lemma_lookup_first(b0.spec_items(), id, q as int);
                            }
                        }
                        l.items[q].1
                    },
                    None => {
                        proof {
                            assert forall|q2: int| 0 <= q2 < i0 implies (#[trigger] b0.spec_items()[q2]).0.id() != id by {
                                lemma_prefix_index(b0.spec_items(), l.items@, q2);
                            }
                            lemma_lookup_none(b0.spec_items(), id);
                        }
                        let x = l.nodes.len();
                        l.nodes.push(Node::MissingItem(req.key.duplicate()));
                        l.items.push((req.key.duplicate(), x));
                        x
                    },
                };
                let ghost mid = l;
                l.edges.push((src, f, Edge::Requires(req.validator.duplicate())));
                proof {
                    let e = (src, f, Edge::Requires(req.validator));
                    assert(l.edges@[l.edges@.len() - 1] == e);
                    assert(req_edge(b0, l.nodes@, e, i as int, j as int));
                    assert(endpoints(l.edges@) =~= endpoints(before.edges@).push((src, f)));
                    assert forall|k: int| e0 <= k < l.edges@.len() implies #[trigger] earlier_req_edge(b0, l.nodes@, l.edges@[k], i as int, j as int + 1) by {
                        if k < l.edges@.len() - 1 {
                            assert(l.edges@[k] == before.edges@[k]);
                            assert(earlier_req_edge(b0, before.nodes@, before.edges@[k], i as int, j as int));
                            let (i2, j2) = choose|i2: int, j2: int| linked_before(i2, j2, i as int, j as int) && #[trigger] req_edge(b0, before.nodes@, before.edges@[k], i2, j2);
                            lemma_req_edge_grow(b0, before.nodes@, l.nodes@, before.edges@[k], i2, j2);
                            assert(linked_before(i2, j2, i as int, j as int + 1));
                        } else {
                            assert(linked_before(i as int, j as int, i as int, j as int + 1));
                            assert(req_edge(b0, l.nodes@, l.edges@[k], i as int, j as int));
                        }
                    }
                    assert forall|i2: int, j2: int|
                        #[trigger] b0.is_req(i2, j2) && linked_before(i2, j2, i as int, j as int + 1) implies exists|k: int|
                            e0 <= k < l.edges@.len() && #[trigger] req_edge(b0, l.nodes@, l.edges@[k], i2, j2) by {
                        if linked_before(i2, j2, i as int, j as int) {
                            let k = choose|k: int| e0 <= k < before.edges@.len() && #[trigger] req_edge(b0, before.nodes@, before.edges@[k], i2, j2);
                            assert(l.edges@[k] == before.edges@[k]);
                            lemma_req_edge_grow(b0, before.nodes@, l.nodes@, before.edges@[k], i2, j2);
                        } else {
                            assert(i2 == i && j2 == j);
                            assert(req_edge(b0, l.nodes@, l.edges@[l.edges@.len() - 1], i2, j2));
                        }
                    }
                    assert forall|x: int| n0 <= x < l.nodes@.len() implies (#[trigger] l.nodes@[x]) is MissingItem by {
                        if x < before.nodes@.len() {
                            assert(l.nodes@[x] == before.nodes@[x]);
                        }
                    }
                    assert forall|q: int| i0 <= q < l.items@.len() implies {
                        let x = (#[trigger] l.items@[q]).1 as int;
                        &&& n0 <= x
                        &&& l.nodes@[x] == Node::MissingItem(l.items@[q].0)
                        &&& lookup(b0.spec_items(), l.items@[q].0.id()) is None
                    } by {
                        if q < before.items@.len() {
                            assert(l.items@[q] == before.items@[q]);
                            assert(l.nodes@[before.items@[q].1 as int] == before.nodes@[before.items@[q].1 as int]);
                        }
                    }
                    assert forall|q: int| 0 <= q < l.items@.len() implies (#[trigger] l.items@[q]).1 < l.nodes@.len() by {
                        if q < before.items@.len() {
                            assert(l.items@[q] == before.items@[q]);
                        }
                    }
                    assert forall|q1: int, q2: int| 0 <= q1 < q2 < l.items@.len() implies (#[trigger] l.items@[q1]).0.id()
                        != (#[trigger] l.items@[q2]).0.id() by {
                        if q2 < before.items@.len() {
                            assert(l.items@[q1] == before.items@[q1]);
                            assert(l.items@[q2] == before.items@[q2]);
                        } else {
                            assert(l.items@[q1] == before.items@[q1]);
                        }
                    }
                    assert(b0.spec_nodes().is_prefix_of(l.nodes@));
                    assert(b0.spec_edges().is_prefix_of(l.edges@));
                    assert(b0.spec_items().is_prefix_of(l.items@));
                }
                j = j + 1;
            }
            proof {
                assert(linked_upto(b0, l, i as int, j as int));
                assert(j == reqs@.len());
                assert forall|k: int| e0 <= k < l.edges@.len() implies #[trigger] earlier_req_edge(b0, l.nodes@, l.edges@[k], i as int + 1, 0) by {
                    assert(earlier_req_edge(b0, l.nodes@, l.edges@[k], i as int, j as int));
                    let (i2, j2) = choose|i2: int, j2: int| linked_before(i2, j2, i as int, j as int) && #[trigger] req_edge(b0, l.nodes@, l.edges@[k], i2, j2);
                    assert(linked_before(i2, j2, i as int + 1, 0));
                }
                assert forall|i2: int, j2: int|
                    #[trigger] b0.is_req(i2, j2) && linked_before(i2, j2, i as int + 1, 0) implies exists|k: int|
                        e0 <= k < l.edges@.len() && #[trigger] req_edge(b0, l.nodes@, l.edges@[k], i2, j2) by {
                    if i2 == i {
                        assert(b0.requirements@[i2]@ == reqs@);
                    }
                    assert(linked_before(i2, j2, i as int, j as int));
                }
            }
            i = i + 1;
        }
        l
    }
}

spec fn linked_done(b0: GraphBuilder, l: Linked) -> bool {
    &&& b0.wf()
    &&& linked_upto(b0, l, b0.spec_pending().len() as int, 0)
}

proof fn lemma_req_edge_at(b0: GraphBuilder, l: Linked, k: int) -> (ij: (int, int))
    requires
        linked_done(b0, l),
        b0.spec_edges().len() <= k < l.edges@.len(),
    ensures
        req_edge(b0, l.nodes@, l.edges@[k], ij.0, ij.1),
{
    assert(earlier_req_edge(b0, l.nodes@, l.edges@[k], b0.spec_pending().len() as int, 0));
    choose|i2: int, j2: int|
        linked_before(i2, j2, b0.spec_pending().len() as int, 0) && #[trigger] req_edge(
            b0,
            l.nodes@,
            l.edges@[k],
            i2,
            j2,
        )
}

proof fn lemma_edge_of_req(b0: GraphBuilder, l: Linked, i: int, j: int) -> (k: int)
    requires
        linked_done(b0, l),
        b0.is_req(i, j),
    ensures
        b0.spec_edges().len() <= k < l.edges@.len(),
        req_edge(b0, l.nodes@, l.edges@[k], i, j),
{
    assert(linked_before(i, j, b0.spec_pending().len() as int, 0));
    choose|k: int| b0.spec_edges().len() <= k < l.edges@.len() && #[trigger] req_edge(b0, l.nodes@, l.edges@[k], i, j)
}

/// Every dependency of the builder is an edge of the linked graph.
proof fn lemma_dep_linked(b0: GraphBuilder, l: Linked)
    requires
        linked_done(b0, l),
    ensures
        forall|a: int, c: int| #[trigger] b0.dep()(a, c) ==> edge_rel(endpoints(l.edges@))(a, c),
{
    assert forall|a: int, c: int| #[trigger] b0.dep()(a, c) implies edge_rel(endpoints(l.edges@))(a, c) by {
        let es = endpoints(l.edges@);
        if linked(b0.edges@, a, c) {
            let k = choose|k: int| 0 <= k < b0.edges@.len() && (#[trigger] b0.edges@[k]).0 == a && b0.edges@[k].1 == c;
            lemma_prefix_index(b0.edges@, l.edges@, k);
            assert(es[k] == (a as usize, c as usize));
        } else {
            let (i, j) = choose|i: int, j: int| #[trigger] b0.resolves_to(i, j, a) && b0.pending_features@[i] == c;
            let k = lemma_edge_of_req(b0, l, i, j);
            assert(es[k] == (l.edges@[k].0, l.edges@[k].1));
            assert(es[k].0 == a && es[k].1 == c);
        }
    }
}

/// Every edge of the linked graph is a dependency of the builder, or leaves
/// a missing node, which no edge enters.
proof fn lemma_linked_dep(b0: GraphBuilder, l: Linked)
    requires
        linked_done(b0, l),
    ensures
        forall|a: int, c: int|
            #[trigger] edge_rel(endpoints(l.edges@))(a, c) ==> b0.dep()(a, c) || forall|x: int|
                !#[trigger] edge_rel(endpoints(l.edges@))(x, a),
{
    let es = endpoints(l.edges@);
    let n0 = b0.spec_nodes().len();
    let e0 = b0.spec_edges().len();
    assert forall|k: int| 0 <= k < es.len() implies (#[trigger] es[k]).1 < n0 by {
        if k < e0 {
            lemma_prefix_index(b0.edges@, l.edges@, k);
            assert(endpoints(b0.edges@)[k] == es[k]);
        } else {
            let (i, j) = lemma_req_edge_at(b0, l, k);
            assert(b0.pending_features@[i] < n0);
        }
    }
    assert forall|a: int, c: int|
        #[trigger] edge_rel(es)(a, c) implies b0.dep()(a, c) || forall|x: int| !#[trigger] edge_rel(es)(x, a) by {
        let k = choose|k: int| 0 <= k < es.len() && (#[trigger] es[k]).0 == a && es[k].1 == c;
        if k < e0 {
            lemma_prefix_index(b0.edges@, l.edges@, k);
            assert(linked(b0.edges@, a, c));
        } else {
            let (i, j) = lemma_req_edge_at(b0, l, k);
            if lookup(b0.items@, b0.req(i, j).key.id()) is Some {
                assert(b0.resolves_to(i, j, a));
            } else {
                assert(a >= n0);
                assert forall|x: int| !#[trigger] edge_rel(es)(x, a) by {
                    if edge_rel(es)(x, a) {
                        let k2 = choose|k2: int| 0 <= k2 < es.len() && (#[trigger] es[k2]).0 == x && es[k2].1 == a;
                        assert(es[k2].1 < n0);
                    }
                }
            }
        }
    }
}

fn endpoints_of(edges: &Vec<(usize, usize, Edge)>) -> (es: Vec<(usize, usize)>)
    ensures
        es@ == endpoints(edges@),
{
    let mut es: Vec<(usize, usize)> = Vec::new();
    let mut k: usize = 0;
    while k < edges.len()
        invariant
            k <= edges@.len(),
            es@ =~= endpoints(edges@).subrange(0, k as int),
        decreases edges.len() - k,
    {
        es.push((edges[k].0, edges[k].1));
        k = k + 1;
    }
    proof {
        assert(endpoints(edges@).subrange(0, edges@.len() as int) =~= endpoints(edges@));
    }
    es
}

fn contains_index(v: &Vec<usize>, a: usize) -> (r: bool)
    ensures
        r == v@.contains(a),
{
    let mut i: usize = 0;
    while i < v.len()
        invariant
            i <= v@.len(),
            forall|j: int| 0 <= j < i ==> v@[j] != a,
        decreases v.len() - i,
    {
        if v[i] == a {
            return true;
        }
        i = i + 1;
    }
    false
}

/// The features of this layer that provide node `x`, each once.
fn providers_of(l: &Linked, x: usize, Ghost(b0): Ghost<GraphBuilder>) -> (ps: Vec<usize>)
    requires
        linked_done(b0, *l),
        x < b0.spec_nodes().len(),
    ensures
        forall|a: int, b: int| 0 <= a < b < ps@.len() ==> ps@[a] != ps@[b],
        forall|a: int| 0 <= a < ps@.len() ==> b0.is_provider(#[trigger] ps@[a] as int, x as int),
        forall|f: int| #[trigger] b0.is_provider(f, x as int) ==> ps@.contains(f as usize),
{
    let ghost n0 = b0.spec_nodes().len();
    let ghost e0 = b0.spec_edges().len();
    let mut ps: Vec<usize> = Vec::new();
    let mut k: usize = 0;
    while k < l.edges.len()
        invariant
            linked_done(b0, *l),
            x < b0.spec_nodes().len(),
            n0 == b0.spec_nodes().len(),
            e0 == b0.spec_edges().len(),
            k <= l.edges@.len(),
            forall|a: int, b: int| 0 <= a < b < ps@.len() ==> ps@[a] != ps@[b],
            forall|a: int| 0 <= a < ps@.len() ==> b0.is_provider(#[trigger] ps@[a] as int, x as int),
            forall|k2: int|
                0 <= k2 < k && (#[trigger] l.edges@[k2]).1 == x && l.edges@[k2].2 is Provides && l.edges@[k2].0
                    < n0 && b0.nodes@[l.edges@[k2].0 as int] is PendingFeature ==> ps@.contains(l.edges@[k2].0),
        decreases l.edges.len() - k,
    {
        let (a, b, w) = &l.edges[k];
        let is_prov = match w {
            Edge::Provides => true,
            _ => false,
        };
        if *b == x && is_prov && *a < l.nodes.len() {
            let pending = match &l.nodes[*a] {
                Node::PendingFeature(_) => true,
                _ => false,
            };
            if pending && !contains_index(&ps, *a) {
                proof {
                    if k >= e0 {
                        let (i, j) = lemma_req_edge_at(b0, *l, k as int);
                    }
                    lemma_prefix_index(b0.edges@, l.edges@, k as int);
                    if *a >= n0 {
                        assert(l.nodes@[*a as int] is MissingItem);
                    }
                    lemma_prefix_index(b0.nodes@, l.nodes@, *a as int);
                    assert(b0.provides_edge(*a as int, x as int));
                }
                let ghost ps0 = ps@;
                ps.push(*a);
                proof {
                    assert forall|v: usize| ps0.contains(v) implies ps@.contains(v) by {
                        let t = choose|t: int| 0 <= t < ps0.len() && ps0[t] == v;
                        assert(ps@[t] == v);
                    }
                    assert(ps@[ps@.len() - 1] == *a);
                }
            }
        }
        proof {
            if k < l.edges@.len() && *a < n0 {
                lemma_prefix_index(b0.nodes@, l.nodes@, *a as int);
            }
        }
        k = k + 1;
    }
    proof {
        assert forall|f: int| #[trigger] b0.is_provider(f, x as int) implies ps@.contains(f as usize) by {
            let k2 = choose|k2: int| 0 <= k2 < b0.edges@.len() && (#[trigger] b0.edges@[k2]).0 == f && b0.edges@[k2].1 == x && b0.edges@[k2].2 is Provides;
            lemma_prefix_index(b0.edges@, l.edges@, k2);
        }
    }
    ps
}

/// An item node with at least two providers, and all of them.
fn find_conflict(l: &Linked, Ghost(b0): Ghost<GraphBuilder>) -> (r: Option<(usize, Vec<usize>)>)
    requires
        linked_done(b0, *l),
    ensures
        match r {
            Some((x, ps)) => {
                &&& x < b0.spec_nodes().len()
                &&& b0.spec_nodes()[x as int] is Item
                &&& ps@.len() >= 2
                &&& forall|a: int, b: int| 0 <= a < b < ps@.len() ==> ps@[a] != ps@[b]
                &&& forall|a: int| 0 <= a < ps@.len() ==> b0.is_provider(#[trigger] ps@[a] as int, x as int)
                &&& forall|f: int| #[trigger] b0.is_provider(f, x as int) ==> ps@.contains(f as usize)
            },
            None => !b0.has_conflict(),
        },
{
    let ghost n0 = b0.spec_nodes().len();
    let mut x: usize = 0;
    while x < l.nodes.len()
        invariant
            linked_done(b0, *l),
            n0 == b0.spec_nodes().len(),
            x <= l.nodes@.len(),
            forall|y: int, f1: int, f2: int|
                0 <= y < x && y < n0 && b0.nodes@[y] is Item && #[trigger] b0.is_provider(f1, y) && #[trigger] b0.is_provider(f2, y)
                    ==> f1 == f2,
        decreases l.nodes.len() - x,
    {
        let is_item = match &l.nodes[x] {
            Node::Item(_) => true,
            _ => false,
        };
        if is_item {
            proof {
                if x >= n0 {
                    assert(l.nodes@[x as int] is MissingItem);
                }
                lemma_prefix_index(b0.nodes@, l.nodes@, x as int);
            }
            let ps = providers_of(l, x, Ghost(b0));
            if ps.len() > 1 {
                return Some((x, ps));
            }
            proof {
                assert forall|f1: int, f2: int| #[trigger] b0.is_provider(f1, x as int) && #[trigger] b0.is_provider(f2, x as int) implies f1 == f2 by {
                    assert(ps@.contains(f1 as usize));
                    assert(ps@.contains(f2 as usize));
                }
            }
        } else {
            proof {
                if x < n0 {
                    lemma_prefix_index(b0.nodes@, l.nodes@, x as int);
                }
            }
        }
        x = x + 1;
    }
    proof {
        if b0.has_conflict() {
            let (y, f1, f2) = choose|y: int, f1: int, f2: int|
                0 <= y < b0.nodes@.len() && b0.nodes@[y] is Item && f1 != f2 && #[trigger] b0.is_provider(f1, y)
                    && #[trigger] b0.is_provider(f2, y);
            lemma_prefix_index(b0.nodes@, l.nodes@, y);
        }
    }
    None
}

/// A requirement edge whose validator fails on the node it leaves: an item
/// it does not accept, or a missing node where it demands presence.
fn find_violation(l: &Linked) -> (r: Option<usize>)
    requires
        edges_in_range(l.nodes@.len(), endpoints(l.edges@)),
    ensures
        match r {
            Some(k) => k < l.edges@.len() && violates(l.nodes@, l.edges@[k as int]),
            None => forall|k: int| 0 <= k < l.edges@.len() ==> !violates(l.nodes@, #[trigger] l.edges@[k]),
        },
{
    let mut k: usize = 0;
    while k < l.edges.len()
        invariant
            edges_in_range(l.nodes@.len(), endpoints(l.edges@)),
            k <= l.edges@.len(),
            forall|k2: int| 0 <= k2 < k ==> !violates(l.nodes@, #[trigger] l.edges@[k2]),
        decreases l.edges.len() - k,
    {
        let (a, _b, w) = &l.edges[k];
        proof {
            assert(endpoints(l.edges@)[k as int].0 == *a);
        }
        match w {
            Edge::Requires(v) => match &l.nodes[*a] {
                Node::Item(i) => {
                    if !v.satisfies(i) {
                        return Some(k);
                    }
                },
                Node::MissingItem(_) => {
                    if !v.is_absence() {
                        return Some(k);
                    }
                },
                _ => {},
            },
            _ => {},
        }
        k = k + 1;
    }
    None
}

/// Whether a requirement edge fails on the node it leaves.
spec fn violates(nodes: Seq<Node>, e: (usize, usize, Edge)) -> bool {
    e.2 is Requires && match nodes[e.0 as int] {
        Node::Item(i) => !e.2->Requires_0.spec_satisfies(i),
        Node::MissingItem(_) => !e.2->Requires_0.spec_is_absence(),
        _ => false,
    }
}

/// Whether `p` walks along the edges from `c` to `v`.
spec fn walk_to(n: nat, es: Seq<(usize, usize)>, p: Seq<usize>, c: usize, v: usize) -> bool {
    &&& p.len() >= 1
    &&& p[0] == c
    &&& p.last() == v
    &&& forall|i: int| 0 <= i < p.len() ==> (#[trigger] p[i]) < n
    &&& forall|i: int| 0 <= i < p.len() - 1 ==> has_edge(es, #[trigger] p[i] as int, p[i + 1] as int)
}

fn copy_path(p: &Vec<usize>) -> (r: Vec<usize>)
    ensures
        r@ == p@,
{
    let mut r: Vec<usize> = Vec::new();
    let mut i: usize = 0;
    while i < p.len()
        invariant
            i <= p@.len(),
            r@ =~= p@.subrange(0, i as int),
        decreases p.len() - i,
    {
        r.push(p[i]);
        i = i + 1;
    }
    proof {
        assert(p@.subrange(0, p@.len() as int) =~= p@);
    }
    r
}

/// A walk along the edges from `c` back to `c`, found by extending walks
/// from `c` one edge at a time; empty where none was found.
fn cycle_through(n: usize, es: &Vec<(usize, usize)>, c: usize) -> (p: Vec<usize>)
    requires
        edges_in_range(n as nat, es@),
        c < n,
    ensures
        p@.len() == 0 || (p@.len() >= 2 && walk_to(n as nat, es@, p@, c, c)),
{
    let mut paths: Vec<Vec<usize>> = Vec::new();
    let mut v: usize = 0;
    while v < n
        invariant
            v <= n,
            paths@.len() == v,
            forall|u: int| 0 <= u < v ==> (#[trigger] paths@[u])@.len() == 0,
        decreases n - v,
    {
        paths.push(Vec::new());
        v = v + 1;
    }
    paths.set(c, vec![c]);
    let mut round: usize = 0;
    while round < n
        invariant
            paths@.len() == n,
            c < n,
            edges_in_range(n as nat, es@),
            forall|u: int| 0 <= u < n && (#[trigger] paths@[u])@.len() > 0 ==> walk_to(n as nat, es@, paths@[u]@, c, u as usize),
        decreases n - round,
    {
        let mut k: usize = 0;
        while k < es.len()
            invariant
                paths@.len() == n,
                c < n,
                edges_in_range(n as nat, es@),
                forall|u: int| 0 <= u < n && (#[trigger] paths@[u])@.len() > 0 ==> walk_to(n as nat, es@, paths@[u]@, c, u as usize),
            decreases es.len() - k,
        {
            let (a, b) = es[k];
            proof {
                assert(es@[k as int].0 < n && es@[k as int].1 < n);
                assert(has_edge(es@, a as int, b as int));
            }
            if paths[a].len() > 0 {
                let mut p = copy_path(&paths[a]);
                let ghost pa = p@;
                p.push(b);
                proof {
                    assert(walk_to(n as nat, es@, pa, c, a));
                    assert forall|i: int| 0 <= i < p@.len() - 1 implies has_edge(es@, #[trigger] p@[i] as int, p@[i + 1] as int) by {
                        if i < pa.len() - 1 {
                            assert(p@[i] == pa[i] && p@[i + 1] == pa[i + 1]);
                        }
                    }
                }
                if b == c {
                    return p;
                }
                if paths[b].len() == 0 {
                    paths.set(b, p);
                }
            }
            k = k + 1;
        }
        round = round + 1;
    }
    Vec::new()
}

/// Whether `f` is the feature of a node of this layer met along `p`.
spec fn pending_on(b0: GraphBuilder, p: Seq<usize>, f: Feature) -> bool {
    exists|i: int|
        0 <= i < p.len() && p[i] < b0.nodes@.len() && b0.nodes@[p[i] as int] is PendingFeature && same_feature(
            f,
            #[trigger] b0.nodes@[p[i] as int]->PendingFeature_0,
        )
}

/// Each node of a closed walk lies on a cycle.
proof fn lemma_closed_walk_cycles(n: nat, es: Seq<(usize, usize)>, p: Seq<usize>, c: usize, i: int)
    requires
        p.len() >= 2,
        walk_to(n, es, p, c, c),
        0 <= i < p.len(),
    ensures
        on_cycle(edge_rel(es), p[i] as int),
{
    let w = p.map_values(|x: usize| x as int);
    let q = w.subrange(i, w.len() as int) + w.subrange(1, i + 1);
    let rel = edge_rel(es);
    assert forall|k: int| 0 <= k < q.len() - 1 implies #[trigger] rel(q[k], q[k + 1]) by {
        let m = w.len() - i;
        if k < m - 1 {
            assert(q[k] == w[i + k] && q[k + 1] == w[i + k + 1]);
            assert(has_edge(es, p[i + k] as int, p[i + k + 1] as int));
        } else if k == m - 1 {
            assert(q[k] == w[w.len() - 1]);
            assert(q[k + 1] == w[1]);
            assert(p[p.len() - 1] == p[0]);
            assert(has_edge(es, p[0] as int, p[1] as int));
        } else {
            let j = k - m + 1;
            assert(q[k] == w[j] && q[k + 1] == w[j + 1]);
            assert(has_edge(es, p[j] as int, p[j + 1] as int));
        }
    }
    assert(q[0] == p[i] as int);
    if i == 0 {
        assert(q.last() == w[w.len() - 1]);
    } else {
        assert(q.last() == w[i]);
    }
    assert(is_walk(rel, q));
}

/// The features of this layer met along `p`, leaving out its last node.
fn features_on(l: &Linked, p: &Vec<usize>, Ghost(b0): Ghost<GraphBuilder>) -> (fs: Vec<Feature>)
    requires
        linked_done(b0, *l),
        forall|i: int| 0 <= i < p@.len() ==> (#[trigger] p@[i]) < l.nodes@.len(),
    ensures
        forall|i: int| 0 <= i < fs@.len() ==> #[trigger] pending_on(b0, p@, fs@[i]),
{
    let ghost n0 = b0.spec_nodes().len();
    let mut fs: Vec<Feature> = Vec::new();
    let last = if p.len() > 0 {
        p.len() - 1
    } else {
        0
    };
    let mut i: usize = 0;
    while i < last
        invariant
            linked_done(b0, *l),
            n0 == b0.spec_nodes().len(),
            last <= p@.len(),
            forall|i: int| 0 <= i < p@.len() ==> (#[trigger] p@[i]) < l.nodes@.len(),
            forall|t: int| 0 <= t < fs@.len() ==> #[trigger] pending_on(b0, p@, fs@[t]),
        decreases last - i,
    {
        let x = p[i];
        match &l.nodes[x] {
            Node::PendingFeature(f) => {
                proof {
                    if x >= n0 {
                        assert(l.nodes@[x as int] is MissingItem);
                    }
                    lemma_prefix_index(b0.nodes@, l.nodes@, x as int);
                }
                let ghost fs0 = fs@;
                fs.push(f.duplicate());
                proof {
                    assert forall|t: int| 0 <= t < fs@.len() implies #[trigger] pending_on(b0, p@, fs@[t]) by {
                        if t < fs0.len() {
                            assert(fs@[t] == fs0[t]);
                        } else {
                            assert(same_feature(fs@[t], b0.nodes@[p@[i as int] as int]->PendingFeature_0));
                        }
                    }
                }
            },
            _ => {},
        }
        i = i + 1;
    }
    fs
}

/// `fs` turned so that a least feature comes first.
fn rotate_to_least(fs: Vec<Feature>) -> (r: Vec<Feature>)
    ensures
        exists|m: int|
            0 <= m <= fs@.len() && r@ == fs@.subrange(m, fs@.len() as int) + fs@.subrange(0, m),
        forall|i: int| 0 <= i < r@.len() ==> !(#[trigger] r@[i]).spec_lt(&r@[0]),
{
    let ghost orig = fs@;
    if fs.len() == 0 {
        proof {
            assert(fs@ =~= orig.subrange(0, 0) + orig.subrange(0, 0));
        }
        return fs;
    }
    let mut m: usize = 0;
    let mut i: usize = 1;
    proof {
        lemma_feature_order(fs@[0], fs@[0], fs@[0]);
    }
    while i < fs.len()
        invariant
            fs@ == orig,
            fs@.len() > 0,
            m < i <= fs@.len(),
            forall|j: int| 0 <= j < i ==> !(#[trigger] fs@[j]).spec_lt(&fs@[m as int]),
        decreases fs.len() - i,
    {
        if fs[i].lt(&fs[m]) {
            proof {
                assert forall|j: int| 0 <= j < i + 1 implies !(#[trigger] fs@[j]).spec_lt(&fs@[i as int]) by {
                    lemma_feature_order(fs@[j], fs@[i as int], fs@[m as int]);
                    lemma_feature_order(fs@[i as int], fs@[i as int], fs@[i as int]);
                }
            }
            m = i;
        }
        i = i + 1;
    }
    let mut front = fs;
    let mut head = front.split_off(m);
    head.append(&mut front);
    proof {
        let r = orig.subrange(m as int, orig.len() as int) + orig.subrange(0, m as int);
        assert(head@ =~= r);
        assert forall|i: int| 0 <= i < head@.len() implies !(#[trigger] head@[i]).spec_lt(&head@[0]) by {
            if i < orig.len() - m {
                assert(head@[i] == orig[m + i]);
            } else {
                assert(head@[i] == orig[i - (orig.len() - m)]);
            }
            assert(head@[0] == orig[m as int]);
        }
    }
    head
}

proof fn lemma_lookup_names_item(b0: GraphBuilder, id: KeyId)
    requires
        b0.wf(),
        lookup(b0.items@, id) is Some,
    ensures
        lookup(b0.items@, id)->Some_0 < b0.nodes@.len(),
        b0.nodes@[lookup(b0.items@, id)->Some_0 as int] is Item,
{
    let q = choose|q: int| #[trigger] first_entry(b0.items@, id, q);
    assert(b0.items@[q].1 == lookup(b0.items@, id)->Some_0);
}

/// With no violating edge in the linked graph, every requirement of the
/// builder is met.
proof fn lemma_no_violation(b0: GraphBuilder, l: Linked)
    requires
        linked_done(b0, l),
        forall|k: int| 0 <= k < l.edges@.len() ==> !violates(l.nodes@, #[trigger] l.edges@[k]),
    ensures
        b0.requirements_ok(),
{
    assert forall|k: int| 0 <= k < b0.edges@.len() implies #[trigger] b0.inherited_ok(k) by {
        lemma_prefix_index(b0.edges@, l.edges@, k);
        assert(endpoints(b0.edges@)[k].0 < b0.nodes@.len());
        lemma_prefix_index(b0.nodes@, l.nodes@, b0.edges@[k].0 as int);
        assert(!violates(l.nodes@, l.edges@[k]));
    }
    assert forall|i: int, j: int| #[trigger] b0.is_req(i, j) implies b0.req_ok(i, j) by {
        let k = lemma_edge_of_req(b0, l, i, j);
        assert(!violates(l.nodes@, l.edges@[k]));
        let id = b0.req(i, j).key.id();
        if lookup(b0.items@, id) is Some {
            lemma_lookup_names_item(b0, id);
            lemma_prefix_index(b0.nodes@, l.nodes@, l.edges@[k].0 as int);
        }
    }
}

impl GraphBuilder {
    /// Resolves this layer: links each requirement to the node that its key
    /// resolves to, orders every node, and checks, in this order, that no
    /// features depend on each other in a circle, that no item has two
    /// providers in this layer, and that every requirement is met.
    pub fn build(self) -> (r: Result<Graph, Error>)
        requires
            self.wf(),
        ensures
            self.build_post(r),
    {
        let ghost b0 = self;
        let root = self.root;
        let end = self.phases[PHASE_COUNT - 1];
        proof {
            assert(Phase::spec_from_index(3) == Phase::End);
            assert(b0.phases@[3] == end);
        }
        let mut l = self.link();
        let es = endpoints_of(&l.edges);
        let ghost n0 = b0.spec_nodes().len();
        let ghost e0 = b0.spec_edges().len();
        match toposort(l.nodes.len(), &es) {
            Err(c) => {
                proof {
                    lemma_linked_dep(b0, l);
                    lemma_cycle_narrow(b0.dep(), edge_rel(es@), c as int);
                }
                let p = cycle_through(l.nodes.len(), &es, c);
                let fs = features_on(&l, &p, Ghost(b0));
                let ghost fs0 = fs@;
                let fs = rotate_to_least(fs);
                proof {
                    let m = choose|m: int|
                        0 <= m <= fs0.len() && fs@ == fs0.subrange(m, fs0.len() as int) + fs0.subrange(0, m);
                    assert forall|i: int| 0 <= i < fs@.len() implies #[trigger] b0.has_cyclic_pending(fs@[i]) by {
                        let t = if i < fs0.len() - m {
                            m + i
                        } else {
                            i - (fs0.len() - m)
                        };
                        assert(fs@[i] == fs0[t]);
                        assert(pending_on(b0, p@, fs0[t]));
                        let k = choose|k: int|
                            0 <= k < p@.len() && p@[k] < b0.nodes@.len() && b0.nodes@[p@[k] as int] is PendingFeature && same_feature(
                                fs0[t],
                                #[trigger] b0.nodes@[p@[k] as int]->PendingFeature_0,
                            );
                        lemma_closed_walk_cycles(l.nodes@.len(), es@, p@, c, k);
                        lemma_cycle_narrow(b0.dep(), edge_rel(es@), p@[k] as int);
                    }
                }
                Err(Error::Cycle(Cycle(fs)))
            },
            Ok(topo) => {
                proof {
                    lemma_topo_order_acyclic(l.nodes@.len(), es@, topo@);
                    lemma_dep_linked(b0, l);
                    assert forall|c: int| !#[trigger] on_cycle(b0.dep(), c) by {
                        if on_cycle(b0.dep(), c) {
                            let p = choose|p: Seq<int>| #[trigger] is_walk(b0.dep(), p) && p[0] == c && p.last() == c;
                            lemma_walk_widen(b0.dep(), edge_rel(es@), p);
                            assert(on_cycle(edge_rel(es@), c));
                        }
                    }
                }
                match find_conflict(&l, Ghost(b0)) {
                    Some((x, ps)) => {
                        let mut features: Vec<Feature> = Vec::new();
                        let mut a: usize = 0;
                        while a < ps.len()
                            invariant
                                linked_done(b0, l),
                                n0 == b0.spec_nodes().len(),
                                a <= ps@.len(),
                                features@.len() == a,
                                x < n0,
                                b0.spec_nodes()[x as int] is Item,
                                ps@.len() >= 2,
                                forall|t: int, u: int| 0 <= t < u < ps@.len() ==> ps@[t] != ps@[u],
                                forall|f: int| #[trigger] b0.is_provider(f, x as int) ==> ps@.contains(f as usize),
                                acyclic(b0.dep()),
                                forall|t: int| 0 <= t < ps@.len() ==> b0.is_provider(#[trigger] ps@[t] as int, x as int),
                                forall|t: int|
                                    0 <= t < a ==> same_feature(#[trigger] features@[t], b0.spec_nodes()[ps@[t] as int]->PendingFeature_0),
                            decreases ps.len() - a,
                        {
                            let f = ps[a];
                            proof {
                                assert(b0.is_provider(f as int, x as int));
                                lemma_prefix_index(b0.nodes@, l.nodes@, f as int);
                            }
                            match &l.nodes[f] {
                                Node::PendingFeature(feat) => {
                                    features.push(feat.duplicate());
                                },
                                _ => {
                                    proof {
                                        assert(false);
                                    }
                                },
                            }
                            a = a + 1;
                        }
                        proof {
                            lemma_prefix_index(b0.nodes@, l.nodes@, x as int);
                        }
                        let node = l.nodes.remove(x);
                        match node {
                            Node::Item(item) => {
                                proof {
                                    assert(b0.is_provider(ps@[0] as int, x as int));
                                    assert(b0.is_provider(ps@[1] as int, x as int));
                                    assert(b0.has_conflict());
                                    let ghost rr: Result<Graph, Error> = Err(Error::Conflict { item, features });
                                    assert(b0.conflict_at(x as int, ps@, rr->Err_0->Conflict_item, rr->Err_0->Conflict_features@));
                                }
                                return Err(Error::Conflict { item, features });
                            },
                            _ => {
                                proof {
                                    assert(false);
                                }
                                return Err(Error::Cycle(Cycle(Vec::new())));
                            },
                        }
                    },
                    None => {},
                }
                match find_violation(&l) {
                    Some(k) => {
                        let (src, _dst, w) = &l.edges[k];
                        let src = *src;
                        proof {
                            assert(endpoints(l.edges@)[k as int].0 == src);
                            if k < e0 {
                                lemma_prefix_index(b0.edges@, l.edges@, k as int);
                                assert(endpoints(b0.edges@)[k as int].0 < n0);
                                lemma_prefix_index(b0.nodes@, l.nodes@, src as int);
                                assert(!b0.inherited_ok(k as int));
                            } else {
                                let (i, j) = lemma_req_edge_at(b0, l, k as int);
                                let id = b0.req(i, j).key.id();
                                if lookup(b0.items@, id) is Some {
                                    lemma_lookup_names_item(b0, id);
                                    lemma_prefix_index(b0.nodes@, l.nodes@, src as int);
                                }
                                assert(!b0.req_ok(i, j));
                            }
                        }
                        let v = match w {
                            Edge::Requires(v) => v.duplicate(),
                            _ => {
                                proof {
                                    assert(false);
                                }
                                Validator::Exists
                            },
                        };
                        let node = l.nodes.remove(src);
                        match node {
                            Node::Item(item) => Err(Error::Unsatisfied { item, validator: v }),
                            Node::MissingItem(key) => Err(Error::MissingItem { key }),
                            _ => {
                                proof {
                                    assert(false);
                                }
                                Err(Error::Cycle(Cycle(Vec::new())))
                            },
                        }
                    },
                    None => {
                        proof {
                            lemma_no_violation(b0, l);
                            lemma_linked_grow(b0.edges@, l.edges@);
                            assert(linked(b0.edges@, end.0 as int, end.1 as int));
                            assert forall|a: int, c: int| #[trigger] b0.dep()(a, c) implies linked(l.edges@, a, c) by {
                                let k = choose|k: int| 0 <= k < es@.len() && (#[trigger] es@[k]).0 == a && es@[k].1 == c;
                                assert(es@[k] == (l.edges@[k].0, l.edges@[k].1));
                            }
                            assert forall|q: int| 0 <= q < l.items@.len() implies #[trigger] entry_names_node(l.nodes@, l.items@[q]) by {
                                if q < b0.items@.len() {
                                    lemma_prefix_index(b0.items@, l.items@, q);
                                    lemma_prefix_index(b0.nodes@, l.nodes@, b0.items@[q].1 as int);
                                }
                            }
                            lemma_prefix_index(b0.nodes@, l.nodes@, end.0 as int);
                            lemma_prefix_index(b0.nodes@, l.nodes@, end.1 as int);
                        }
                        Ok(
                            Graph {
                                nodes: l.nodes,
                                edges: l.edges,
                                root,
                                items: l.items,
                                topo,
                                end_start: end.0,
                                end_finish: end.1,
                            },
                        )
                    },
                }
            },
        }
    }
}

/// Whether the parts of a resolved graph fit together: edges between its
/// nodes, an order listing every node once with each edge going forward, a
/// key index of unique keys naming item or missing nodes under their own
/// keys, and the sentinels of the last phase, linked in order.
pub open spec fn graph_parts_wf(
    nodes: Seq<Node>,
    edges: Seq<(usize, usize, Edge)>,
    items: Seq<(ItemKey, usize)>,
    topo: Seq<usize>,
    end_start: usize,
    end_finish: usize,
) -> bool {
    let n = nodes.len();
    &&& edges_in_range(n, endpoints(edges))
    &&& is_topo_order(n, endpoints(edges), topo)
    &&& index_wf(nodes, items)
    &&& forall|i: int| 0 <= i < items.len() ==> #[trigger] entry_names_node(nodes, items[i])
    &&& end_start < n
    &&& end_finish < n
    &&& nodes[end_start as int] == Node::PhaseStart(Phase::End)
    &&& nodes[end_finish as int] == Node::PhaseEnd(Phase::End)
    &&& linked(edges, end_start as int, end_finish as int)
}

/// Whether a key index entry names an item or missing node with its key.
pub open spec fn entry_names_node(nodes: Seq<Node>, e: (ItemKey, usize)) -> bool {
    let x = e.1 as int;
    &&& nodes[x] is Item ==> nodes[x]->Item_0.spec_key().id() == e.0.id()
    &&& nodes[x] is MissingItem ==> nodes[x]->MissingItem_0.id() == e.0.id()
    &&& nodes[x] is Item || nodes[x] is MissingItem
}

/// A fully resolved layer: its graph, with every node in an order where each
/// edge goes forward.
#[derive(Debug)]
pub struct Graph {
    nodes: Vec<Node>,
    edges: Vec<(usize, usize, Edge)>,
    root: usize,
    items: Vec<(ItemKey, usize)>,
    topo: Vec<usize>,
    end_start: usize,
    end_finish: usize,
}

impl Graph {
    pub closed spec fn wf(&self) -> bool {
        graph_parts_wf(self.nodes@, self.edges@, self.items@, self.topo@, self.end_start, self.end_finish)
    }

    pub closed spec fn spec_nodes(&self) -> Seq<Node> {
        self.nodes@
    }

    pub closed spec fn spec_edges(&self) -> Seq<(usize, usize, Edge)> {
        self.edges@
    }

    pub closed spec fn spec_items(&self) -> Seq<(ItemKey, usize)> {
        self.items@
    }

    pub closed spec fn spec_topo(&self) -> Seq<usize> {
        self.topo@
    }

    /// The node that the item index maps `id` to.
    pub closed spec fn spec_node_for(&self, id: KeyId) -> Option<Node> {
        match lookup(self.items@, id) {
            Some(x) => if x < self.nodes@.len() {
                Some(self.nodes@[x as int])
            } else {
                None
            },
            None => None,
        }
    }

    /// The node registered under `key`, if any.
    pub fn node_for(&self, key: &ItemKey) -> (r: Option<&Node>)
        ensures
            match r {
                Some(n) => self.spec_node_for(key.id()) == Some(*n),
                None => self.spec_node_for(key.id()) is None,
            },
    {
        match find_key(&self.items, key) {
            Some(i) => {
                let x = self.items[i].1;
                proof {
                    lemma_lookup_first(self.items@, key.id(), i as int);
                }
                if x < self.nodes.len() {
                    Some(&self.nodes[x])
                } else {
                    None
                }
            },
            None => {
                proof {
                    lemma_lookup_none(self.items@, key.id());
                }
                None
            },
        }
    }
}

fn check_edges(n: usize, edges: &Vec<(usize, usize, Edge)>) -> (r: bool)
    ensures
        r == edges_in_range(n as nat, endpoints(edges@)),
{
    let mut k: usize = 0;
    while k < edges.len()
        invariant
            k <= edges@.len(),
            forall|k2: int| 0 <= k2 < k ==> (#[trigger] endpoints(edges@)[k2]).0 < n && endpoints(edges@)[k2].1 < n,
        decreases edges.len() - k,
    {
        proof {
            assert(endpoints(edges@)[k as int] == (edges@[k as int].0, edges@[k as int].1));
        }
        if edges[k].0 >= n || edges[k].1 >= n {
            return false;
        }
        k = k + 1;
    }
    true
}

fn check_order(n: usize, es: &Vec<(usize, usize)>, topo: &Vec<usize>) -> (r: bool)
    requires
        edges_in_range(n as nat, es@),
    ensures
        r == is_topo_order(n as nat, es@, topo@),
{
    if topo.len() != n {
        return false;
    }
    let mut pos: Vec<usize> = Vec::new();
    let mut y: usize = 0;
    while y < n
        invariant
            y <= n,
            pos@.len() == y,
            forall|z: int| 0 <= z < y ==> pos@[z] == n,
        decreases n - y,
    {
        pos.push(n);
        y = y + 1;
    }
    let mut i: usize = 0;
    while i < n
        invariant
            topo@.len() == n,
            pos@.len() == n,
            i <= n,
            forall|j: int| 0 <= j < i ==> (#[trigger] topo@[j]) < n && pos@[topo@[j] as int] == j,
            forall|z: int| 0 <= z < n && (#[trigger] pos@[z]) != n ==> pos@[z] < i && topo@[pos@[z] as int] == z,
        decreases n - i,
    {
        let x = topo[i];
        if x >= n {
            return false;
        }
        if pos[x] != n {
            proof {
                let j = pos@[x as int] as int;
                assert(topo@[j] == topo@[i as int]);
            }
            return false;
        }
        pos.set(x, i);
        i = i + 1;
    }
    proof {
        assert forall|a: int, b: int| 0 <= a < b < topo@.len() implies topo@[a] != topo@[b] by {
            assert(pos@[topo@[a] as int] == a);
            assert(pos@[topo@[b] as int] == b);
        }
    }
    let mut y: usize = 0;
    while y < n
        invariant
            topo@.len() == n,
            pos@.len() == n,
            y <= n,
            forall|j: int| 0 <= j < n ==> (#[trigger] topo@[j]) < n && pos@[topo@[j] as int] == j,
            forall|z: int| 0 <= z < n && (#[trigger] pos@[z]) != n ==> pos@[z] < n && topo@[pos@[z] as int] == z,
            forall|z: int| 0 <= z < y ==> #[trigger] listed(topo@, z),
        decreases n - y,
    {
        if pos[y] == n {
            proof {
                assert forall|j: int| 0 <= j < topo@.len() implies topo@[j] != y by {
                    assert(pos@[topo@[j] as int] == j);
                }
                assert(!listed(topo@, y as int));
            }
            return false;
        }
        proof {
            assert(topo@[pos@[y as int] as int] == y);
        }
        y = y + 1;
    }
    let mut k: usize = 0;
    while k < es.len()
        invariant
            topo@.len() == n,
            pos@.len() == n,
            edges_in_range(n as nat, es@),
            forall|j: int| 0 <= j < n ==> (#[trigger] topo@[j]) < n && pos@[topo@[j] as int] == j,
            forall|z: int| 0 <= z < n && (#[trigger] pos@[z]) != n ==> pos@[z] < n && topo@[pos@[z] as int] == z,
            forall|z: int| 0 <= z < n ==> #[trigger] listed(topo@, z),
            forall|k2: int| 0 <= k2 < k ==> pos@[(#[trigger] es@[k2]).0 as int] < pos@[es@[k2].1 as int],
            k <= es@.len(),
        decreases es.len() - k,
    {
        let (a, b) = es[k];
        proof {
            assert(listed(topo@, a as int));
            assert(listed(topo@, b as int));
            let ia = choose|i: int| 0 <= i < topo@.len() && topo@[i] == a;
            let ib = choose|i: int| 0 <= i < topo@.len() && topo@[i] == b;
            assert(pos@[topo@[ia] as int] == ia);
            assert(pos@[topo@[ib] as int] == ib);
        }
        if pos[a] >= pos[b] {
            proof {
                let ia = pos@[a as int] as int;
                let ib = pos@[b as int] as int;
                assert(topo@[ia] == es@[k as int].0 && topo@[ib] == es@[k as int].1);
            }
            return false;
        }
        k = k + 1;
    }
    proof {
        assert forall|k2: int, a: int, b: int|
            #![trigger es@[k2], topo@[a], topo@[b]]
            0 <= k2 < es@.len() && 0 <= a < topo@.len() && 0 <= b < topo@.len() && topo@[a] == es@[k2].0
                && topo@[b] == es@[k2].1 implies a < b by {
            assert(pos@[topo@[a] as int] == a);
            assert(pos@[topo@[b] as int] == b);
        }
    }
    true
}

fn check_index(nodes: &Vec<Node>, items: &Vec<(ItemKey, usize)>) -> (r: bool)
    ensures
        r == (index_wf(nodes@, items@) && forall|i: int| 0 <= i < items@.len() ==> #[trigger] entry_names_node(nodes@, items@[i])),
{
    let mut i: usize = 0;
    while i < items.len()
        invariant
            i <= items@.len(),
            forall|a: int, b: int| 0 <= a < b < i ==> (#[trigger] items@[a]).0.id() != (#[trigger] items@[b]).0.id(),
            forall|a: int| 0 <= a < i ==> (#[trigger] items@[a]).1 < nodes@.len() && entry_names_node(nodes@, items@[a]),
        decreases items.len() - i,
    {
        let (key, x) = &items[i];
        let mut j: usize = 0;
        while j < i
            invariant
                i < items@.len(),
                j <= i,
                *key == items@[i as int].0,
                forall|a: int| 0 <= a < j ==> (#[trigger] items@[a]).0.id() != items@[i as int].0.id(),
            decreases i - j,
        {
            if items[j].0.same(key) {
                return false;
            }
            j = j + 1;
        }
        if *x >= nodes.len() {
            return false;
        }
        let names = match &nodes[*x] {
            Node::Item(it) => it.key().same(key),
            Node::MissingItem(k) => k.same(key),
            _ => false,
        };
        if !names {
            proof {
                assert(!entry_names_node(nodes@, items@[i as int]));
            }
            return false;
        }
        i = i + 1;
    }
    true
}

fn check_end(nodes: &Vec<Node>, edges: &Vec<(usize, usize, Edge)>, s: usize, f: usize) -> (r: bool)
    ensures
        r == (s < nodes@.len() && f < nodes@.len() && nodes@[s as int] == Node::PhaseStart(Phase::End)
            && nodes@[f as int] == Node::PhaseEnd(Phase::End) && linked(edges@, s as int, f as int)),
{
    if s >= nodes.len() || f >= nodes.len() {
        return false;
    }
    let sentinels = match (&nodes[s], &nodes[f]) {
        (Node::PhaseStart(a), Node::PhaseEnd(b)) => *a == Phase::End && *b == Phase::End,
        _ => false,
    };
    if !sentinels {
        return false;
    }
    let mut k: usize = 0;
    while k < edges.len()
        invariant
            k <= edges@.len(),
            s < nodes@.len(),
            f < nodes@.len(),
            nodes@[s as int] == Node::PhaseStart(Phase::End),
            nodes@[f as int] == Node::PhaseEnd(Phase::End),
            forall|k2: int| 0 <= k2 < k ==> !((#[trigger] edges@[k2]).0 == s && edges@[k2].1 == f),
        decreases edges.len() - k,
    {
        if edges[k].0 == s && edges[k].1 == f {
            proof {
                assert(edges@[k as int].0 == s && edges@[k as int].1 == f);
            }
            return true;
        }
        k = k + 1;
    }
    false
}

impl Graph {
    /// A graph from its parts, as another process wrote them out, where they
    /// fit together as those of a resolved graph do; `None` where they do not.
    pub fn from_parts(
        nodes: Vec<Node>,
        edges: Vec<(usize, usize, Edge)>,
        root: usize,
        items: Vec<(ItemKey, usize)>,
        topo: Vec<usize>,
        end_start: usize,
        end_finish: usize,
    ) -> (r: Option<Graph>)
        ensures
            r is Some <==> graph_parts_wf(nodes@, edges@, items@, topo@, end_start, end_finish),
            r matches Some(g) ==> g.wf() && g.spec_nodes() == nodes@ && g.spec_edges() == edges@ && g.spec_items()
                == items@ && g.spec_topo() == topo@ && g.spec_end() == (end_start, end_finish),
    {
        if !check_edges(nodes.len(), &edges) {
            return None;
        }
        let es = endpoints_of(&edges);
        if !check_order(nodes.len(), &es, &topo) || !check_index(&nodes, &items) || !check_end(
            &nodes,
            &edges,
            end_start,
            end_finish,
        ) {
            return None;
        }
        Some(Graph { nodes, edges, root, items, topo, end_start, end_finish })
    }

    /// The key index: each key with the node registered under it.
    pub fn items(&self) -> (r: &Vec<(ItemKey, usize)>)
        ensures
            r@ == self.spec_items(),
    {
        &self.items
    }

    /// Every node, in an order where each edge goes forward.
    pub fn topo(&self) -> (r: &Vec<usize>)
        ensures
            r@ == self.spec_topo(),
    {
        &self.topo
    }

    /// The start of the first phase.
    pub fn root(&self) -> (r: usize)
        ensures
            r == self.spec_root(),
    {
        self.root
    }

    /// The start of the first phase.
    pub closed spec fn spec_root(&self) -> usize {
        self.root
    }

    /// The start and end sentinels of the last phase.
    pub fn end(&self) -> (r: (usize, usize))
        ensures
            r == self.spec_end(),
    {
        (self.end_start, self.end_finish)
    }
}

/// Every given entry, user and group is registered in `g1`; what `g0` had
/// registered stays where it was; new nodes are items; and where `g0` had
/// registered every key given, nothing is added.
pub open spec fn populate_post(
    g0: Graph,
    g1: Graph,
    entries: Seq<FsEntry>,
    users: Seq<String>,
    groups: Seq<String>,
) -> bool {
    &&& g1.wf()
    &&& g0.spec_nodes().is_prefix_of(g1.spec_nodes())
    &&& g0.spec_edges().is_prefix_of(g1.spec_edges())
    &&& g1.spec_end() == g0.spec_end()
    &&& forall|x: int| g0.spec_nodes().len() <= x < g1.spec_nodes().len() ==> #[trigger] g1.after_end(x)
    &&& forall|id: KeyId| g0.spec_lookup(id) is Some ==> #[trigger] g1.spec_lookup(id) == g0.spec_lookup(id)
    &&& forall|t: int| 0 <= t < entries.len() ==> g1.spec_lookup((0int, (#[trigger] entries[t]).path@)) is Some
    &&& forall|t: int| 0 <= t < users.len() ==> g1.spec_lookup((1int, (#[trigger] users[t])@)) is Some
    &&& forall|t: int| 0 <= t < groups.len() ==> g1.spec_lookup((2int, (#[trigger] groups[t])@)) is Some
    &&& forall|x: int| g0.spec_nodes().len() <= x < g1.spec_nodes().len() ==> (#[trigger] g1.spec_nodes()[x]) is Item
    &&& all_known(g0, entries, users, groups) ==> g1 == g0
    &&& forall|x: int|
        g0.spec_nodes().len() <= x < g1.spec_nodes().len() ==> #[trigger] new_node_ok(g0, g1, entries, users, groups, x)
    &&& forall|k: int|
        g0.spec_edges().len() <= k < g1.spec_edges().len() ==> #[trigger] new_edge_ok(g0, g1.spec_edges()[k])
}

/// Whether node `x` of `g1` is an item made of one of the given entries,
/// users or groups, whose key `g0` did not know and `g1` maps to `x`.
pub open spec fn new_node_ok(
    g0: Graph,
    g1: Graph,
    entries: Seq<FsEntry>,
    users: Seq<String>,
    groups: Seq<String>,
    x: int,
) -> bool {
    let n = g1.spec_nodes()[x];
    &&& n is Item
    &&& g0.spec_lookup(n->Item_0.spec_key().id()) is None
    &&& g1.spec_lookup(n->Item_0.spec_key().id()) == Some(x as usize)
    &&& found_item(n->Item_0, entries, users, groups)
}

/// Whether `i` is the item of one of the given entries, users or groups.
pub open spec fn found_item(i: Item, entries: Seq<FsEntry>, users: Seq<String>, groups: Seq<String>) -> bool {
    ||| exists|t: int| 0 <= t < entries.len() && i == Item::Path(PathItem::Entry(#[trigger] entries[t]))
    ||| exists|t: int| 0 <= t < users.len() && i == Item::User(User { name: #[trigger] users[t] })
    ||| exists|t: int| 0 <= t < groups.len() && i == Item::Group(Group { name: #[trigger] groups[t] })
}

/// Whether `e` is one of the two edges that place a new node inside the last
/// phase of `g0`: from its start, or to its end.
pub open spec fn new_edge_ok(g0: Graph, e: (usize, usize, Edge)) -> bool {
    ||| e.0 == g0.spec_end().0 && e.1 >= g0.spec_nodes().len() && e.2 == Edge::PartOf
    ||| e.0 >= g0.spec_nodes().len() && e.1 == g0.spec_end().1 && e.2 == Edge::After
}

/// Whether `g` already registers every given entry, user and group.
pub open spec fn all_known(g: Graph, entries: Seq<FsEntry>, users: Seq<String>, groups: Seq<String>) -> bool {
    &&& forall|t: int| 0 <= t < entries.len() ==> g.spec_lookup((0int, (#[trigger] entries[t]).path@)) is Some
    &&& forall|t: int| 0 <= t < users.len() ==> g.spec_lookup((1int, (#[trigger] users[t])@)) is Some
    &&& forall|t: int| 0 <= t < groups.len() ==> g.spec_lookup((2int, (#[trigger] groups[t])@)) is Some
}

fn position_of(order: &Vec<usize>, x: usize) -> (p: usize)
    requires
        listed(order@, x as int),
    ensures
        p < order@.len(),
        order@[p as int] == x,
{
    let mut p: usize = 0;
    while p < order.len()
        invariant
            listed(order@, x as int),
            p <= order@.len(),
            forall|i: int| 0 <= i < p ==> order@[i] != x,
        decreases order.len() - p,
    {
        if order[p] == x {
            return p;
        }
        p = p + 1;
    }
    proof {
        let i = choose|i: int| 0 <= i < order@.len() && order@[i] == x;
    }
    0
}

impl Graph {
    /// The node that the key index maps `id` to.
    pub closed spec fn spec_lookup(&self, id: KeyId) -> Option<usize> {
        lookup(self.items@, id)
    }

    /// The start and end sentinels of the last phase.
    pub closed spec fn spec_end(&self) -> (usize, usize) {
        (self.end_start, self.end_finish)
    }

    /// Whether node `x` is ordered inside the last phase.
    pub open spec fn after_end(&self, x: int) -> bool {
        &&& linked(self.spec_edges(), self.spec_end().0 as int, x)
        &&& linked(self.spec_edges(), x, self.spec_end().1 as int)
    }

    /// The nodes of this layer's features, in the order in which they run.
    pub open spec fn spec_pending_order(&self) -> Seq<usize> {
        self.spec_topo().filter(|x: usize| self.spec_nodes()[x as int] is PendingFeature)
    }

    /// A builder for a layer on top of `parent`, or for a first layer.
    pub fn builder(parent: Option<Graph>) -> (r: GraphBuilder)
        requires
            parent is Some ==> parent->Some_0.wf(),
        ensures
            r.wf(),
            r.spec_pending().len() == 0,
    {
        GraphBuilder::new(parent)
    }

    /// The nodes of the graph, by index.
    pub fn nodes(&self) -> (r: &Vec<Node>)
        ensures
            r@ == self.spec_nodes(),
    {
        &self.nodes
    }

    /// The edges of the graph, as source, target and kind.
    pub fn edges(&self) -> (r: &Vec<(usize, usize, Edge)>)
        ensures
            r@ == self.spec_edges(),
    {
        &self.edges
    }

    /// The number of nodes of the graph.
    pub fn node_count(&self) -> (r: usize)
        ensures
            r == self.spec_nodes().len(),
    {
        self.nodes.len()
    }

    /// The features of this layer, in the order in which they run; features
    /// of parent layers are left out.
    pub fn pending_features(&self) -> (r: Vec<Feature>)
        requires
            self.wf(),
        ensures
            r@.len() == self.spec_pending_order().len(),
            forall|i: int|
                0 <= i < r@.len() ==> same_feature(
                    #[trigger] r@[i],
                    self.spec_nodes()[self.spec_pending_order()[i] as int]->PendingFeature_0,
                ),
    {
        let ghost pred = |x: usize| self.spec_nodes()[x as int] is PendingFeature;
        let mut r: Vec<Feature> = Vec::new();
        let mut i: usize = 0;
        while i < self.topo.len()
            invariant
                self.wf(),
                i <= self.topo@.len(),
                pred == (|x: usize| self.spec_nodes()[x as int] is PendingFeature),
                r@.len() == self.topo@.subrange(0, i as int).filter(pred).len(),
                forall|t: int|
                    0 <= t < r@.len() ==> same_feature(
                        #[trigger] r@[t],
                        self.nodes@[self.topo@.subrange(0, i as int).filter(pred)[t] as int]->PendingFeature_0,
                    ),
            decreases self.topo.len() - i,
        {
            let x = self.topo[i];
            let ghost before = self.topo@.subrange(0, i as int);
            let ghost after = self.topo@.subrange(0, i as int + 1);
            proof {
                reveal(Seq::filter);
                assert(after.drop_last() =~= before);
                assert(after.last() == x);
                assert(x < self.nodes@.len());
            }
            match &self.nodes[x] {
                Node::PendingFeature(f) => {
                    r.push(f.duplicate());
                    proof {
                        assert(after.filter(pred) == before.filter(pred).push(x));
                    }
                },
                _ => {
                    proof {
                        assert(after.filter(pred) == before.filter(pred));
                    }
                },
            }
            i = i + 1;
        }
        proof {
            assert(self.topo@.subrange(0, self.topo@.len() as int) =~= self.topo@);
        }
        r
    }

    /// Registers `item` after the end of the build, unless something is
    /// already registered under its key.
    fn add_dynamic(&mut self, item: Item)
        requires
            old(self).wf(),
        ensures
            final(self).wf(),
            old(self).spec_nodes().is_prefix_of(final(self).spec_nodes()),
            final(self).spec_lookup(item.spec_key().id()) is Some,
            forall|id: KeyId| old(self).spec_lookup(id) is Some ==> #[trigger] final(self).spec_lookup(id) == old(self).spec_lookup(id),
            forall|x: int| old(self).spec_nodes().len() <= x < final(self).spec_nodes().len() ==> (#[trigger] final(self).spec_nodes()[x]) is Item,
            old(self).spec_lookup(item.spec_key().id()) is Some ==> final(self).spec_nodes() == old(self).spec_nodes(),
            old(self).spec_edges().is_prefix_of(final(self).spec_edges()),
            final(self).spec_end() == old(self).spec_end(),
            forall|x: int| old(self).spec_nodes().len() <= x < final(self).spec_nodes().len() ==> #[trigger] final(self).after_end(x),
            old(self).spec_nodes().len() <= usize::MAX,
            old(self).spec_lookup(item.spec_key().id()) is Some ==> *final(self) == *old(self),
            old(self).spec_lookup(item.spec_key().id()) is None ==> {
                let x = old(self).spec_nodes().len() as usize;
                &&& final(self).spec_nodes() == old(self).spec_nodes().push(Node::Item(item))
                &&& final(self).spec_edges() == old(self).spec_edges().push((old(self).spec_end().0, x, Edge::PartOf)).push(
                    (x, old(self).spec_end().1, Edge::After),
                )
                &&& final(self).spec_lookup(item.spec_key().id()) == Some(x)
            },
    {
        let count = self.nodes.len();
        let key = item.key();
        let ghost id = key.id();
        match find_key(&self.items, &key) {
            Some(q) => {
                proof {
                    lemma_lookup_first(self.items@, id, q as int);
                    assert(count == self.nodes@.len());
                }
            },
            None => {
                proof {
                    lemma_lookup_none(self.items@, id);
                }
                let x = self.nodes.len();
                let ghost es0 = endpoints(self.edges@);
                proof {
                    let k = choose|k: int| 0 <= k < self.edges@.len() && (#[trigger] self.edges@[k]).0 == self.end_start && self.edges@[k].1 == self.end_finish;
                    assert(es0[k] == (self.end_start, self.end_finish));
                    assert(listed(self.topo@, self.end_start as int));
                    assert(listed(self.topo@, self.end_finish as int));
                }
                let p = position_of(&self.topo, self.end_finish);
                proof {
                    let k = choose|k: int| 0 <= k < self.edges@.len() && (#[trigger] self.edges@[k]).0 == self.end_start && self.edges@[k].1 == self.end_finish;
                    let si = choose|i: int| 0 <= i < self.topo@.len() && self.topo@[i] == self.end_start;
                    assert(es0[k] == (self.end_start, self.end_finish));
                    assert(si < p);
                    lemma_topo_insert(x as nat, es0, self.topo@, p as int, self.end_start, self.end_finish);
                }
                self.nodes.push(Node::Item(item));
                self.items.push((key, x));
                self.edges.push((self.end_start, x, Edge::PartOf));
                self.edges.push((x, self.end_finish, Edge::After));
                self.topo.insert(p, x);
                proof {
                    let g0 = *old(self);
                    assert(endpoints(self.edges@) =~= es0.push((g0.end_start, x)).push((x, g0.end_finish)));
                    lemma_linked_grow(g0.edges@, self.edges@);
                    assert forall|id2: KeyId| id2 != id implies #[trigger] lookup(self.items@, id2) == lookup(g0.items@, id2) by {
                        lemma_lookup_push_other(g0.items@, (key, x), id2);
                    }
                    assert forall|j: int| 0 <= j < g0.items@.len() implies (#[trigger] self.items@[j]).0.id() != id by {
                        assert(self.items@[j] == g0.items@[j]);
                    }
                    lemma_lookup_at(self.items@, g0.items@.len() as int);
                    assert(self.edges@[self.edges@.len() - 2] == (g0.end_start, x, Edge::PartOf));
                    assert(self.edges@[self.edges@.len() - 1] == (x, g0.end_finish, Edge::After));
                    assert(self.after_end(x as int));
                    assert forall|q: int| 0 <= q < self.items@.len() implies #[trigger] entry_names_node(self.nodes@, self.items@[q]) by {
                        if q < g0.items@.len() {
                            assert(self.items@[q] == g0.items@[q]);
                            assert(entry_names_node(g0.nodes@, g0.items@[q]));
                            assert(self.nodes@[g0.items@[q].1 as int] == g0.nodes@[g0.items@[q].1 as int]);
                        } else {
                            assert(self.nodes@[x as int] == Node::Item(item));
                        }
                    }
                    assert forall|q1: int, q2: int| 0 <= q1 < q2 < self.items@.len() implies (#[trigger] self.items@[q1]).0.id()
                        != (#[trigger] self.items@[q2]).0.id() by {
                        assert(self.items@[q1] == g0.items@[q1]);
                        if q2 < g0.items@.len() {
                            assert(self.items@[q2] == g0.items@[q2]);
                        }
                    }
                    assert forall|q: int| 0 <= q < self.items@.len() implies (#[trigger] self.items@[q]).1 < self.nodes@.len() by {
                        if q < g0.items@.len() {
                            assert(self.items@[q] == g0.items@[q]);
                        }
                    }
                }
            },
        }
    }

    /// Registers, after the end of the build, each path, user and group
    /// found once the layer was built whose key is not registered yet. What
    /// is registered already stays as it is.
    pub fn populate_dynamic_items(&mut self, entries: Vec<FsEntry>, users: Vec<String>, groups: Vec<String>)
        requires
            old(self).wf(),
        ensures
            populate_post(*old(self), *final(self), entries@, users@, groups@),
    {
        let ghost g0 = *self;
        let mut t: usize = 0;
        while t < entries.len()
            invariant
                self.wf(),
                g0.spec_nodes().is_prefix_of(self.spec_nodes()),
                g0.spec_edges().is_prefix_of(self.spec_edges()),
                self.spec_end() == g0.spec_end(),
                forall|x: int| g0.spec_nodes().len() <= x < self.spec_nodes().len() ==> #[trigger] self.after_end(x),
                forall|id: KeyId| g0.spec_lookup(id) is Some ==> #[trigger] self.spec_lookup(id) == g0.spec_lookup(id),
                forall|x: int| g0.spec_nodes().len() <= x < self.spec_nodes().len() ==> (#[trigger] self.spec_nodes()[x]) is Item,
                t <= entries@.len(),
                forall|u: int| 0 <= u < t ==> self.spec_lookup((0int, (#[trigger] entries@[u]).path@)) is Some,
                all_known(g0, entries@, users@, groups@) ==> *self == g0,
                forall|x: int|
                    g0.spec_nodes().len() <= x < self.spec_nodes().len() ==> #[trigger] new_node_ok(g0, *self, entries@, users@, groups@, x),
                forall|k: int|
                    g0.spec_edges().len() <= k < self.spec_edges().len() ==> #[trigger] new_edge_ok(g0, self.spec_edges()[k]),
            decreases entries.len() - t,
        {
            let e = &entries[t];
            let ghost before = *self;
            let it = Item::Path(PathItem::Entry(FsEntry { path: e.path.clone(), file_type: e.file_type, mode: e.mode }));
            proof {
                assert(it == Item::Path(PathItem::Entry(entries@[t as int])));
            }
            let ghost git = it;
            self.add_dynamic(it);
            proof {
                lemma_populate_step(g0, before, *self, git, entries@, users@, groups@);
            }
            proof {
                lemma_prefix_trans(g0.spec_nodes(), before.spec_nodes(), self.spec_nodes());
                lemma_prefix_trans(g0.spec_edges(), before.spec_edges(), self.spec_edges());
                lemma_linked_grow(before.spec_edges(), self.spec_edges());
                assert forall|x: int| g0.spec_nodes().len() <= x < self.spec_nodes().len() implies #[trigger] self.after_end(x) by {
                    if x < before.spec_nodes().len() {
                        assert(before.after_end(x));
                    }
                }
                assert forall|u: int| 0 <= u < t + 1 implies self.spec_lookup((0int, (#[trigger] entries@[u]).path@)) is Some by {
                    if u < t {
                        assert(before.spec_lookup((0int, entries@[u].path@)) is Some);
                    }
                }
                assert forall|x: int| g0.spec_nodes().len() <= x < self.spec_nodes().len() implies (#[trigger] self.spec_nodes()[x]) is Item by {
                    if x < before.spec_nodes().len() {
                        lemma_prefix_index(before.spec_nodes(), self.spec_nodes(), x);
                    }
                }
                if all_known(g0, entries@, users@, groups@) {
                    assert(g0.spec_lookup((0int, entries@[t as int].path@)) is Some);
                }
            }
            t = t + 1;
        }
        let mut t: usize = 0;
        while t < users.len()
            invariant
                self.wf(),
                g0.spec_nodes().is_prefix_of(self.spec_nodes()),
                g0.spec_edges().is_prefix_of(self.spec_edges()),
                self.spec_end() == g0.spec_end(),
                forall|x: int| g0.spec_nodes().len() <= x < self.spec_nodes().len() ==> #[trigger] self.after_end(x),
                forall|id: KeyId| g0.spec_lookup(id) is Some ==> #[trigger] self.spec_lookup(id) == g0.spec_lookup(id),
                forall|x: int| g0.spec_nodes().len() <= x < self.spec_nodes().len() ==> (#[trigger] self.spec_nodes()[x]) is Item,
                t <= users@.len(),
                forall|u: int| 0 <= u < entries@.len() ==> self.spec_lookup((0int, (#[trigger] entries@[u]).path@)) is Some,
                forall|u: int| 0 <= u < t ==> self.spec_lookup((1int, (#[trigger] users@[u])@)) is Some,
                all_known(g0, entries@, users@, groups@) ==> *self == g0,
                forall|x: int|
                    g0.spec_nodes().len() <= x < self.spec_nodes().len() ==> #[trigger] new_node_ok(g0, *self, entries@, users@, groups@, x),
                forall|k: int|
                    g0.spec_edges().len() <= k < self.spec_edges().len() ==> #[trigger] new_edge_ok(g0, self.spec_edges()[k]),
            decreases users.len() - t,
        {
            let ghost before = *self;
            let it = Item::User(User { name: users[t].clone() });
            proof {
                assert(it == Item::User(User { name: users@[t as int] }));
            }
            let ghost git = it;
            self.add_dynamic(it);
            proof {
                lemma_populate_step(g0, before, *self, git, entries@, users@, groups@);
            }
            proof {
                lemma_prefix_trans(g0.spec_nodes(), before.spec_nodes(), self.spec_nodes());
                lemma_prefix_trans(g0.spec_edges(), before.spec_edges(), self.spec_edges());
                lemma_linked_grow(before.spec_edges(), self.spec_edges());
                assert forall|x: int| g0.spec_nodes().len() <= x < self.spec_nodes().len() implies #[trigger] self.after_end(x) by {
                    if x < before.spec_nodes().len() {
                        assert(before.after_end(x));
                    }
                }
                assert forall|u: int| 0 <= u < entries@.len() implies self.spec_lookup((0int, (#[trigger] entries@[u]).path@)) is Some by {
                    assert(before.spec_lookup((0int, entries@[u].path@)) is Some);
                }
                assert forall|u: int| 0 <= u < t + 1 implies self.spec_lookup((1int, (#[trigger] users@[u])@)) is Some by {
                    if u < t {
                        assert(before.spec_lookup((1int, users@[u]@)) is Some);
                    }
                }
                assert forall|x: int| g0.spec_nodes().len() <= x < self.spec_nodes().len() implies (#[trigger] self.spec_nodes()[x]) is Item by {
                    if x < before.spec_nodes().len() {
                        lemma_prefix_index(before.spec_nodes(), self.spec_nodes(), x);
                    }
                }
                if all_known(g0, entries@, users@, groups@) {
                    assert(g0.spec_lookup((1int, users@[t as int]@)) is Some);
                }
            }
            t = t + 1;
        }
        let mut t: usize = 0;
        while t < groups.len()
            invariant
                self.wf(),
                g0.spec_nodes().is_prefix_of(self.spec_nodes()),
                g0.spec_edges().is_prefix_of(self.spec_edges()),
                self.spec_end() == g0.spec_end(),
                forall|x: int| g0.spec_nodes().len() <= x < self.spec_nodes().len() ==> #[trigger] self.after_end(x),
                forall|id: KeyId| g0.spec_lookup(id) is Some ==> #[trigger] self.spec_lookup(id) == g0.spec_lookup(id),
                forall|x: int| g0.spec_nodes().len() <= x < self.spec_nodes().len() ==> (#[trigger] self.spec_nodes()[x]) is Item,
                t <= groups@.len(),
                forall|u: int| 0 <= u < entries@.len() ==> self.spec_lookup((0int, (#[trigger] entries@[u]).path@)) is Some,
                forall|u: int| 0 <= u < users@.len() ==> self.spec_lookup((1int, (#[trigger] users@[u])@)) is Some,
                forall|u: int| 0 <= u < t ==> self.spec_lookup((2int, (#[trigger] groups@[u])@)) is Some,
                all_known(g0, entries@, users@, groups@) ==> *self == g0,
                forall|x: int|
                    g0.spec_nodes().len() <= x < self.spec_nodes().len() ==> #[trigger] new_node_ok(g0, *self, entries@, users@, groups@, x),
                forall|k: int|
                    g0.spec_edges().len() <= k < self.spec_edges().len() ==> #[trigger] new_edge_ok(g0, self.spec_edges()[k]),
            decreases groups.len() - t,
        {
            let ghost before = *self;
            let it = Item::Group(Group { name: groups[t].clone() });
            proof {
                assert(it == Item::Group(Group { name: groups@[t as int] }));
            }
            let ghost git = it;
            self.add_dynamic(it);
            proof {
                lemma_populate_step(g0, before, *self, git, entries@, users@, groups@);
            }
            proof {
                lemma_prefix_trans(g0.spec_nodes(), before.spec_nodes(), self.spec_nodes());
                lemma_prefix_trans(g0.spec_edges(), before.spec_edges(), self.spec_edges());
                lemma_linked_grow(before.spec_edges(), self.spec_edges());
                assert forall|x: int| g0.spec_nodes().len() <= x < self.spec_nodes().len() implies #[trigger] self.after_end(x) by {
                    if x < before.spec_nodes().len() {
                        assert(before.after_end(x));
                    }
                }
                assert forall|u: int| 0 <= u < entries@.len() implies self.spec_lookup((0int, (#[trigger] entries@[u]).path@)) is Some by {
                    assert(before.spec_lookup((0int, entries@[u].path@)) is Some);
                }
                assert forall|u: int| 0 <= u < users@.len() implies self.spec_lookup((1int, (#[trigger] users@[u])@)) is Some by {
                    assert(before.spec_lookup((1int, users@[u]@)) is Some);
                }
                assert forall|u: int| 0 <= u < t + 1 implies self.spec_lookup((2int, (#[trigger] groups@[u])@)) is Some by {
                    if u < t {
                        assert(before.spec_lookup((2int, groups@[u]@)) is Some);
                    }
                }
                assert forall|x: int| g0.spec_nodes().len() <= x < self.spec_nodes().len() implies (#[trigger] self.spec_nodes()[x]) is Item by {
                    if x < before.spec_nodes().len() {
                        lemma_prefix_index(before.spec_nodes(), self.spec_nodes(), x);
                    }
                }
                if all_known(g0, entries@, users@, groups@) {
                    assert(g0.spec_lookup((2int, groups@[t as int]@)) is Some);
                }
            }
            t = t + 1;
        }
    }
}

/// One registration keeps what `populate_post` says of every node and edge
/// added since `g0`.
proof fn lemma_populate_step(
    g0: Graph,
    before: Graph,
    after: Graph,
    item: Item,
    entries: Seq<FsEntry>,
    users: Seq<String>,
    groups: Seq<String>,
)
    requires
        before.wf(),
        before.spec_nodes().len() <= usize::MAX,
        found_item(item, entries, users, groups),
        g0.spec_nodes().is_prefix_of(before.spec_nodes()),
        before.spec_end() == g0.spec_end(),
        forall|id: KeyId| g0.spec_lookup(id) is Some ==> #[trigger] before.spec_lookup(id) == g0.spec_lookup(id),
        forall|x: int|
            g0.spec_nodes().len() <= x < before.spec_nodes().len() ==> #[trigger] new_node_ok(g0, before, entries, users, groups, x),
        forall|k: int|
            g0.spec_edges().len() <= k < before.spec_edges().len() ==> #[trigger] new_edge_ok(g0, before.spec_edges()[k]),
        before.spec_nodes().is_prefix_of(after.spec_nodes()),
        before.spec_edges().is_prefix_of(after.spec_edges()),
        forall|id: KeyId| before.spec_lookup(id) is Some ==> #[trigger] after.spec_lookup(id) == before.spec_lookup(id),
        before.spec_lookup(item.spec_key().id()) is Some ==> after == before,
        before.spec_lookup(item.spec_key().id()) is None ==> {
            let x = before.spec_nodes().len() as usize;
            &&& after.spec_nodes() == before.spec_nodes().push(Node::Item(item))
            &&& after.spec_edges() == before.spec_edges().push((before.spec_end().0, x, Edge::PartOf)).push(
                (x, before.spec_end().1, Edge::After),
            )
            &&& after.spec_lookup(item.spec_key().id()) == Some(x)
        },
    ensures
        forall|x: int|
            g0.spec_nodes().len() <= x < after.spec_nodes().len() ==> #[trigger] new_node_ok(g0, after, entries, users, groups, x),
        forall|k: int|
            g0.spec_edges().len() <= k < after.spec_edges().len() ==> #[trigger] new_edge_ok(g0, after.spec_edges()[k]),
{
    if before.spec_lookup(item.spec_key().id()) is None {
        if g0.spec_lookup(item.spec_key().id()) is Some {
            assert(before.spec_lookup(item.spec_key().id()) == g0.spec_lookup(item.spec_key().id()));
        }
        assert(g0.spec_nodes().len() <= before.spec_nodes().len());
    }
    assert forall|x: int|
        g0.spec_nodes().len() <= x < after.spec_nodes().len() implies #[trigger] new_node_ok(g0, after, entries, users, groups, x) by {
        if x < before.spec_nodes().len() {
            assert(new_node_ok(g0, before, entries, users, groups, x));
            lemma_prefix_index(before.spec_nodes(), after.spec_nodes(), x);
        }
    }
    assert forall|k: int|
        g0.spec_edges().len() <= k < after.spec_edges().len() implies #[trigger] new_edge_ok(g0, after.spec_edges()[k]) by {
        if k < before.spec_edges().len() {
            assert(new_edge_ok(g0, before.spec_edges()[k]));
            lemma_prefix_index(before.spec_edges(), after.spec_edges(), k);
        }
    }
}

proof fn lemma_prefix_trans<A>(a: Seq<A>, b: Seq<A>, c: Seq<A>)
    requires
        a.is_prefix_of(b),
        b.is_prefix_of(c),
    ensures
        a.is_prefix_of(c),
{
    assert forall|i: int| 0 <= i < a.len() implies a[i] == c[i] by {
        lemma_prefix_index(a, b, i);
        lemma_prefix_index(b, c, i);
    }
    assert(a =~= c.subrange(0, a.len() as int));
}

/// A layer whose dependencies form no cycle, where no item has two
/// providers among the layer's features and every requirement is met,
/// resolves.
pub proof fn law_consistent_layer_resolves(b: GraphBuilder, r: Result<Graph, Error>)
    requires
        b.wf(),
        b.build_post(r),
        acyclic(b.dep()),
        !b.has_conflict(),
        b.requirements_ok(),
    ensures
        r is Ok,
{
}

/// Every feature added to a layer that resolves is a feature node of the
/// resolved graph, listed exactly once in its execution order; and each
/// feature node of the resolved graph is one that was added.
pub proof fn law_each_feature_once(b: GraphBuilder, g: Graph, i: int)
    requires
        b.wf(),
        b.build_post(Ok(g)),
        0 <= i < b.spec_pending().len(),
    ensures
        g.spec_nodes()[b.spec_pending()[i] as int] is PendingFeature,
        exists|t: int| 0 <= t < g.spec_topo().len() && g.spec_topo()[t] == b.spec_pending()[i],
        forall|t: int, u: int|
            0 <= t < u < g.spec_topo().len() && g.spec_topo()[t] == b.spec_pending()[i] ==> g.spec_topo()[u]
                != b.spec_pending()[i],
        forall|x: int|
            0 <= x < g.spec_nodes().len() && (#[trigger] g.spec_nodes()[x]) is PendingFeature ==> exists|i2: int|
                0 <= i2 < b.spec_pending().len() && b.spec_pending()[i2] == x,
{
    let f = b.pending_features@[i];
    lemma_prefix_index(b.nodes@, g.nodes@, f as int);
    assert(listed(g.topo@, f as int));
    let t = choose|t: int| 0 <= t < g.topo@.len() && g.topo@[t] == f;
    assert(g.spec_topo()[t] == b.spec_pending()[i]);
    assert forall|x: int|
        0 <= x < g.spec_nodes().len() && (#[trigger] g.spec_nodes()[x]) is PendingFeature implies exists|i2: int|
            0 <= i2 < b.spec_pending().len() && b.spec_pending()[i2] == x by {
        if x < b.nodes@.len() {
            lemma_prefix_index(b.nodes@, g.nodes@, x);
        }
    }
}

/// In a layer that resolves, what a feature depends on, directly or through
/// other nodes, comes before it in the execution order.
pub proof fn law_dependencies_run_first(b: GraphBuilder, g: Graph, p: Seq<int>)
    requires
        b.wf(),
        b.build_post(Ok(g)),
        is_walk(b.dep(), p),
    ensures
        position(g.spec_topo(), p[0]) < position(g.spec_topo(), p.last()),
{
    let es = endpoints(g.edges@);
    assert forall|a: int, c: int| #[trigger] b.dep()(a, c) implies edge_rel(es)(a, c) by {
        assert(linked(g.edges@, a, c));
        let k = choose|k: int| 0 <= k < g.edges@.len() && (#[trigger] g.edges@[k]).0 == a && g.edges@[k].1 == c;
        assert(es[k] == (g.edges@[k].0, g.edges@[k].1));
    }
    lemma_walk_widen(b.dep(), edge_rel(es), p);
    lemma_walk_rises(g.nodes@.len(), es, g.topo@, p, p.len() - 1);
}

/// Two features of a layer that each require an item that the other
/// provides depend on each other in a circle, and resolving the layer
/// reports a cycle, made of the layer's own features, least first.
pub proof fn law_mutual_requirement_is_cycle(
    b: GraphBuilder,
    r: Result<Graph, Error>,
    ia: int,
    ja: int,
    ib: int,
    jb: int,
    x: int,
    y: int,
)
    requires
        b.wf(),
        b.build_post(r),
        b.resolves_to(ia, ja, x),
        b.resolves_to(ib, jb, y),
        b.provides_edge(b.spec_pending()[ib] as int, x),
        b.provides_edge(b.spec_pending()[ia] as int, y),
    ensures
        !acyclic(b.dep()),
        r matches Err(Error::Cycle(c)) && forall|i: int| 0 <= i < c.0@.len() ==> #[trigger] b.has_cyclic_pending(c.0@[i])
            && !c.0@[i].spec_lt(&c.0@[0]),
{
    let fa = b.pending_features@[ia] as int;
    let fb = b.pending_features@[ib] as int;
    let p = seq![fa, y, fb, x, fa];
    let rel = b.dep();
    assert(linked(b.edges@, fa, y)) by {
        let k = choose|k: int| 0 <= k < b.edges@.len() && (#[trigger] b.edges@[k]).0 == fa && b.edges@[k].1 == y && b.edges@[k].2 is Provides;
    }
    assert(linked(b.edges@, fb, x)) by {
        let k = choose|k: int| 0 <= k < b.edges@.len() && (#[trigger] b.edges@[k]).0 == fb && b.edges@[k].1 == x && b.edges@[k].2 is Provides;
    }
    assert(rel(p[0int], p[0int + 1]));
    assert(rel(p[1int], p[1int + 1]));
    assert(rel(p[2int], p[2int + 1]));
    assert(rel(p[3int], p[3int + 1]));
    assert(is_walk(rel, p));
    assert(on_cycle(rel, fa));
}

/// Where exactly two features of a layer provide an item, and no other
/// item has two providers, resolving the layer (if it has no cycle)
/// reports that item and exactly those two features.
pub proof fn law_two_providers_conflict(b: GraphBuilder, r: Result<Graph, Error>, x: int, f1: int, f2: int)
    requires
        b.wf(),
        b.build_post(r),
        acyclic(b.dep()),
        0 <= x < b.spec_nodes().len(),
        b.spec_nodes()[x] is Item,
        f1 != f2,
        b.is_provider(f1, x),
        b.is_provider(f2, x),
        forall|f: int| #[trigger] b.is_provider(f, x) ==> f == f1 || f == f2,
        forall|y: int, g1: int, g2: int|
            y != x && #[trigger] b.is_provider(g1, y) && #[trigger] b.is_provider(g2, y) ==> g1 == g2,
    ensures
        r matches Err(Error::Conflict { item, features }) && b.spec_nodes()[x] == Node::Item(item)
            && features@.len() == 2 && ((same_feature(features@[0], b.spec_nodes()[f1]->PendingFeature_0)
            && same_feature(features@[1], b.spec_nodes()[f2]->PendingFeature_0)) || (same_feature(
            features@[0],
            b.spec_nodes()[f2]->PendingFeature_0,
        ) && same_feature(features@[1], b.spec_nodes()[f1]->PendingFeature_0))),
{
    assert(b.has_conflict());
    match r {
        Err(Error::Conflict { item, features }) => {
            let (x2, ps) = choose|x2: int, ps: Seq<usize>| #[trigger] b.conflict_at(x2, ps, item, features@);
            assert(same_feature(features@[0], b.nodes@[ps[0] as int]->PendingFeature_0));
            assert(same_feature(features@[1], b.nodes@[ps[1] as int]->PendingFeature_0));
            assert(b.is_provider(ps[0] as int, x2) && b.is_provider(ps[1] as int, x2));
            assert(ps[0] != ps[1]);
            assert(x2 == x);
            assert(ps.contains(f1 as usize) && ps.contains(f2 as usize));
            if ps.len() > 2 {
                assert(same_feature(features@[2], b.nodes@[ps[2] as int]->PendingFeature_0));
                assert(b.is_provider(ps[2] as int, x));
                assert(ps[0] != ps[2] && ps[1] != ps[2]);
            }
            assert(ps[0] == f1 || ps[0] == f2);
            assert(ps[1] == f1 || ps[1] == f2);
        },
        _ => {},
    }
}

/// Where a feature requires a key that nothing provides, and demands that
/// it exist, while every other requirement is met and the layer has no
/// cycle and no conflicting providers, resolving the layer reports a key
/// that is missing.
pub proof fn law_missing_key(b: GraphBuilder, r: Result<Graph, Error>, i: int, j: int)
    requires
        b.wf(),
        b.build_post(r),
        acyclic(b.dep()),
        !b.has_conflict(),
        b.is_req(i, j),
        b.spec_lookup(b.req(i, j).key.id()) is None,
        !b.req(i, j).validator.spec_is_absence(),
        forall|k: int| 0 <= k < b.spec_edges().len() ==> #[trigger] b.inherited_ok(k),
        forall|i2: int, j2: int|
            #[trigger] b.is_req(i2, j2) && b.spec_lookup(b.req(i2, j2).key.id()) is Some ==> b.req_ok(i2, j2),
    ensures
        r matches Err(Error::MissingItem { key }) && b.spec_lookup(key.id()) is None,
{
    assert(!b.req_ok(i, j));
    match r {
        Err(Error::Conflict { item, features }) => {
            let (x2, ps) = choose|x2: int, ps: Seq<usize>| #[trigger] b.conflict_at(x2, ps, item, features@);
            assert(same_feature(features@[0], b.nodes@[ps[0] as int]->PendingFeature_0));
            assert(same_feature(features@[1], b.nodes@[ps[1] as int]->PendingFeature_0));
            assert(b.is_provider(ps[0] as int, x2) && b.is_provider(ps[1] as int, x2));
            assert(ps[0] != ps[1]);
        },
        Err(Error::Unsatisfied { item, validator }) => {
            if exists|i2: int, j2: int|
                #[trigger] b.is_req(i2, j2) && b.req(i2, j2).validator == validator && lookup(
                    b.spec_items(),
                    b.req(i2, j2).key.id(),
                ) is Some && b.spec_nodes()[lookup(b.spec_items(), b.req(i2, j2).key.id())->Some_0 as int]
                    == Node::Item(item) {
                let (i2, j2) = choose|i2: int, j2: int|
                    #[trigger] b.is_req(i2, j2) && b.req(i2, j2).validator == validator && lookup(
                        b.spec_items(),
                        b.req(i2, j2).key.id(),
                    ) is Some && b.spec_nodes()[lookup(b.spec_items(), b.req(i2, j2).key.id())->Some_0 as int]
                        == Node::Item(item);
                assert(b.req_ok(i2, j2));
                assert(validator.spec_satisfies(item));
            } else {
                let k = choose|k: int|
                    0 <= k < b.spec_edges().len() && (#[trigger] b.spec_edges()[k]).2 == Edge::Requires(validator)
                        && b.spec_nodes()[b.spec_edges()[k].0 as int] == Node::Item(item);
                assert(b.inherited_ok(k));
                assert(validator.spec_satisfies(item));
            }
        },
        _ => {},
    }
}

/// A requirement that its key exist is met by whatever item the key
/// resolves to, among them every item of a parent layer: the builder for a
/// layer registers the keys of its parent's items, and adding features
/// keeps every registered key registered.
pub proof fn law_registered_key_exists(b: GraphBuilder, i: int, j: int)
    requires
        b.wf(),
        b.is_req(i, j),
        b.req(i, j).validator is Exists,
        b.spec_lookup(b.req(i, j).key.id()) is Some,
    ensures
        b.req_ok(i, j),
{
}

/// Registering what was found after a build a second time, with the same
/// paths, users and groups, changes nothing: nodes, edges, key index and
/// order stay as they were.
pub proof fn law_populate_idempotent(
    g0: Graph,
    g1: Graph,
    g2: Graph,
    entries: Seq<FsEntry>,
    users: Seq<String>,
    groups: Seq<String>,
)
    requires
        populate_post(g0, g1, entries, users, groups),
        populate_post(g1, g2, entries, users, groups),
    ensures
        g2 == g1,
{
    assert(all_known(g1, entries, users, groups));
}

} // verus!
