//! The family tree graph: nodes, labeled parent edges, the id-to-node
//! index, anchor selection, and generation assignment.

use vstd::prelude::*;
use std::collections::HashMap;

use crate::person::{ids_distinct, Generation, Parent, Person, PersonRecord};

verus! {

broadcast use vstd::std_specs::hash::group_hash_axioms, vstd::seq_lib::lemma_seq_contains_after_push;

/// The parent reference a record states under the given label.
pub open spec fn parent_ref(r: PersonRecord, label: Parent) -> Option<usize> {
    match label {
        Parent::Mother => r.mother,
        Parent::Father => r.father,
    }
}

/// No two records in the list share an id.
pub open spec fn rec_ids_distinct(records: Seq<PersonRecord>) -> bool {
    forall|i: int, j: int| 0 <= i < j < records.len() ==> records[i].id != records[j].id
}

/// A directed ancestry graph. Node `i` carries `records[i]` and the
/// generation `gens[i]`; `mother_edge[i]` and `father_edge[i]` hold the
/// node index of the resolved mother and father of node `i`, present
/// exactly when the referenced id exists in the loaded set.
pub struct FamilyTree {
    records: Vec<PersonRecord>,
    gens: Vec<Generation>,
    mother_edge: Vec<Option<usize>>,
    father_edge: Vec<Option<usize>>,
    person_map: HashMap<usize, usize>,
}

impl FamilyTree {
    /// The records stored at the nodes, in node-index order.
    pub closed spec fn spec_records(&self) -> Seq<PersonRecord> {
        self.records@
    }

    /// The generation state of each node, in node-index order.
    pub closed spec fn spec_gens(&self) -> Seq<Generation> {
        self.gens@
    }

    /// The edge vector for the given label.
    pub closed spec fn spec_edges(&self, label: Parent) -> Seq<Option<usize>> {
        match label {
            Parent::Mother => self.mother_edge@,
            Parent::Father => self.father_edge@,
        }
    }

    /// The id-to-node-index mapping.
    pub closed spec fn spec_map(&self) -> Map<usize, usize> {
        self.person_map@
    }

    /// The number of nodes.
    pub open spec fn spec_len(&self) -> nat {
        self.spec_records().len()
    }

    /// The record stored at node `i`.
    pub open spec fn spec_record(&self, i: int) -> PersonRecord {
        self.spec_records()[i]
    }

    /// The generation state of node `i`.
    pub open spec fn spec_gen(&self, i: int) -> Generation {
        self.spec_gens()[i]
    }

    /// The node stored at index `i`, as a person.
    pub open spec fn spec_person(&self, i: int) -> Person {
        Person { record: self.spec_record(i), generation: self.spec_gen(i) }
    }

    /// The target of the labeled parent edge leaving node `i`, if any.
    pub open spec fn spec_edge(&self, i: int, label: Parent) -> Option<usize> {
        self.spec_edges(label)[i]
    }

    /// The edge leaving node `i` under `label` is exactly what the record
    /// states, resolved against the loaded set: it points at the node
    /// whose id the record names when that id is loaded, and is absent
    /// when the record names no id or names one outside the loaded set.
    pub open spec fn edge_resolved(&self, i: int, label: Parent) -> bool {
        match self.spec_edge(i, label) {
            Some(j) => {
                &&& j < self.spec_len()
                &&& parent_ref(self.spec_record(i), label) == Some(self.spec_record(j as int).id)
            },
            None => no_loaded_match(self.spec_records(), parent_ref(self.spec_record(i), label)),
        }
    }

    /// The id map sends each loaded id to its node index and nothing else.
    pub open spec fn map_resolved(&self) -> bool {
        map_ok(self.spec_records(), self.spec_map())
    }

    /// Well-formedness: consistent lengths, unique ids, and edges and id
    /// map fully determined by the records.
    pub open spec fn wf(&self) -> bool {
        &&& self.spec_gens().len() == self.spec_len()
        &&& self.spec_edges(Parent::Mother).len() == self.spec_len()
        &&& self.spec_edges(Parent::Father).len() == self.spec_len()
        &&& self.spec_len() <= isize::MAX
        &&& rec_ids_distinct(self.spec_records())
        &&& forall|i: int, label: Parent|
            0 <= i < self.spec_len() ==> #[trigger] self.edge_resolved(i, label)
        &&& self.map_resolved()
    }

    /// Looks up the node index a stated parent id resolves to, if any.
    fn resolve_ref(map: &HashMap<usize, usize>, stated: &Option<usize>) -> (target: Option<usize>)
        ensures
            target == match *stated {
                Some(id) => if map@.contains_key(id) {
                    Some(map@[id])
                } else {
                    None::<usize>
                },
                None => None::<usize>,
            },
    {
        match stated {
            Some(id) => match map.get(id) {
                Some(j) => Some(*j),
                None => None,
            },
            None => None,
        }
    }

    /// Builds the graph: one node per person in the given order, then one
    /// labeled edge per stated parent id that resolves to a loaded node.
    /// A stated id outside the loaded set yields no edge and no error.
    pub fn build(people: Vec<Person>) -> (tree: FamilyTree)
        requires
            ids_distinct(people@),
            people@.len() <= isize::MAX,
        ensures
            tree.wf(),
            tree.spec_len() == people@.len(),
            forall|i: int| 0 <= i < people@.len() ==> tree.spec_person(i) == people@[i],
    {
        let ghost opeople = people@;
        let n = people.len();
        let mut records: Vec<PersonRecord> = Vec::new();
        let mut gens: Vec<Generation> = Vec::new();
        for person in it: people
            invariant
                it.seq() == opeople,
                records@.len() == it.index(),
                gens@.len() == it.index(),
                forall|i: int|
                    0 <= i < it.index() ==> records@[i] == opeople[i].record && gens@[i]
                        == opeople[i].generation,
        {
            let Person { record, generation } = person;
            records.push(record);
            gens.push(generation);
        }
        assert(records@.len() == n);
        assert(rec_ids_distinct(records@)) by {
            assert forall|i: int, j: int|
                0 <= i < j < records@.len() implies records@[i].id != records@[j].id by {
                assert(records@[i] == opeople[i].record);
                assert(records@[j] == opeople[j].record);
            }
        }
        let mut person_map: HashMap<usize, usize> = HashMap::new();
        let mut i: usize = 0;
        while i < n
            invariant
                i <= n,
                n == records@.len(),
                gens@.len() == n,
                rec_ids_distinct(records@),
                forall|k: int|
                    0 <= k < i ==> #[trigger] person_map@.contains_key(records@[k].id)
                        && person_map@[records@[k].id] == k as usize,
                forall|id: usize| #[trigger]
                    person_map@.contains_key(id) ==> exists|k: int|
                        0 <= k < i && records@[k].id == id,
            decreases n - i,
        {
            let ghost map_old = person_map@;
            person_map.insert(records[i].id, i);
            proof {
                assert forall|id: usize| #[trigger]
                    person_map@.contains_key(id) implies exists|k: int|
                    0 <= k < i + 1 && records@[k].id == id by {
                    if id == records@[i as int].id {
                        assert(0 <= i < i + 1 && records@[i as int].id == id);
                    } else {
                        assert(map_old.contains_key(id));
                        let k = choose|k: int| 0 <= k < i && records@[k].id == id;
                        assert(0 <= k < i + 1 && records@[k].id == id);
                    }
                }
            }
            i = i + 1;
        }
        let mut mother_edge: Vec<Option<usize>> = Vec::new();
        let mut father_edge: Vec<Option<usize>> = Vec::new();
        let mut i: usize = 0;
        while i < n
            invariant
                i <= n,
                n == records@.len(),
                gens@.len() == n,
                rec_ids_distinct(records@),
                mother_edge@.len() == i,
                father_edge@.len() == i,
                forall|k: int|
                    0 <= k < n ==> #[trigger] person_map@.contains_key(records@[k].id)
                        && person_map@[records@[k].id] == k as usize,
                forall|id: usize| #[trigger]
                    person_map@.contains_key(id) ==> exists|k: int|
                        0 <= k < n && records@[k].id == id,
                forall|k: int|
                    0 <= k < i ==> #[trigger] edge_ok(records@, mother_edge@, k, Parent::Mother),
                forall|k: int|
                    0 <= k < i ==> #[trigger] edge_ok(records@, father_edge@, k, Parent::Father),
            decreases n - i,
        {
            let m = Self::resolve_ref(&person_map, &records[i].mother);
            let f = Self::resolve_ref(&person_map, &records[i].father);
            proof {
                lemma_resolved_target(records@, person_map@, records@[i as int].mother, m);
                lemma_resolved_target(records@, person_map@, records@[i as int].father, f);
            }
            let ghost m_old = mother_edge@;
            let ghost f_old = father_edge@;
            mother_edge.push(m);
            father_edge.push(f);
            proof {
                assert forall|k: int|
                    0 <= k < i + 1 implies #[trigger] edge_ok(
                    records@,
                    mother_edge@,
                    k,
                    Parent::Mother,
                ) by {
                    if k < i {
                        assert(edge_ok(records@, m_old, k, Parent::Mother));
                        assert(mother_edge@[k] == m_old[k]);
                    } else {
                        assert(mother_edge@[k] == m);
                    }
                }
                assert forall|k: int|
                    0 <= k < i + 1 implies #[trigger] edge_ok(
                    records@,
                    father_edge@,
                    k,
                    Parent::Father,
                ) by {
                    if k < i {
                        assert(edge_ok(records@, f_old, k, Parent::Father));
                        assert(father_edge@[k] == f_old[k]);
                    } else {
                        assert(father_edge@[k] == f);
                    }
                }
            }
            i = i + 1;
        }
        let tree = FamilyTree { records, gens, mother_edge, father_edge, person_map };
        proof {
            assert forall|i: int, label: Parent|
                0 <= i < tree.spec_len() implies #[trigger] tree.edge_resolved(i, label) by {
                match label {
                    Parent::Mother => {
                        assert(edge_ok(tree.spec_records(), tree.spec_edges(label), i, label));
                    },
                    Parent::Father => {
                        assert(edge_ok(tree.spec_records(), tree.spec_edges(label), i, label));
                    },
                }
            }
            assert forall|i: int| 0 <= i < people@.len() implies tree.spec_person(i)
                == people@[i] by {
                assert(tree.spec_record(i) == opeople[i].record);
                assert(tree.spec_gen(i) == opeople[i].generation);
            }
            assert(tree.spec_gens().len() == tree.spec_len());
            assert(tree.spec_edges(Parent::Mother).len() == tree.spec_len());
            assert(tree.spec_edges(Parent::Father).len() == tree.spec_len());
            assert(tree.spec_len() <= isize::MAX);
            assert(rec_ids_distinct(tree.spec_records()));
            assert forall|i: int|
                0 <= i < tree.spec_len() implies #[trigger] tree.spec_map().contains_key(
                tree.spec_record(i).id,
            ) && tree.spec_map()[tree.spec_record(i).id] == i as usize by {
                assert(tree.spec_map().contains_key(records@[i].id));
            }
            assert forall|id: usize| #[trigger]
                tree.spec_map().contains_key(id) implies exists|i: int|
                0 <= i < tree.spec_len() && tree.spec_record(i).id == id by {
                let k = choose|k: int| 0 <= k < n && records@[k].id == id;
                assert(0 <= k < tree.spec_len() && tree.spec_record(k).id == id);
            }
            assert(tree.map_resolved());
        }
        tree
    }
}

/// A fatal condition found while selecting the anchor node: the whole
/// computation aborts, since without a sound anchor every generation
/// number downstream would be wrong.
#[derive(Clone, Copy, Debug, PartialEq, Eq, Structural)]
pub enum TreeError {
    /// Every node has an incoming edge, so no node can anchor the graph.
    NoCandidateLeaf,
    /// Several candidate leaves compete, and one of them is missing a
    /// resolvable mother or father, so the tie cannot be judged.
    LeafMissingParent,
}

impl FamilyTree {
    /// Node `c` names node `t` as its mother or father.
    pub open spec fn references(&self, c: int, t: int) -> bool {
        self.spec_edge(c, Parent::Mother) == Some(t as usize) || self.spec_edge(
            c,
            Parent::Father,
        ) == Some(t as usize)
    }

    /// A candidate leaf: a node that no other node names as mother or
    /// father, i.e. a terminal descendant in the data set.
    pub open spec fn is_candidate_leaf(&self, i: int) -> bool {
        &&& 0 <= i < self.spec_len()
        &&& forall|c: int| 0 <= c < self.spec_len() ==> !(#[trigger] self.references(c, i))
    }

    /// Some node qualifies as a candidate leaf.
    pub open spec fn has_candidate_leaf(&self) -> bool {
        exists|i: int| self.is_candidate_leaf(i)
    }

    /// At least two distinct nodes qualify as candidate leaves.
    pub open spec fn several_candidates(&self) -> bool {
        exists|i: int, j: int|
            i != j && self.is_candidate_leaf(i) && self.is_candidate_leaf(j)
    }

    /// Node `i` has both a resolvable mother and a resolvable father.
    pub open spec fn fully_parented(&self, i: int) -> bool {
        self.spec_edge(i, Parent::Mother) is Some && self.spec_edge(i, Parent::Father) is Some
    }

    /// Every candidate leaf has both parents resolvable in the graph.
    pub open spec fn leaves_fully_parented(&self) -> bool {
        forall|i: int| self.is_candidate_leaf(i) ==> self.fully_parented(i)
    }

    /// Every node still has an undetermined generation.
    pub open spec fn all_unknown(&self) -> bool {
        forall|i: int| 0 <= i < self.spec_len() ==> self.spec_gen(i) == Generation::Unknown
    }

    /// The two trees hold the same records, edges and id map; only the
    /// generation states may differ.
    pub open spec fn same_shape(&self, other: &FamilyTree) -> bool {
        &&& self.spec_gens().len() == other.spec_gens().len()
        &&& self.spec_records() == other.spec_records()
        &&& self.spec_edges(Parent::Mother) == other.spec_edges(Parent::Mother)
        &&& self.spec_edges(Parent::Father) == other.spec_edges(Parent::Father)
        &&& self.spec_map() == other.spec_map()
    }

    /// Well-formedness and the candidate-leaf relation depend only on the
    /// shape, never on the generation states.
    pub proof fn lemma_same_shape(&self, other: &FamilyTree)
        requires
            self.same_shape(other),
        ensures
            self.wf() == other.wf(),
            forall|i: int| self.is_candidate_leaf(i) == other.is_candidate_leaf(i),
            forall|i: int| #[trigger] self.fully_parented(i) == other.fully_parented(i),
            forall|c: int, t: int| #[trigger] self.references(c, t) == other.references(c, t),
            self.at_most_one_child() == other.at_most_one_child(),
            forall|a: int, b: int| #[trigger] self.reachable(a, b) == other.reachable(a, b),
            self.has_candidate_leaf() == other.has_candidate_leaf(),
            self.several_candidates() == other.several_candidates(),
            self.leaves_fully_parented() == other.leaves_fully_parented(),
            self.spec_len() == other.spec_len(),
            forall|i: int, label: Parent| #[trigger]
                self.spec_edge(i, label) == other.spec_edge(i, label),
    {
        assert forall|i: int, label: Parent| #[trigger]
            self.spec_edge(i, label) == other.spec_edge(i, label) by {
            match label {
                Parent::Mother => {},
                Parent::Father => {},
            }
        }
        assert forall|i: int, label: Parent| #[trigger]
            self.edge_resolved(i, label) == other.edge_resolved(i, label) by {
            match label {
                Parent::Mother => {},
                Parent::Father => {},
            }
        }
        assert forall|c: int, t: int| #[trigger]
            self.references(c, t) == other.references(c, t) by {}
        assert(self.at_most_one_child() == other.at_most_one_child()) by {
            if self.at_most_one_child() {
                assert forall|c1: int, c2: int, t: int|
                    0 <= c1 < other.spec_len() && 0 <= c2 < other.spec_len()
                        && #[trigger] other.references(c1, t) && #[trigger] other.references(
                        c2,
                        t,
                    ) implies c1 == c2 by {
                    assert(self.references(c1, t) && self.references(c2, t));
                }
            }
            if other.at_most_one_child() {
                assert forall|c1: int, c2: int, t: int|
                    0 <= c1 < self.spec_len() && 0 <= c2 < self.spec_len()
                        && #[trigger] self.references(c1, t) && #[trigger] self.references(
                        c2,
                        t,
                    ) implies c1 == c2 by {
                    assert(other.references(c1, t) && other.references(c2, t));
                }
            }
        }
        assert forall|i: int| #[trigger]
            self.is_candidate_leaf(i) == other.is_candidate_leaf(i) by {
            if self.is_candidate_leaf(i) {
                assert forall|c: int|
                    0 <= c < other.spec_len() implies !(#[trigger] other.references(c, i)) by {
                    assert(!self.references(c, i));
                }
            }
            if other.is_candidate_leaf(i) {
                assert forall|c: int|
                    0 <= c < self.spec_len() implies !(#[trigger] self.references(c, i)) by {
                    assert(!other.references(c, i));
                }
            }
        }
        if other.wf() {
            assert forall|i: int, label: Parent|
                0 <= i < self.spec_len() implies #[trigger] self.edge_resolved(i, label) by {
                assert(other.edge_resolved(i, label));
            }
            assert(self.wf());
        }
        if self.wf() {
            assert forall|i: int, label: Parent|
                0 <= i < other.spec_len() implies #[trigger] other.edge_resolved(i, label) by {
                assert(self.edge_resolved(i, label));
            }
            assert(other.wf());
        }
        assert forall|i: int| #[trigger] self.fully_parented(i) == other.fully_parented(i) by {
            assert(self.spec_edge(i, Parent::Mother) == other.spec_edge(i, Parent::Mother));
            assert(self.spec_edge(i, Parent::Father) == other.spec_edge(i, Parent::Father));
        }
        if self.has_candidate_leaf() {
            let i = choose|i: int| self.is_candidate_leaf(i);
            assert(other.is_candidate_leaf(i));
        }
        if other.has_candidate_leaf() {
            let i = choose|i: int| other.is_candidate_leaf(i);
            assert(self.is_candidate_leaf(i));
        }
        if self.several_candidates() {
            let (i, j) = choose|i: int, j: int|
                i != j && self.is_candidate_leaf(i) && self.is_candidate_leaf(j);
            assert(i != j && other.is_candidate_leaf(i) && other.is_candidate_leaf(j));
        }
        if other.several_candidates() {
            let (i, j) = choose|i: int, j: int|
                i != j && other.is_candidate_leaf(i) && other.is_candidate_leaf(j);
            assert(i != j && self.is_candidate_leaf(i) && self.is_candidate_leaf(j));
        }
        if self.leaves_fully_parented() {
            assert forall|i: int| #[trigger]
                other.is_candidate_leaf(i) implies other.fully_parented(i) by {
                assert(self.is_candidate_leaf(i));
                assert(self.fully_parented(i));
            }
        }
        if other.leaves_fully_parented() {
            assert forall|i: int| #[trigger]
                self.is_candidate_leaf(i) implies self.fully_parented(i) by {
                assert(other.is_candidate_leaf(i));
                assert(other.fully_parented(i));
            }
        }
        assert forall|a: int, b: int| #[trigger]
            self.reachable(a, b) == other.reachable(a, b) by {
            if self.reachable(a, b) {
                let p = choose|p: Seq<int>|
                    p.len() >= 1 && p[0] == a && p.last() == b && self.is_path(p);
                assert(other.is_path(p)) by {
                    assert forall|k: int|
                        0 <= k < p.len() - 1 implies other.references(#[trigger] p[k], p[k + 1]) by {
                        assert(self.references(p[k], p[k + 1]));
                    }
                    assert forall|k: int| 0 <= k < p.len() implies 0 <= #[trigger] p[k]
                        < other.spec_len() by {}
                }
                assert(other.reachable(a, b));
            }
            if other.reachable(a, b) {
                let p = choose|p: Seq<int>|
                    p.len() >= 1 && p[0] == a && p.last() == b && other.is_path(p);
                assert(self.is_path(p)) by {
                    assert forall|k: int|
                        0 <= k < p.len() - 1 implies self.references(#[trigger] p[k], p[k + 1]) by {
                        assert(other.references(p[k], p[k + 1]));
                    }
                    assert forall|k: int| 0 <= k < p.len() implies 0 <= #[trigger] p[k]
                        < self.spec_len() by {}
                }
                assert(self.reachable(a, b));
            }
        }
    }

    /// A walk in the graph: consecutive nodes linked child-to-parent by
    /// labeled edges.
    pub open spec fn is_path(&self, p: Seq<int>) -> bool {
        &&& forall|k: int| 0 <= k < p.len() ==> 0 <= #[trigger] p[k] < self.spec_len()
        &&& forall|k: int| 0 <= k < p.len() - 1 ==> self.references(#[trigger] p[k], p[k + 1])
    }

    /// Node `b` can be reached from node `a` along parent edges; every
    /// node reaches itself.
    pub open spec fn reachable(&self, a: int, b: int) -> bool {
        exists|p: Seq<int>| p.len() >= 1 && p[0] == a && p.last() == b && self.is_path(p)
    }

    /// Every node reaches itself by the one-node walk.
    pub proof fn lemma_reachable_self(&self, a: int)
        requires
            0 <= a < self.spec_len(),
        ensures
            self.reachable(a, a),
    {
        let p: Seq<int> = seq![a];
        assert(p.len() >= 1 && p[0] == a && p.last() == a && self.is_path(p));
    }

    /// Reachability extends along one more parent edge.
    pub proof fn lemma_reachable_step(&self, a: int, b: int, c: int)
        requires
            self.reachable(a, b),
            self.references(b, c),
            0 <= c < self.spec_len(),
        ensures
            self.reachable(a, c),
    {
        let p = choose|p: Seq<int>|
            p.len() >= 1 && p[0] == a && p.last() == b && self.is_path(p);
        let q = p.push(c);
        assert(q.last() == c && q[0] == a);
        assert forall|k: int|
            0 <= k < q.len() - 1 implies self.references(#[trigger] q[k], q[k + 1]) by {
            if k < p.len() - 1 {
                assert(self.references(p[k], p[k + 1]));
                assert(q[k] == p[k] && q[k + 1] == p[k + 1]);
            } else {
                assert(q[k] == p.last() && q[k + 1] == c);
            }
        }
        assert forall|k: int| 0 <= k < q.len() implies 0 <= #[trigger] q[k] < self.spec_len() by {
            if k < p.len() {
                assert(0 <= p[k] < self.spec_len());
            }
        }
        assert(q.len() >= 1 && q[0] == a && q.last() == c && self.is_path(q));
    }

    /// A set of nodes that contains the start of a walk and is closed
    /// under following parent edges contains the walk's end.
    pub proof fn lemma_path_stays_visited(&self, vis: Seq<bool>, p: Seq<int>)
        requires
            vis.len() == self.spec_len(),
            self.is_path(p),
            p.len() >= 1,
            vis[p[0]],
            forall|v: int, t: int|
                0 <= v < vis.len() && vis[v] && #[trigger] self.references(v, t) && 0 <= t
                    < vis.len() ==> vis[t],
        ensures
            vis[p.last()],
        decreases p.len(),
    {
        if p.len() > 1 {
            let q = p.drop_last();
            assert(self.is_path(q)) by {
                assert forall|k: int|
                    0 <= k < q.len() - 1 implies self.references(#[trigger] q[k], q[k + 1]) by {
                    assert(self.references(p[k], p[k + 1]));
                }
                assert forall|k: int| 0 <= k < q.len() implies 0 <= #[trigger] q[k]
                    < self.spec_len() by {
                    assert(0 <= p[k] < self.spec_len());
                }
            }
            self.lemma_path_stays_visited(vis, q);
            assert(self.references(p[p.len() - 2], p[p.len() - 1]));
            assert(0 <= p.last() < vis.len());
        }
    }

    /// Every node is named as a parent by at most one child node. Under
    /// this shape the forward traversal writes each generation at most
    /// once; a node with two children would instead keep whichever value
    /// its last-visited child wrote.
    pub open spec fn at_most_one_child(&self) -> bool {
        forall|c1: int, c2: int, t: int|
            0 <= c1 < self.spec_len() && 0 <= c2 < self.spec_len() && #[trigger] self.references(
                c1,
                t,
            ) && #[trigger] self.references(c2, t) ==> c1 == c2
    }

    /// Every labeled edge out of a generation-labeled node is consistent:
    /// the parent holds a known generation exactly one above its child's.
    pub open spec fn parent_consistent(&self) -> bool {
        forall|c: int, label: Parent|
            0 <= c < self.spec_len() && self.spec_gen(c) is Known && (#[trigger] self.spec_edge(
                c,
                label,
            )) is Some ==> {
                let p = self.spec_edge(c, label)->Some_0 as int;
                &&& self.spec_gen(p) is Known
                &&& known_val(self.spec_gen(p)) == known_val(self.spec_gen(c)) + 1
            }
    }

    /// Every generation-labeled node either has no child at all in the
    /// data set, or owes its value to a generation-labeled child: one
    /// generation less, along an edge from that child.
    pub open spec fn assigned_from_children(&self) -> bool {
        forall|p: int|
            0 <= p < self.spec_len() && (#[trigger] self.spec_gen(p)) is Known ==> {
                ||| forall|c: int| 0 <= c < self.spec_len() ==> !(#[trigger] self.references(c, p))
                ||| exists|c: int|
                    0 <= c < self.spec_len() && self.spec_gen(c) is Known && self.references(c, p)
                        && known_val(self.spec_gen(p)) == known_val(self.spec_gen(c)) + 1
            }
    }

    /// Computes the candidate leaves: the nodes with no incoming edge, in
    /// increasing node-index order, each exactly once.
    pub fn candidate_leaves(&self) -> (leaves: Vec<usize>)
        requires
            self.wf(),
        ensures
            forall|k: int|
                0 <= k < leaves@.len() ==> self.is_candidate_leaf(#[trigger] leaves@[k] as int),
            forall|i: int|
                #[trigger] self.is_candidate_leaf(i) ==> leaves@.contains(i as usize),
            forall|k1: int, k2: int|
                0 <= k1 < k2 < leaves@.len() ==> leaves@[k1] < leaves@[k2],
    {
        let n = self.records.len();
        let mut has_incoming: Vec<bool> = Vec::new();
        let mut t: usize = 0;
        while t < n
            invariant
                t <= n,
                has_incoming@.len() == t,
                forall|u: int| 0 <= u < t ==> !(#[trigger] has_incoming@[u]),
            decreases n - t,
        {
            has_incoming.push(false);
            t = t + 1;
        }
        let mut c: usize = 0;
        while c < n
            invariant
                self.wf(),
                c <= n,
                n == self.spec_len(),
                has_incoming@.len() == n,
                forall|u: int|
                    0 <= u < n ==> ((#[trigger] has_incoming@[u]) <==> exists|d: int|
                        0 <= d < c && #[trigger] self.references(d, u)),
            decreases n - c,
        {
            let ghost hi_old = has_incoming@;
            assert(self.edge_resolved(c as int, Parent::Mother));
            assert(self.edge_resolved(c as int, Parent::Father));
            match self.mother_edge[c] {
                Some(t) => {
                    has_incoming.set(t, true);
                },
                None => {},
            }
            match self.father_edge[c] {
                Some(t) => {
                    has_incoming.set(t, true);
                },
                None => {},
            }
            proof {
                assert forall|u: int|
                    0 <= u < n implies ((#[trigger] has_incoming@[u]) <==> exists|d: int|
                        0 <= d < c + 1 && #[trigger] self.references(d, u)) by {
                    if has_incoming@[u] {
                        if hi_old[u] {
                            let d = choose|d: int| 0 <= d < c && #[trigger] self.references(d, u);
                            assert(0 <= d < c + 1 && self.references(d, u));
                        } else {
                            assert(self.references(c as int, u));
                        }
                    }
                    if exists|d: int| 0 <= d < c + 1 && #[trigger] self.references(d, u) {
                        let d = choose|d: int| 0 <= d < c + 1 && #[trigger] self.references(d, u);
                        if d < c {
                            assert(hi_old[u]);
                            assert(has_incoming@[u]);
                        } else {
                            assert(self.references(c as int, u));
                            assert(has_incoming@[u]);
                        }
                    }
                }
            }
            c = c + 1;
        }
        let mut leaves: Vec<usize> = Vec::new();
        let mut i: usize = 0;
        while i < n
            invariant
                self.wf(),
                i <= n,
                n == self.spec_len(),
                has_incoming@.len() == n,
                forall|u: int|
                    0 <= u < n ==> ((#[trigger] has_incoming@[u]) <==> exists|d: int|
                        0 <= d < n && #[trigger] self.references(d, u)),
                forall|k: int|
                    0 <= k < leaves@.len() ==> (#[trigger] leaves@[k]) < i
                        && self.is_candidate_leaf(leaves@[k] as int),
                forall|u: int|
                    0 <= u < i && #[trigger] self.is_candidate_leaf(u) ==> leaves@.contains(
                        u as usize,
                    ),
                forall|k1: int, k2: int|
                    0 <= k1 < k2 < leaves@.len() ==> leaves@[k1] < leaves@[k2],
            decreases n - i,
        {
            let ghost lv_old = leaves@;
            if !has_incoming[i] {
                proof {
                    assert forall|d: int|
                        0 <= d < n implies !(#[trigger] self.references(d, i as int)) by {
                        if self.references(d, i as int) {
                            assert(has_incoming@[i as int]);
                        }
                    }
                }
                leaves.push(i);
            }
            proof {
                assert forall|u: int|
                    0 <= u < i + 1 && #[trigger] self.is_candidate_leaf(u) implies leaves@.contains(
                    u as usize,
                ) by {
                    if u < i {
                        let k = choose|k: int| 0 <= k < lv_old.len() && lv_old[k] == u as usize;
                        assert(leaves@[k] == u as usize);
                    } else {
                        if has_incoming@[u] {
                            let d = choose|d: int| 0 <= d < n && #[trigger] self.references(d, u);
                            assert(!self.is_candidate_leaf(u));
                        } else {
                            assert(leaves@[leaves@.len() - 1] == u as usize);
                        }
                    }
                }
            }
            i = i + 1;
        }
        leaves
    }
    /// Selects the anchor: the node that will carry generation 0. The
    /// anchor is always a candidate leaf; among several candidates the tie
    /// is broken deterministically in favour of the smallest node index,
    /// and every competing candidate must have both parents resolvable.
    /// A single candidate is taken as the anchor directly, whatever its
    /// parents. Exactly one node holds a known generation afterwards: the
    /// anchor, at 0.
    pub fn select_anchor(&mut self) -> (r: Result<usize, TreeError>)
        requires
            old(self).wf(),
            old(self).all_unknown(),
        ensures
            final(self).wf(),
            final(self).same_shape(old(self)),
            r == Err::<usize, TreeError>(TreeError::NoCandidateLeaf) <==> !final(self)
                .has_candidate_leaf(),
            r == Err::<usize, TreeError>(TreeError::LeafMissingParent) <==> (final(self)
                .has_candidate_leaf() && final(self).several_candidates()
                && !final(self).leaves_fully_parented()),
            match r {
                Ok(a) => {
                    &&& final(self).is_candidate_leaf(a as int)
                    &&& forall|i: int| #[trigger] final(self).is_candidate_leaf(i) ==> a <= i
                    &&& final(self).spec_gen(a as int) == Generation::Known(0)
                    &&& forall|i: int|
                        0 <= i < final(self).spec_len() && i != a ==> final(self).spec_gen(i)
                            == Generation::Unknown
                },
                Err(_) => *final(self) == *old(self),
            },
    {
        let leaves = self.candidate_leaves();
        if leaves.len() == 0 {
            proof {
                assert forall|i: int| !self.is_candidate_leaf(i) by {
                    if self.is_candidate_leaf(i) {
                        assert(leaves@.contains(i as usize));
                    }
                }
            }
            return Err(TreeError::NoCandidateLeaf);
        }
        if leaves.len() >= 2 {
            proof {
                assert(self.is_candidate_leaf(leaves@[0] as int));
                assert(self.is_candidate_leaf(leaves@[1] as int));
                assert(leaves@[0] < leaves@[1]);
                assert(self.several_candidates());
            }
            let mut k: usize = 0;
            while k < leaves.len()
                invariant
                    self.wf(),
                    leaves@.len() >= 2,
                    forall|k1: int, k2: int|
                        0 <= k1 < k2 < leaves@.len() ==> leaves@[k1] < leaves@[k2],
                    forall|k2: int|
                        0 <= k2 < leaves@.len() ==> self.is_candidate_leaf(
                            #[trigger] leaves@[k2] as int,
                        ),
                    forall|i: int|
                        #[trigger] self.is_candidate_leaf(i) ==> leaves@.contains(i as usize),
                    forall|k2: int| 0 <= k2 < k ==> self.fully_parented(#[trigger] leaves@[k2] as int),
                    k <= leaves@.len(),
                decreases leaves@.len() - k,
            {
                let leaf = leaves[k];
                if self.mother_edge[leaf].is_none() || self.father_edge[leaf].is_none() {
                    proof {
                        assert(!self.fully_parented(leaf as int));
                        assert(!self.leaves_fully_parented());
                        assert(self.is_candidate_leaf(leaves@[0] as int));
                        assert(self.has_candidate_leaf());
                        assert(self.is_candidate_leaf(leaves@[1] as int));
                        assert(self.several_candidates());
                    }
                    return Err(TreeError::LeafMissingParent);
                }
                k = k + 1;
            }
            proof {
                assert forall|i: int| #[trigger]
                    self.is_candidate_leaf(i) implies self.fully_parented(i) by {
                    assert(leaves@.contains(i as usize));
                    let k2 = choose|k2: int| 0 <= k2 < leaves@.len() && leaves@[k2] == i as usize;
                    assert(self.fully_parented(leaves@[k2] as int));
                }
            }
        } else {
            proof {
                assert(leaves@.len() == 1);
                if self.several_candidates() {
                    let (i, j) = choose|i: int, j: int|
                        i != j && self.is_candidate_leaf(i) && self.is_candidate_leaf(j);
                    assert(leaves@.contains(i as usize));
                    assert(leaves@.contains(j as usize));
                    let ki = choose|k: int| 0 <= k < leaves@.len() && leaves@[k] == i as usize;
                    let kj = choose|k: int| 0 <= k < leaves@.len() && leaves@[k] == j as usize;
                    assert(ki == 0 && kj == 0);
                    assert(false);
                }
            }
        }
        let anchor = leaves[0];
        proof {
            assert(self.is_candidate_leaf(leaves@[0] as int));
        }
        let ghost before = *self;
        self.gens.set(anchor, Generation::Known(0));
        proof {
            assert(before == *old(self));
            assert(self.same_shape(&before));
            assert(before.same_shape(&*self));
            before.lemma_same_shape(&*self);
            assert(self.is_candidate_leaf(anchor as int));
            assert(self.has_candidate_leaf());
            assert forall|i: int| #[trigger] self.is_candidate_leaf(i) implies anchor <= i by {
                assert(before.is_candidate_leaf(i));
                assert(leaves@.contains(i as usize));
                let k2 = choose|k2: int| 0 <= k2 < leaves@.len() && leaves@[k2] == i as usize;
                if k2 > 0 {
                    assert(leaves@[0] < leaves@[k2]);
                }
            }
            assert(self.wf());
            assert(self.spec_gen(anchor as int) == Generation::Known(0));
            assert forall|i: int|
                0 <= i < self.spec_len() && i != anchor implies self.spec_gen(i)
                == Generation::Unknown by {
                assert(old(self).spec_gen(i) == Generation::Unknown);
            }
            assert(!(self.has_candidate_leaf() && self.several_candidates()
                && !self.leaves_fully_parented()));
        }
        Ok(anchor)
    }
}

/// The edge stored for node `k` under `label` resolves the record's stated
/// parent reference against the record list.
pub open spec fn edge_ok(
    records: Seq<PersonRecord>,
    edges: Seq<Option<usize>>,
    k: int,
    label: Parent,
) -> bool {
    match edges[k] {
        Some(j) => j < records.len() && parent_ref(records[k], label) == Some(
            records[j as int].id,
        ),
        None => no_loaded_match(records, parent_ref(records[k], label)),
    }
}

/// The id map sends each loaded id to its node index and nothing else.
pub open spec fn map_ok(records: Seq<PersonRecord>, map: Map<usize, usize>) -> bool {
    &&& forall|i: int|
        0 <= i < records.len() ==> #[trigger] map.contains_key(records[i].id)
            && map[records[i].id] == i as usize
    &&& forall|id: usize| #[trigger]
        map.contains_key(id) ==> exists|i: int| 0 <= i < records.len() && records[i].id == id
}

/// The stated parent reference matches no loaded record's id.
pub open spec fn no_loaded_match(records: Seq<PersonRecord>, stated: Option<usize>) -> bool {
    forall|j: int| 0 <= j < records.len() ==> stated != Some((#[trigger] records[j]).id)
}

/// A target computed from the id map resolves a stated reference correctly,
/// given a map that sends each loaded id to its node index and nothing else.
proof fn lemma_resolved_target(
    records: Seq<PersonRecord>,
    map: Map<usize, usize>,
    stated: Option<usize>,
    target: Option<usize>,
)
    requires
        records.len() <= usize::MAX,
        rec_ids_distinct(records),
        forall|k: int|
            0 <= k < records.len() ==> #[trigger] map.contains_key(records[k].id)
                && map[records[k].id] == k as usize,
        forall|id: usize| #[trigger]
            map.contains_key(id) ==> exists|k: int| 0 <= k < records.len() && records[k].id == id,
        target == match stated {
            Some(id) => if map.contains_key(id) {
                Some(map[id])
            } else {
                None::<usize>
            },
            None => None::<usize>,
        },
    ensures
        match target {
            Some(j) => j < records.len() && stated == Some(records[j as int].id),
            None => no_loaded_match(records, stated),
        },
{
    match stated {
        Some(id) => {
            if map.contains_key(id) {
                let k = choose|k: int| 0 <= k < records.len() && records[k].id == id;
                assert(map[records[k].id] == k as usize);
            } else {
                assert forall|j: int| 0 <= j < records.len() implies stated != Some(
                    records[j].id,
                ) by {
                    assert(map.contains_key(records[j].id));
                }
            }
        },
        None => {},
    }
}

impl FamilyTree {
    /// The forward phase of generation assignment: a depth-first
    /// traversal from the anchor along parent edges. Visiting a node
    /// writes the visited
    /// node's generation plus one into its mother and father nodes,
    /// overwriting whatever they held. Afterwards exactly the nodes
    /// reachable from the anchor hold a known generation; when no node
    /// has two children in the data set, every labeled edge between
    /// assigned nodes is consistent.
    #[verifier::rlimit(100)]
    pub fn propagate_from(&mut self, anchor: usize)
        requires
            old(self).wf(),
            old(self).is_candidate_leaf(anchor as int),
            old(self).spec_gen(anchor as int) == Generation::Known(0),
            forall|i: int|
                0 <= i < old(self).spec_len() && i != anchor ==> old(self).spec_gen(i)
                    == Generation::Unknown,
        ensures
            final(self).wf(),
            final(self).same_shape(old(self)),
            final(self).spec_gen(anchor as int) == Generation::Known(0),
            forall|i: int|
                0 <= i < final(self).spec_len() ==> ((#[trigger] final(self).spec_gen(i)) is Known
                    <==> final(self).reachable(anchor as int, i)),
            forall|i: int|
                0 <= i < final(self).spec_len() && (#[trigger] final(self).spec_gen(i)) is Known
                    ==> 0 <= known_val(final(self).spec_gen(i)) <= final(self).spec_len(),
            final(self).at_most_one_child() ==> final(self).parent_consistent(),
            final(self).at_most_one_child() ==> final(self).assigned_from_children(),
    {
        let n = self.records.len();
        let mut visited: Vec<bool> = Vec::new();
        let mut t: usize = 0;
        while t < n
            invariant
                t <= n,
                visited@.len() == t,
                forall|u: int| 0 <= u < t ==> !(#[trigger] visited@[u]),
            decreases n - t,
        {
            visited.push(false);
            t = t + 1;
        }
        proof {
            lemma_count_true_zero(visited@);
        }
        let ghost pre_vis = visited@;
        visited.set(anchor, true);
        proof {
            lemma_count_true_update(pre_vis, anchor as int, true);
        }
        let mut stack: Vec<usize> = Vec::new();
        stack.push(anchor);
        let ghost mut popped: int = 0;
        proof {
            self.lemma_reachable_self(anchor as int);
            assert(stack@[0] == anchor);
            assert(stack@.contains(anchor));
            assert forall|c: int| !processed(visited@, stack@, c) by {
                if 0 <= c < visited@.len() {
                    if c == anchor {
                        assert(stack@.contains(anchor));
                    } else {
                        assert(!visited@[c]);
                    }
                }
            }
        }
        while stack.len() > 0
            invariant
                self.wf(),
                self.same_shape(old(self)),
                n == self.spec_len(),
                visited@.len() == n,
                (anchor as int) < n,
                self.is_candidate_leaf(anchor as int),
                visited@[anchor as int],
                self.spec_gen(anchor as int) == Generation::Known(0),
                0 <= popped,
                popped + stack@.len() == count_true(visited@),
                forall|k: int| 0 <= k < stack@.len() ==> (#[trigger] stack@[k]) < n,
                forall|k: int| 0 <= k < stack@.len() ==> visited@[#[trigger] stack@[k] as int],
                forall|k1: int, k2: int|
                    0 <= k1 < k2 < stack@.len() ==> stack@[k1] != stack@[k2],
                forall|u: int|
                    0 <= u < n ==> ((#[trigger] visited@[u]) <==> self.spec_gen(u) is Known),
                forall|u: int|
                    0 <= u < n && (#[trigger] visited@[u]) ==> 0 <= known_val(self.spec_gen(u))
                        <= popped,
                forall|u: int|
                    0 <= u < n && (#[trigger] visited@[u]) ==> self.reachable(anchor as int, u),
                forall|v: int, label: Parent|
                    processed(visited@, stack@, v) && (#[trigger] self.spec_edge(v, label))
                        is Some ==> visited@[self.spec_edge(v, label)->Some_0 as int],
                self.at_most_one_child() ==> cl_inv(*self, visited@, stack@),
                self.at_most_one_child() ==> cw_inv(*self, visited@, stack@, anchor as int),
            decreases n - popped,
        {
            let ghost head = *self;
            let ghost head_vis = visited@;
            let ghost head_stk = stack@;
            proof {
                lemma_count_true_le(head_vis);
            }
            let v: usize = match stack.pop() {
                Some(x) => x,
                None => {
                    proof {
                        assert(false);
                    }
                    0
                },
            };
            let g: isize = match self.gens[v] {
                Generation::Known(x) => x,
                Generation::Unknown => {
                    proof {
                        assert(visited@[v as int]);
                        assert(false);
                    }
                    0
                },
            };
            let next_gen: isize = g + 1;
            let m_opt = self.mother_edge[v];
            let f_opt = self.father_edge[v];
            proof {
                assert(self.edge_resolved(v as int, Parent::Mother));
                assert(self.edge_resolved(v as int, Parent::Father));
            }
            if let Some(p) = m_opt {
                self.gens.set(p, Generation::Known(next_gen));
                if !visited[p] {
                    visited.set(p, true);
                    proof {
                        lemma_count_true_update(head_vis, p as int, true);
                    }
                    stack.push(p);
                }
            }
            if let Some(p) = f_opt {
                self.gens.set(p, Generation::Known(next_gen));
                if !visited[p] {
                    let ghost vb = visited@;
                    visited.set(p, true);
                    proof {
                        lemma_count_true_update(vb, p as int, true);
                    }
                    stack.push(p);
                }
            }
            proof {
                popped = popped + 1;
                assert(self.same_shape(&head));
                assert(head.same_shape(&*self));
                head.lemma_same_shape(&*self);
                let cur = *self;
                let cur_vis = visited@;
                let cur_stk = stack@;
                assert forall|u: int|
                    0 <= u < n && !wrote_to(m_opt, f_opt, u) implies cur.spec_gen(u)
                    == head.spec_gen(u) && cur_vis[u] == head_vis[u] by {}
                assert forall|u: int|
                    0 <= u < n && wrote_to(m_opt, f_opt, u) implies cur.spec_gen(u)
                    == Generation::Known(next_gen) && cur_vis[u] by {}
                assert forall|k: int|
                    0 <= k < head_stk.len() - 1 implies cur_stk[k] == head_stk[k] by {}
                assert(cur_stk.len() >= head_stk.len() - 1);
                assert forall|k: int|
                    head_stk.len() - 1 <= k < cur_stk.len() implies !head_vis[(
                    #[trigger] cur_stk[k]) as int] && wrote_to(m_opt, f_opt, cur_stk[k] as int) && (
                    cur_stk[k] as int) < n && cur_vis[cur_stk[k] as int] by {}
                assert forall|k1: int, k2: int|
                    head_stk.len() - 1 <= k1 < k2 < cur_stk.len() implies cur_stk[k1]
                    != cur_stk[k2] by {}
                assert forall|u: int|
                    0 <= u < n && cur_vis[u] && !head_vis[u] implies cur_stk.contains(
                    u as usize,
                ) by {
                    assert(wrote_to(m_opt, f_opt, u));
                }
                lemma_traversal_step(
                    head,
                    cur,
                    head_vis,
                    cur_vis,
                    head_stk,
                    cur_stk,
                    v,
                    m_opt,
                    f_opt,
                    anchor,
                    next_gen,
                    popped,
                    n,
                );
            }
        }
        proof {
            lemma_count_true_le(visited@);
            assert forall|i: int|
                0 <= i < self.spec_len() && (#[trigger] self.spec_gen(i)) is Known implies 0
                <= known_val(self.spec_gen(i)) <= self.spec_len() by {
                assert(visited@[i]);
                assert(known_val(self.spec_gen(i)) <= popped);
            }
            lemma_traversal_exit(*self, visited@, stack@, anchor, n);
        }
    }
}

/// The node indices written by one traversal visit: the targets of the
/// visited node's mother and father edges.
pub(crate) open spec fn wrote_to(m_opt: Option<usize>, f_opt: Option<usize>, u: int) -> bool {
    ||| (m_opt matches Some(p) && u == p as int)
    ||| (f_opt matches Some(p) && u == p as int)
}

/// One visit of the forward traversal preserves its invariants: `head`
/// describes the state when the node `v` was taken off the stack, `cur`
/// the state after its parents were written and pushed.
#[verifier::rlimit(100)]
proof fn lemma_traversal_step(
    head: FamilyTree,
    cur: FamilyTree,
    head_vis: Seq<bool>,
    cur_vis: Seq<bool>,
    head_stk: Seq<usize>,
    cur_stk: Seq<usize>,
    v: usize,
    m_opt: Option<usize>,
    f_opt: Option<usize>,
    anchor: usize,
    next_gen: isize,
    popped: int,
    n: usize,
)
    requires
        head.wf(),
        cur.wf(),
        head.same_shape(&cur),
        n == head.spec_len(),
        cur.spec_len() == n,
        head_vis.len() == n,
        cur_vis.len() == n,
        (anchor as int) < n,
        head.is_candidate_leaf(anchor as int),
        head_vis[anchor as int],
        head.spec_gen(anchor as int) == Generation::Known(0),
        forall|k: int| 0 <= k < head_stk.len() ==> (#[trigger] head_stk[k]) < n,
        forall|k: int| 0 <= k < head_stk.len() ==> head_vis[#[trigger] head_stk[k] as int],
        forall|k1: int, k2: int|
            0 <= k1 < k2 < head_stk.len() ==> head_stk[k1] != head_stk[k2],
        forall|u: int| 0 <= u < n ==> ((#[trigger] head_vis[u]) <==> head.spec_gen(u) is Known),
        forall|u: int|
            0 <= u < n && (#[trigger] head_vis[u]) ==> 0 <= known_val(head.spec_gen(u)) <= popped
                - 1,
        forall|u: int|
            0 <= u < n && (#[trigger] head_vis[u]) ==> head.reachable(anchor as int, u),
        forall|v2: int, label: Parent|
            processed(head_vis, head_stk, v2) && (#[trigger] head.spec_edge(v2, label)) is Some
                ==> head_vis[head.spec_edge(v2, label)->Some_0 as int],
        head.at_most_one_child() ==> cl_inv(head, head_vis, head_stk),
        head.at_most_one_child() ==> cw_inv(head, head_vis, head_stk, anchor as int),
        head_stk.len() > 0,
        v == head_stk.last(),
        head.spec_gen(v as int) is Known,
        next_gen == known_val(head.spec_gen(v as int)) + 1,
        m_opt == head.spec_edge(v as int, Parent::Mother),
        f_opt == head.spec_edge(v as int, Parent::Father),
        forall|u: int|
            0 <= u < n && !wrote_to(m_opt, f_opt, u) ==> cur.spec_gen(u) == head.spec_gen(u)
                && cur_vis[u] == head_vis[u],
        forall|u: int|
            0 <= u < n && wrote_to(m_opt, f_opt, u) ==> cur.spec_gen(u) == Generation::Known(
                next_gen,
            ) && cur_vis[u],
        forall|k: int| 0 <= k < head_stk.len() - 1 ==> cur_stk[k] == head_stk[k],
        cur_stk.len() >= head_stk.len() - 1,
        forall|k: int|
            head_stk.len() - 1 <= k < cur_stk.len() ==> !head_vis[(#[trigger] cur_stk[k]) as int]
                && wrote_to(m_opt, f_opt, cur_stk[k] as int) && (cur_stk[k] as int) < n
                && cur_vis[cur_stk[k] as int],
        forall|k1: int, k2: int|
            head_stk.len() - 1 <= k1 < k2 < cur_stk.len() ==> cur_stk[k1] != cur_stk[k2],
        forall|u: int|
            0 <= u < n && cur_vis[u] && !head_vis[u] ==> cur_stk.contains(u as usize),
    ensures
        cur.spec_gen(anchor as int) == Generation::Known(0),
        forall|k: int| 0 <= k < cur_stk.len() ==> (#[trigger] cur_stk[k]) < n,
        forall|k: int| 0 <= k < cur_stk.len() ==> cur_vis[#[trigger] cur_stk[k] as int],
        forall|k1: int, k2: int| 0 <= k1 < k2 < cur_stk.len() ==> cur_stk[k1] != cur_stk[k2],
        forall|u: int| 0 <= u < n ==> ((#[trigger] cur_vis[u]) <==> cur.spec_gen(u) is Known),
        forall|u: int|
            0 <= u < n && (#[trigger] cur_vis[u]) ==> 0 <= known_val(cur.spec_gen(u)) <= popped,
        forall|u: int|
            0 <= u < n && (#[trigger] cur_vis[u]) ==> cur.reachable(anchor as int, u),
        forall|v2: int, label: Parent|
            processed(cur_vis, cur_stk, v2) && (#[trigger] cur.spec_edge(v2, label)) is Some
                ==> cur_vis[cur.spec_edge(v2, label)->Some_0 as int],
        cur.at_most_one_child() ==> cl_inv(cur, cur_vis, cur_stk),
        cur.at_most_one_child() ==> cw_inv(cur, cur_vis, cur_stk, anchor as int),
{
    head.lemma_same_shape(&cur);
    assert(head_stk.contains(v)) by {
        assert(head_stk[head_stk.len() - 1] == v);
    }
    // A written target is referenced by the popped node, hence never the
    // anchor, which is a candidate leaf.
    assert forall|u: int| wrote_to(m_opt, f_opt, u) implies head.references(v as int, u)
        && 0 <= u < n && u != anchor by {
        assert(head.edge_resolved(v as int, Parent::Mother));
        assert(head.edge_resolved(v as int, Parent::Father));
        if m_opt matches Some(p) && u == p as int {
            assert(head.spec_edge(v as int, Parent::Mother) == Some(u as usize));
        } else {
            assert(head.spec_edge(v as int, Parent::Father) == Some(u as usize));
        }
        assert(!head.references(v as int, anchor as int));
    }
    assert(cur.spec_gen(anchor as int) == Generation::Known(0));
    assert forall|k: int|
        0 <= k < cur_stk.len() implies (#[trigger] cur_stk[k]) < n
            && cur_vis[cur_stk[k] as int] by {
        if k < head_stk.len() - 1 {
            assert(head_stk[k] < n && head_vis[head_stk[k] as int]);
            if wrote_to(m_opt, f_opt, cur_stk[k] as int) {
            }
        }
    }
    assert forall|k1: int, k2: int|
        0 <= k1 < k2 < cur_stk.len() implies cur_stk[k1] != cur_stk[k2] by {
        if k2 < head_stk.len() - 1 {
            assert(head_stk[k1] != head_stk[k2]);
        } else if k1 < head_stk.len() - 1 {
            assert(head_vis[cur_stk[k1] as int]);
            assert(!head_vis[cur_stk[k2] as int]);
        }
    }
    assert(!cur_stk.contains(v)) by {
        if cur_stk.contains(v) {
            let k = choose|k: int| 0 <= k < cur_stk.len() && cur_stk[k] == v;
            if k < head_stk.len() - 1 {
                assert(head_stk[k] == v && head_stk[head_stk.len() - 1] == v);
            } else {
                assert(!head_vis[v as int]);
            }
        }
    }
    assert forall|c: int|
        processed(head_vis, head_stk, c) implies processed(cur_vis, cur_stk, c) by {
        assert(cur_vis[c]);
        if cur_stk.contains(c as usize) {
            let k = choose|k: int| 0 <= k < cur_stk.len() && cur_stk[k] == c as usize;
            if k < head_stk.len() - 1 {
                assert(head_stk.contains(c as usize));
            } else {
                assert(!head_vis[c]);
            }
        }
    }
    assert(processed(cur_vis, cur_stk, v as int));
    assert forall|u: int|
        0 <= u < n implies ((#[trigger] cur_vis[u]) <==> cur.spec_gen(u) is Known) by {
        if !wrote_to(m_opt, f_opt, u) {
            assert(cur_vis[u] == head_vis[u] && cur.spec_gen(u) == head.spec_gen(u));
        }
    }
    assert forall|u: int|
        0 <= u < n && (#[trigger] cur_vis[u]) implies 0 <= known_val(cur.spec_gen(u))
            <= popped by {
        if !wrote_to(m_opt, f_opt, u) {
            assert(head_vis[u]);
        }
    }
    assert forall|u: int|
        0 <= u < n && (#[trigger] cur_vis[u]) implies cur.reachable(anchor as int, u) by {
        if head_vis[u] {
            assert(head.reachable(anchor as int, u));
        } else {
            assert(wrote_to(m_opt, f_opt, u));
            assert(head.references(v as int, u));
            assert(head_vis[v as int]);
            head.lemma_reachable_step(anchor as int, v as int, u);
        }
    }
    assert forall|v2: int, label: Parent|
        processed(cur_vis, cur_stk, v2) && (#[trigger] cur.spec_edge(v2, label))
            is Some implies cur_vis[cur.spec_edge(v2, label)->Some_0 as int] by {
        let q = cur.spec_edge(v2, label)->Some_0 as int;
        assert(cur.edge_resolved(v2, label));
        if v2 == v {
            assert(head.spec_edge(v2, label) == cur.spec_edge(v2, label));
            assert(wrote_to(m_opt, f_opt, q));
        } else if processed(head_vis, head_stk, v2) {
            assert(head_vis[head.spec_edge(v2, label)->Some_0 as int]);
        } else {
            if head_vis[v2] {
                let k = choose|k: int| 0 <= k < head_stk.len() && head_stk[k] == v2 as usize;
                assert(k < head_stk.len() - 1);
                assert(cur_stk[k] == v2 as usize);
                assert(false);
            } else {
                assert(cur_stk.contains(v2 as usize));
                assert(false);
            }
        }
    }
    if cur.at_most_one_child() {
        assert(head.at_most_one_child());
        assert(cl_inv(head, head_vis, head_stk));
        assert(cw_inv(head, head_vis, head_stk, anchor as int));
        // Under the shape hypothesis a written target was unvisited at the
        // head: a visited target would owe its value to a processed child,
        // which could only be the still-waiting node `v`.
        assert forall|u: int| wrote_to(m_opt, f_opt, u) implies !head_vis[u] by {
            if head_vis[u] {
                let c = choose|c: int|
                    processed(head_vis, head_stk, c) && head.references(c, u) && known_val(
                        head.spec_gen(u),
                    ) == known_val(head.spec_gen(c)) + 1;
                assert(head.references(v as int, u));
                assert(c == v);
                assert(head_stk.contains(v));
                assert(false);
            }
        }
        assert(!wrote_to(m_opt, f_opt, v as int));
        assert forall|c: int, label: Parent|
            processed(cur_vis, cur_stk, c) && cur.spec_gen(c) is Known && (#[trigger] cur.spec_edge(
                c,
                label,
            )) is Some implies {
            let p = cur.spec_edge(c, label)->Some_0 as int;
            &&& cur.spec_gen(p) is Known
            &&& known_val(cur.spec_gen(p)) == known_val(cur.spec_gen(c)) + 1
        } by {
            let p = cur.spec_edge(c, label)->Some_0 as int;
            assert(cur.edge_resolved(c, label));
            assert(cur.references(c, p));
            if c == v {
                assert(head.spec_edge(c, label) == cur.spec_edge(c, label));
                assert(wrote_to(m_opt, f_opt, p));
                assert(cur.spec_gen(p) == Generation::Known(next_gen));
                assert(known_val(cur.spec_gen(v as int)) == next_gen - 1);
            } else {
                assert(processed(head_vis, head_stk, c)) by {
                    assert(cur_vis[c]);
                    if !head_vis[c] {
                        assert(wrote_to(m_opt, f_opt, c));
                        assert(false);
                    }
                    if head_stk.contains(c as usize) {
                        let k = choose|k: int|
                            0 <= k < head_stk.len() && head_stk[k] == c as usize;
                        assert(k < head_stk.len() - 1);
                        assert(cur_stk[k] == c as usize);
                        assert(processed(cur_vis, cur_stk, c));
                        assert(false);
                    }
                }
                assert(!wrote_to(m_opt, f_opt, c));
                assert(head.spec_gen(c) is Known);
                assert(head.spec_edge(c, label) is Some);
                let q = head.spec_edge(c, label)->Some_0 as int;
                assert(q == p);
                assert(head.spec_gen(p) is Known && known_val(head.spec_gen(p)) == known_val(
                    head.spec_gen(c),
                ) + 1);
                assert(!wrote_to(m_opt, f_opt, p)) by {
                    if wrote_to(m_opt, f_opt, p) {
                        assert(head.references(v as int, p));
                        assert(head.references(c, p));
                        assert(c == v);
                    }
                }
            }
        }
        assert(cl_inv(cur, cur_vis, cur_stk));
        assert forall|p: int|
            0 <= p < cur_vis.len() && (#[trigger] cur_vis[p]) && p != anchor
                implies exists|c: int|
            processed(cur_vis, cur_stk, c) && cur.references(c, p) && known_val(cur.spec_gen(p))
                == known_val(cur.spec_gen(c)) + 1 by {
            if wrote_to(m_opt, f_opt, p) {
                assert(head.references(v as int, p));
                assert(cur.references(v as int, p));
                assert(processed(cur_vis, cur_stk, v as int) && cur.references(v as int, p)
                    && known_val(cur.spec_gen(p)) == known_val(cur.spec_gen(v as int)) + 1);
            } else {
                assert(head_vis[p]);
                let c = choose|c: int|
                    processed(head_vis, head_stk, c) && head.references(c, p) && known_val(
                        head.spec_gen(p),
                    ) == known_val(head.spec_gen(c)) + 1;
                assert(!wrote_to(m_opt, f_opt, c)) by {
                    if wrote_to(m_opt, f_opt, c) {
                        assert(!head_vis[c]);
                    }
                }
                assert(processed(cur_vis, cur_stk, c) && cur.references(c, p) && known_val(
                    cur.spec_gen(p),
                ) == known_val(cur.spec_gen(c)) + 1);
            }
        }
        assert(cw_inv(cur, cur_vis, cur_stk, anchor as int));
    }
}

/// What holds when the traversal stack runs empty: the visited set equals
/// the reachable set, and under the one-child shape the labeling is
/// consistent and witnessed.
proof fn lemma_traversal_exit(
    t: FamilyTree,
    vis: Seq<bool>,
    stk: Seq<usize>,
    anchor: usize,
    n: usize,
)
    requires
        t.wf(),
        n == t.spec_len(),
        vis.len() == n,
        (anchor as int) < n,
        t.is_candidate_leaf(anchor as int),
        vis[anchor as int],
        stk.len() == 0,
        forall|u: int| 0 <= u < n ==> ((#[trigger] vis[u]) <==> t.spec_gen(u) is Known),
        forall|u: int| 0 <= u < n && (#[trigger] vis[u]) ==> t.reachable(anchor as int, u),
        forall|v: int, label: Parent|
            processed(vis, stk, v) && (#[trigger] t.spec_edge(v, label)) is Some ==> vis[t.spec_edge(
                v,
                label,
            )->Some_0 as int],
        t.at_most_one_child() ==> cl_inv(t, vis, stk),
        t.at_most_one_child() ==> cw_inv(t, vis, stk, anchor as int),
    ensures
        forall|i: int|
            0 <= i < t.spec_len() ==> ((#[trigger] t.spec_gen(i)) is Known <==> t.reachable(
                anchor as int,
                i,
            )),
        t.at_most_one_child() ==> t.parent_consistent(),
        t.at_most_one_child() ==> t.assigned_from_children(),
{
    let self_ = t;
    assert forall|i: int|
        0 <= i < self_.spec_len() implies ((#[trigger] self_.spec_gen(i)) is Known
        <==> self_.reachable(anchor as int, i)) by {
        if self_.spec_gen(i) is Known {
            assert(vis[i]);
            assert(self_.reachable(anchor as int, i));
        }
        if self_.reachable(anchor as int, i) {
            let p = choose|p: Seq<int>|
                p.len() >= 1 && p[0] == anchor as int && p.last() == i && self_.is_path(p);
            assert forall|v: int, t2: int|
                0 <= v < vis.len() && vis[v] && #[trigger] self_.references(v, t2) && 0 <= t2
                    < vis.len() implies vis[t2] by {
                assert(processed(vis, stk, v));
                if self_.spec_edge(v, Parent::Mother) == Some(t2 as usize) {
                    assert(vis[self_.spec_edge(v, Parent::Mother)->Some_0 as int]);
                } else {
                    assert(self_.spec_edge(v, Parent::Father) == Some(t2 as usize));
                    assert(vis[self_.spec_edge(v, Parent::Father)->Some_0 as int]);
                }
            }
            self_.lemma_path_stays_visited(vis, p);
            assert(vis[i]);
        }
    }
    if t.at_most_one_child() {
                assert forall|c: int, label: Parent|
                    0 <= c < self_.spec_len() && self_.spec_gen(c) is Known
                        && (#[trigger] self_.spec_edge(c, label)) is Some implies {
                    let p = self_.spec_edge(c, label)->Some_0 as int;
                    &&& self_.spec_gen(p) is Known
                    &&& known_val(self_.spec_gen(p)) == known_val(self_.spec_gen(c)) + 1
                } by {
                    assert(vis[c]);
                    assert(processed(vis, stk, c));
                    assert(cl_inv(self_, vis, stk));
                }
                assert forall|p: int|
                    0 <= p < self_.spec_len() && (#[trigger] self_.spec_gen(p)) is Known implies {
                    ||| forall|c: int|
                        0 <= c < self_.spec_len() ==> !(#[trigger] self_.references(c, p))
                    ||| exists|c: int|
                        0 <= c < self_.spec_len() && self_.spec_gen(c) is Known
                            && self_.references(c, p) && known_val(self_.spec_gen(p)) == known_val(
                            self_.spec_gen(c),
                        ) + 1
                } by {
                    if p != anchor {
                        assert(cw_inv(self_, vis, stk, anchor as int));
                        assert(vis[p]);
                        let c = choose|c: int|
                            processed(vis, stk, c) && self_.references(c, p)
                                && known_val(self_.spec_gen(p)) == known_val(self_.spec_gen(c))
                                + 1;
                        assert(vis[c]);
                        assert(self_.spec_gen(c) is Known);
                    } else {
                        assert forall|c: int|
                            0 <= c < self_.spec_len() implies !(#[trigger] self_.references(
                            c,
                            p,
                        )) by {}
                    }
                }
            }
}

/// The conditional consistency invariant of the forward traversal: every
/// labeled edge out of a processed node carries consistent generations.
pub(crate) open spec fn cl_inv(t: FamilyTree, vis: Seq<bool>, stk: Seq<usize>) -> bool {
    forall|c: int, label: Parent|
        processed(vis, stk, c) && t.spec_gen(c) is Known && (#[trigger] t.spec_edge(c, label))
            is Some ==> {
            let p = t.spec_edge(c, label)->Some_0 as int;
            &&& t.spec_gen(p) is Known
            &&& known_val(t.spec_gen(p)) == known_val(t.spec_gen(c)) + 1
        }
}

/// The conditional witness invariant of the forward traversal: every
/// visited node but the anchor owes its generation to a processed child.
pub(crate) open spec fn cw_inv(t: FamilyTree, vis: Seq<bool>, stk: Seq<usize>, anchor: int) -> bool {
    forall|p: int|
        0 <= p < vis.len() && (#[trigger] vis[p]) && p != anchor ==> exists|c: int|
            processed(vis, stk, c) && t.references(c, p) && known_val(t.spec_gen(p)) == known_val(
                t.spec_gen(c),
            ) + 1
}

impl FamilyTree {
    /// The back-fill phase of generation assignment: repeatedly scan
    /// for nodes whose generation is still undetermined and resolve each
    /// from a parent whose generation is known, the mother preferred, at
    /// one generation below the parent. The scan repeats until a full pass resolves
    /// nothing more; nodes with no generation-resolved parent stay
    /// undetermined, which is an acceptable outcome, not an error.
    pub fn back_fill(&mut self)
        requires
            old(self).wf(),
            forall|i: int|
                0 <= i < old(self).spec_len() && (#[trigger] old(self).spec_gen(i)) is Known
                    ==> 0 <= known_val(old(self).spec_gen(i)) <= old(self).spec_len(),
        ensures
            final(self).wf(),
            final(self).same_shape(old(self)),
            forall|i: int|
                0 <= i < final(self).spec_len() && (#[trigger] old(self).spec_gen(i)) is Known
                    ==> final(self).spec_gen(i) == old(self).spec_gen(i),
            forall|i: int|
                0 <= i < final(self).spec_len() && old(self).spec_gen(i) is Unknown && (
                #[trigger] final(self).spec_gen(i)) is Known ==> backfill_justified(
                    *final(self),
                    i,
                ),
            forall|i: int|
                0 <= i < final(self).spec_len() && (#[trigger] final(self).spec_gen(i)) is Unknown
                    ==> no_known_parent(*final(self), i),
            forall|i: int|
                0 <= i < final(self).spec_len() && (#[trigger] final(self).spec_gen(i)) is Known
                    ==> -(final(self).spec_len() as int) <= known_val(final(self).spec_gen(i))
                    <= final(self).spec_len(),
            (old(self).at_most_one_child() && old(self).assigned_from_children())
                ==> final(self).spec_gens() == old(self).spec_gens(),
    {
        let n = self.records.len();
        let ghost count0 = count_known(self.spec_gens());
        let ghost mut assigned: int = 0;
        let mut changed = true;
        while changed
            invariant
                old(self).wf(),
                self.wf(),
                self.same_shape(old(self)),
                n == self.spec_len(),
                0 <= assigned <= n,
                count_known(self.spec_gens()) == count0 + assigned,
                forall|i: int|
                    0 <= i < n && (#[trigger] old(self).spec_gen(i)) is Known ==> self.spec_gen(i)
                        == old(self).spec_gen(i),
                forall|i: int|
                    0 <= i < n && old(self).spec_gen(i) is Unknown && (#[trigger] self.spec_gen(i))
                        is Known ==> backfill_justified(*self, i),
                forall|i: int|
                    0 <= i < n && (#[trigger] self.spec_gen(i)) is Known ==> -assigned
                        <= known_val(self.spec_gen(i)) <= n,
                !changed ==> forall|i: int|
                    0 <= i < n && (#[trigger] self.spec_gen(i)) is Unknown ==> no_known_parent(
                        *self,
                        i,
                    ),
                (old(self).at_most_one_child() && old(self).assigned_from_children())
                    ==> self.spec_gens() == old(self).spec_gens(),
            decreases n - assigned, if changed {
                1int
            } else {
                0int
            },
        {
            changed = false;
            let ghost pass0 = *self;
            let ghost assigned0 = assigned;
            let mut i: usize = 0;
            while i < n
                invariant
                    old(self).wf(),
                    self.wf(),
                    self.same_shape(old(self)),
                    n == self.spec_len(),
                    i <= n,
                    0 <= assigned <= n,
                    assigned0 <= assigned,
                    changed ==> assigned0 < assigned,
                    !changed ==> *self == pass0 && assigned == assigned0,
                    count_known(self.spec_gens()) == count0 + assigned,
                    forall|k: int|
                        0 <= k < n && (#[trigger] old(self).spec_gen(k)) is Known ==> self.spec_gen(
                            k,
                        ) == old(self).spec_gen(k),
                    forall|k: int|
                        0 <= k < n && old(self).spec_gen(k) is Unknown && (
                        #[trigger] self.spec_gen(k)) is Known ==> backfill_justified(*self, k),
                    forall|k: int|
                        0 <= k < n && (#[trigger] self.spec_gen(k)) is Known ==> -assigned
                            <= known_val(self.spec_gen(k)) <= n,
                    !changed ==> forall|k: int|
                        0 <= k < i && (#[trigger] self.spec_gen(k)) is Unknown ==> no_known_parent(
                            *self,
                            k,
                        ),
                    (old(self).at_most_one_child() && old(self).assigned_from_children())
                        ==> self.spec_gens() == old(self).spec_gens(),
                decreases n - i,
            {
                let node_gen = self.gens[i];
                if let Generation::Unknown = node_gen {
                    proof {
                        assert(self.edge_resolved(i as int, Parent::Mother));
                        assert(self.edge_resolved(i as int, Parent::Father));
                    }
                    let mut newval: Option<isize> = None;
                    let ghost mut src: int = 0;
                    if let Some(m) = self.mother_edge[i] {
                        if let Generation::Known(mg) = self.gens[m] {
                            proof {
                                assert(self.spec_gen(m as int) == Generation::Known(mg));
                                assert(known_val(self.spec_gen(m as int)) == mg);
                                assert(-assigned <= mg <= n as int);
                                assert(-(n as int) <= mg);
                                src = m as int;
                            }
                            newval = Some(mg - 1);
                        }
                    }
                    if newval.is_none() {
                        if let Some(f) = self.father_edge[i] {
                            if let Generation::Known(fg) = self.gens[f] {
                                proof {
                                    assert(self.spec_gen(f as int) == Generation::Known(fg));
                                    assert(known_val(self.spec_gen(f as int)) == fg);
                                    assert(-assigned <= fg <= n as int);
                                    assert(-(n as int) <= fg);
                                    src = f as int;
                                }
                                newval = Some(fg - 1);
                            }
                        }
                    }
                    if let Some(x) = newval {
                        proof {
                            assert(self.references(i as int, src) && 0 <= src < n
                                && self.spec_gen(src) is Known);
                            let hyp = old(self).at_most_one_child() && old(
                                self,
                            ).assigned_from_children();
                            if hyp {
                                lemma_backfill_blocked(*old(self), *self, i as int, src);
                                assert(false);
                            }
                        }
                        let ghost before = *self;
                        self.gens.set(i, Generation::Known(x));
                        changed = true;
                        proof {
                            assigned = assigned + 1;
                            lemma_count_known_update(
                                before.spec_gens(),
                                i as int,
                                Generation::Known(x),
                            );
                            lemma_count_known_le(self.spec_gens());
                            assert forall|k: int|
                                0 <= k < n && (#[trigger] self.spec_gen(k)) is Known implies
                                -assigned <= known_val(self.spec_gen(k)) <= n by {
                                if k != i {
                                    assert(self.spec_gen(k) == before.spec_gen(k));
                                }
                            }
                            assert(before.same_shape(&*self));
                            before.lemma_same_shape(&*self);
                            assert forall|k: int|
                                0 <= k < n && old(self).spec_gen(k) is Unknown && (
                                #[trigger] self.spec_gen(k)) is Known implies backfill_justified(
                                *self,
                                k,
                            ) by {
                                if k == i {
                                    assert(self.spec_gen(src) == before.spec_gen(src));
                                    assert(exists|label: Parent|
                                        {
                                            let e = #[trigger] self.spec_edge(k, label);
                                            &&& e matches Some(p)
                                            &&& self.spec_gen(p as int) is Known
                                            &&& known_val(self.spec_gen(k)) == known_val(
                                                self.spec_gen(p as int),
                                            ) - 1
                                        });
                                } else {
                                    assert(before.spec_gen(k) == self.spec_gen(k));
                                    assert(backfill_justified(before, k));
                                    assert(before.spec_gen(i as int) is Unknown);
                                    let label = choose|label: Parent|
                                        {
                                            let e = #[trigger] before.spec_edge(k, label);
                                            &&& e matches Some(p)
                                            &&& before.spec_gen(p as int) is Known
                                            &&& known_val(before.spec_gen(k)) == known_val(
                                                before.spec_gen(p as int),
                                            ) - 1
                                        };
                                    let p = before.spec_edge(k, label)->Some_0 as int;
                                    assert(before.edge_resolved(k, label));
                                    assert(0 <= p < n);
                                    assert(p != i);
                                    assert(self.spec_gen(p) == before.spec_gen(p));
                                    assert({
                                        let e = self.spec_edge(k, label);
                                        &&& e matches Some(q)
                                        &&& self.spec_gen(q as int) is Known
                                        &&& known_val(self.spec_gen(k)) == known_val(
                                            self.spec_gen(q as int),
                                        ) - 1
                                    });
                                }
                            }
                        }
                    }
                }
                i = i + 1;
            }
        }
    }
}

impl FamilyTree {
    /// Assigns a generation to every node the forward traversal can reach
    /// from the anchor, then back-fills nodes the traversal missed from
    /// their generation-resolved parents until no further node can be
    /// resolved. Nodes that neither phase reaches keep the undetermined
    /// state, which is an acceptable terminal outcome.
    pub fn assign_generations(&mut self, anchor: usize)
        requires
            old(self).wf(),
            old(self).is_candidate_leaf(anchor as int),
            old(self).spec_gen(anchor as int) == Generation::Known(0),
            forall|i: int|
                0 <= i < old(self).spec_len() && i != anchor ==> old(self).spec_gen(i)
                    == Generation::Unknown,
        ensures
            final(self).wf(),
            final(self).same_shape(old(self)),
            final(self).spec_gen(anchor as int) == Generation::Known(0),
            forall|i: int|
                0 <= i < final(self).spec_len() && final(self).reachable(anchor as int, i) ==> (
                #[trigger] final(self).spec_gen(i)) is Known,
            forall|i: int|
                0 <= i < final(self).spec_len() && (#[trigger] final(self).spec_gen(i)) is Known
                    && !final(self).reachable(anchor as int, i) ==> backfill_justified(
                    *final(self),
                    i,
                ),
            forall|i: int|
                0 <= i < final(self).spec_len() && (#[trigger] final(self).spec_gen(i)) is Unknown
                    ==> no_known_parent(*final(self), i),
            forall|i: int|
                0 <= i < final(self).spec_len() && (#[trigger] final(self).spec_gen(i)) is Known
                    ==> -(final(self).spec_len() as int) <= known_val(final(self).spec_gen(i))
                    <= final(self).spec_len(),
            final(self).at_most_one_child() ==> final(self).parent_consistent(),
    {
        self.propagate_from(anchor);
        let ghost mid = *self;
        self.back_fill();
        proof {
            assert(mid.same_shape(&*self));
            mid.lemma_same_shape(&*self);
            assert forall|i: int|
                0 <= i < self.spec_len() && self.reachable(anchor as int, i) implies (
            #[trigger] self.spec_gen(i)) is Known by {
                assert(mid.reachable(anchor as int, i));
                assert(mid.spec_gen(i) is Known);
            }
            if self.at_most_one_child() {
                assert(mid.at_most_one_child());
                assert(mid.parent_consistent());
                assert(mid.assigned_from_children());
                assert(self.spec_gens() == mid.spec_gens());
                assert forall|c: int, label: Parent|
                    0 <= c < self.spec_len() && self.spec_gen(c) is Known
                        && (#[trigger] self.spec_edge(c, label)) is Some implies {
                    let p = self.spec_edge(c, label)->Some_0 as int;
                    &&& self.spec_gen(p) is Known
                    &&& known_val(self.spec_gen(p)) == known_val(self.spec_gen(c)) + 1
                } by {
                    assert(mid.spec_edge(c, label) == self.spec_edge(c, label));
                    assert(mid.spec_gen(c) == self.spec_gen(c));
                    let p = mid.spec_edge(c, label)->Some_0 as int;
                    assert(mid.spec_gen(p) is Known && known_val(mid.spec_gen(p)) == known_val(
                        mid.spec_gen(c),
                    ) + 1);
                    assert(mid.spec_gen(p) == self.spec_gen(p));
                }
                assert(self.parent_consistent());
            }
        }
    }
}

/// The records carried by a list of people, in order.
pub open spec fn records_of(people: Seq<Person>) -> Seq<PersonRecord> {
    people.map_values(|p: Person| p.record)
}

/// A candidate leaf, stated over the records alone: no record in the list
/// names this record's id as its mother or father.
pub open spec fn rec_candidate_leaf(records: Seq<PersonRecord>, i: int) -> bool {
    &&& 0 <= i < records.len()
    &&& forall|j: int, label: Parent|
        0 <= j < records.len() ==> #[trigger] parent_ref(records[j], label) != Some(records[i].id)
}

/// The record's stated parent under `label` is the id of some record in
/// the list.
pub open spec fn rec_resolves(records: Seq<PersonRecord>, i: int, label: Parent) -> bool {
    exists|j: int|
        0 <= j < records.len() && parent_ref(records[i], label) == Some(#[trigger] records[j].id)
}

/// Some record is a candidate leaf.
pub open spec fn rec_has_candidate(records: Seq<PersonRecord>) -> bool {
    exists|i: int| rec_candidate_leaf(records, i)
}

/// At least two distinct records are candidate leaves.
pub open spec fn rec_several_candidates(records: Seq<PersonRecord>) -> bool {
    exists|i: int, j: int|
        i != j && rec_candidate_leaf(records, i) && rec_candidate_leaf(records, j)
}

/// Every candidate leaf states a mother and a father that both resolve.
pub open spec fn rec_leaves_fully_parented(records: Seq<PersonRecord>) -> bool {
    forall|i: int|
        #[trigger] rec_candidate_leaf(records, i) ==> rec_resolves(records, i, Parent::Mother)
            && rec_resolves(records, i, Parent::Father)
}

impl FamilyTree {
    /// Edge directionality: an edge leaves node `i` under `label` exactly
    /// when the record's stated parent id belongs to a loaded record, and
    /// it then points at the node holding that id.
    pub proof fn lemma_edge_directionality(&self, i: int, label: Parent)
        requires
            self.wf(),
            0 <= i < self.spec_len(),
        ensures
            (self.spec_edge(i, label) is Some) <==> rec_resolves(self.spec_records(), i, label),
            self.spec_edge(i, label) matches Some(j) ==> 0 <= (j as int) < self.spec_len()
                && parent_ref(self.spec_record(i), label) == Some(self.spec_record(j as int).id),
    {
        assert(self.edge_resolved(i, label));
        match self.spec_edge(i, label) {
            Some(j) => {
                assert(parent_ref(self.spec_records()[i], label) == Some(
                    self.spec_records()[j as int].id,
                ));
                assert(rec_resolves(self.spec_records(), i, label));
            },
            None => {
                if rec_resolves(self.spec_records(), i, label) {
                    let j = choose|j: int|
                        0 <= j < self.spec_records().len() && parent_ref(
                            self.spec_records()[i],
                            label,
                        ) == Some(self.spec_records()[j].id);
                    assert(false);
                }
            },
        }
    }

    /// A node is a candidate leaf exactly when no record in the loaded
    /// set states its id as a mother or father.
    pub proof fn lemma_candidate_leaf_characterization(&self, i: int)
        requires
            self.wf(),
            0 <= i < self.spec_len(),
        ensures
            self.is_candidate_leaf(i) <==> rec_candidate_leaf(self.spec_records(), i),
    {
        let records = self.spec_records();
        if self.is_candidate_leaf(i) {
            assert forall|j: int, label: Parent|
                0 <= j < records.len() implies #[trigger] parent_ref(records[j], label) != Some(
                records[i].id,
            ) by {
                if parent_ref(records[j], label) == Some(records[i].id) {
                    assert(self.edge_resolved(j, label));
                    match self.spec_edge(j, label) {
                        Some(t) => {
                            assert(parent_ref(records[j], label) == Some(records[t as int].id));
                            assert(records[t as int].id == records[i].id);
                            assert(rec_ids_distinct(records));
                            assert(t as int == i);
                            assert(self.references(j, i));
                            assert(false);
                        },
                        None => {
                            assert(no_loaded_match(records, parent_ref(records[j], label)));
                            assert(parent_ref(records[j], label) != Some(records[i].id));
                            assert(false);
                        },
                    }
                }
            }
        }
        if rec_candidate_leaf(records, i) {
            assert forall|c: int|
                0 <= c < self.spec_len() implies !(#[trigger] self.references(c, i)) by {
                if self.references(c, i) {
                    if self.spec_edge(c, Parent::Mother) == Some(i as usize) {
                        assert(self.edge_resolved(c, Parent::Mother));
                        assert(parent_ref(records[c], Parent::Mother) == Some(records[i].id));
                    } else {
                        assert(self.spec_edge(c, Parent::Father) == Some(i as usize));
                        assert(self.edge_resolved(c, Parent::Father));
                        assert(parent_ref(records[c], Parent::Father) == Some(records[i].id));
                    }
                    assert(false);
                }
            }
        }
    }

    /// The leaf-level predicates that decide anchor selection coincide
    /// with their record-level statements.
    pub proof fn lemma_leaf_predicates(&self)
        requires
            self.wf(),
        ensures
            self.has_candidate_leaf() == rec_has_candidate(self.spec_records()),
            self.several_candidates() == rec_several_candidates(self.spec_records()),
            self.leaves_fully_parented() == rec_leaves_fully_parented(self.spec_records()),
            forall|i: int|
                0 <= i < self.spec_len() ==> (#[trigger] self.is_candidate_leaf(i)
                    == rec_candidate_leaf(self.spec_records(), i)),
    {
        let records = self.spec_records();
        assert forall|i: int|
            0 <= i < self.spec_len() implies (#[trigger] self.is_candidate_leaf(i)
            == rec_candidate_leaf(records, i)) by {
            self.lemma_candidate_leaf_characterization(i);
        }
        if self.has_candidate_leaf() {
            let i = choose|i: int| self.is_candidate_leaf(i);
            assert(rec_candidate_leaf(records, i));
            assert(rec_has_candidate(records));
        }
        if rec_has_candidate(records) {
            let i = choose|i: int| rec_candidate_leaf(records, i);
            assert(self.is_candidate_leaf(i));
            assert(self.has_candidate_leaf());
        }
        if self.several_candidates() {
            let (i, j) = choose|i: int, j: int|
                i != j && self.is_candidate_leaf(i) && self.is_candidate_leaf(j);
            assert(rec_candidate_leaf(records, i) && rec_candidate_leaf(records, j));
            assert(rec_several_candidates(records));
        }
        if rec_several_candidates(records) {
            let (i, j) = choose|i: int, j: int|
                i != j && rec_candidate_leaf(records, i) && rec_candidate_leaf(records, j);
            assert(self.is_candidate_leaf(i) && self.is_candidate_leaf(j));
            assert(self.several_candidates());
        }
        assert(self.leaves_fully_parented() == rec_leaves_fully_parented(records)) by {
            if self.leaves_fully_parented() {
                assert forall|i: int|
                    #[trigger] rec_candidate_leaf(records, i) implies rec_resolves(
                    records,
                    i,
                    Parent::Mother,
                ) && rec_resolves(records, i, Parent::Father) by {
                    assert(self.is_candidate_leaf(i));
                    assert(self.fully_parented(i));
                    self.lemma_edge_directionality(i, Parent::Mother);
                    self.lemma_edge_directionality(i, Parent::Father);
                }
            }
            if rec_leaves_fully_parented(records) {
                assert forall|i: int|
                    #[trigger] self.is_candidate_leaf(i) implies self.fully_parented(i) by {
                    assert(rec_candidate_leaf(records, i));
                    self.lemma_edge_directionality(i, Parent::Mother);
                    self.lemma_edge_directionality(i, Parent::Father);
                }
            }
        }
    }
}

/// The anchor `a` and the generation labeling around it, as the whole
/// pipeline promises it: the anchor is the first candidate leaf and holds
/// generation zero, every node reachable from it is labeled, every other
/// labeled node took its value from a labeled parent, and the nodes still
/// undetermined have no labeled parent to take a value from.
pub open spec fn anchored(tree: FamilyTree, a: int) -> bool {
    &&& tree.is_candidate_leaf(a)
    &&& forall|i: int| #[trigger] tree.is_candidate_leaf(i) ==> a <= i
    &&& tree.spec_gen(a) == Generation::Known(0)
    &&& forall|i: int|
        0 <= i < tree.spec_len() && tree.reachable(a, i) ==> (#[trigger] tree.spec_gen(i)) is Known
    &&& forall|i: int|
        0 <= i < tree.spec_len() && (#[trigger] tree.spec_gen(i)) is Known && !tree.reachable(a, i)
            ==> backfill_justified(tree, i)
    &&& forall|i: int|
        0 <= i < tree.spec_len() && (#[trigger] tree.spec_gen(i)) is Unknown ==> no_known_parent(
            tree,
            i,
        )
    &&& forall|i: int|
        0 <= i < tree.spec_len() && (#[trigger] tree.spec_gen(i)) is Known ==> -(
        tree.spec_len() as int) <= known_val(tree.spec_gen(i)) <= tree.spec_len()
}

impl FamilyTree {
    /// Builds the graph from the given people, selects the anchor, and
    /// assigns generations to every node either phase can resolve. The
    /// fatal conditions of anchor selection abort the whole computation,
    /// exactly when they hold of the input records.
    pub fn new(people: Vec<Person>) -> (r: Result<FamilyTree, TreeError>)
        requires
            ids_distinct(people@),
            people@.len() <= isize::MAX,
            forall|i: int|
                0 <= i < people@.len() ==> (#[trigger] people@[i]).generation
                    == Generation::Unknown,
        ensures
            match r {
                Ok(tree) => {
                    &&& tree.wf()
                    &&& tree.spec_len() == people@.len()
                    &&& forall|i: int|
                        0 <= i < people@.len() ==> tree.spec_record(i) == (
                        #[trigger] people@[i]).record
                    &&& exists|a: int| #[trigger] anchored(tree, a)
                    &&& (tree.at_most_one_child() ==> tree.parent_consistent())
                },
                Err(TreeError::NoCandidateLeaf) => !rec_has_candidate(records_of(people@)),
                Err(TreeError::LeafMissingParent) => rec_has_candidate(records_of(people@))
                    && rec_several_candidates(records_of(people@)) && !rec_leaves_fully_parented(
                    records_of(people@),
                ),
            },
            r is Err <==> (!rec_has_candidate(records_of(people@)) || (rec_several_candidates(
                records_of(people@),
            ) && !rec_leaves_fully_parented(records_of(people@)))),
    {
        let ghost opeople = people@;
        let mut tree = Self::build(people);
        proof {
            assert(tree.spec_records() =~= records_of(opeople)) by {
                assert forall|i: int|
                    0 <= i < opeople.len() implies tree.spec_records()[i] == records_of(opeople)[i] by {
                    assert(tree.spec_person(i) == opeople[i]);
                }
            }
            assert(tree.all_unknown()) by {
                assert forall|i: int|
                    0 <= i < tree.spec_len() implies tree.spec_gen(i) == Generation::Unknown by {
                    assert(tree.spec_person(i) == opeople[i]);
                }
            }
        }
        let anchor_res = tree.select_anchor();
        let anchor = match anchor_res {
            Ok(a) => a,
            Err(e) => {
                proof {
                    tree.lemma_leaf_predicates();
                }
                return Err(e);
            },
        };
        let ghost selected = tree;
        tree.assign_generations(anchor);
        proof {
            selected.lemma_leaf_predicates();
            assert(selected.same_shape(&tree));
            selected.lemma_same_shape(&tree);
            assert(anchored(tree, anchor as int)) by {
                assert(tree.is_candidate_leaf(anchor as int));
                assert forall|i: int| #[trigger]
                    tree.is_candidate_leaf(i) implies anchor as int <= i by {
                    assert(selected.is_candidate_leaf(i));
                }
            }
            assert forall|i: int|
                0 <= i < opeople.len() implies tree.spec_record(i) == (
            #[trigger] opeople[i]).record by {
                assert(tree.spec_records() == selected.spec_records());
            }
        }
        Ok(tree)
    }
}

impl FamilyTree {
    /// The number of nodes in the graph.
    pub fn len(&self) -> (n: usize)
        ensures
            n == self.spec_len(),
    {
        self.records.len()
    }

    /// The node index that the given id maps to, if the id is loaded.
    pub fn id2index(&self, id: usize) -> (r: Option<usize>)
        requires
            self.wf(),
        ensures
            match r {
                Some(i) => (i as int) < self.spec_len() && self.spec_record(i as int).id == id,
                None => forall|i: int|
                    0 <= i < self.spec_len() ==> self.spec_record(i).id != id,
            },
    {
        let r = match self.person_map.get(&id) {
            Some(i) => Some(*i),
            None => None,
        };
        proof {
            match r {
                Some(i) => {
                    assert(self.spec_map().contains_key(id) && self.spec_map()[id] == i);
                    assert(exists|w: int|
                        0 <= w < self.spec_records().len() && self.spec_records()[w].id == id);
                    let w = choose|w: int|
                        0 <= w < self.spec_records().len() && self.spec_records()[w].id == id;
                    assert(self.spec_map().contains_key(self.spec_records()[w].id)
                        && self.spec_map()[self.spec_records()[w].id] == w as usize);
                    assert(i as int == w);
                },
                None => {
                    assert forall|i: int|
                        0 <= i < self.spec_len() implies self.spec_record(i).id != id by {
                        assert(self.spec_map().contains_key(self.spec_record(i).id));
                    }
                },
            }
        }
        r
    }

    /// The record stored at a node index.
    pub fn index2record(&self, index: usize) -> (r: &PersonRecord)
        requires
            self.wf(),
            (index as int) < self.spec_len(),
        ensures
            *r == self.spec_record(index as int),
    {
        &self.records[index]
    }

    /// The record of the person with the given id, if the id is loaded.
    pub fn id2record(&self, id: usize) -> (r: Option<&PersonRecord>)
        requires
            self.wf(),
        ensures
            match r {
                Some(rec) => exists|i: int|
                    0 <= i < self.spec_len() && *rec == self.spec_record(i)
                        && self.spec_record(i).id == id,
                None => forall|i: int|
                    0 <= i < self.spec_len() ==> self.spec_record(i).id != id,
            },
    {
        match self.id2index(id) {
            Some(i) => Some(self.index2record(i)),
            None => None,
        }
    }

    /// The generation state held at a node index.
    pub fn generation_of(&self, index: usize) -> (g: Generation)
        requires
            self.wf(),
            (index as int) < self.spec_len(),
        ensures
            g == self.spec_gen(index as int),
    {
        self.gens[index]
    }

    /// The labeled parent edge out of a node, if it exists.
    pub fn edge(&self, index: usize, label: Parent) -> (r: Option<usize>)
        requires
            self.wf(),
            (index as int) < self.spec_len(),
        ensures
            r == self.spec_edge(index as int, label),
            r matches Some(j) ==> (j as int) < self.spec_len(),
    {
        proof {
            assert(self.edge_resolved(index as int, label));
        }
        match label {
            Parent::Mother => self.mother_edge[index],
            Parent::Father => self.father_edge[index],
        }
    }

    /// The node index of a node's mother, if she is in the loaded set.
    pub fn mother_index(&self, index: usize) -> (r: Option<usize>)
        requires
            self.wf(),
            (index as int) < self.spec_len(),
        ensures
            r == self.spec_edge(index as int, Parent::Mother),
            r matches Some(j) ==> (j as int) < self.spec_len(),
    {
        self.edge(index, Parent::Mother)
    }

    /// The node index of a node's father, if he is in the loaded set.
    pub fn father_index(&self, index: usize) -> (r: Option<usize>)
        requires
            self.wf(),
            (index as int) < self.spec_len(),
        ensures
            r == self.spec_edge(index as int, Parent::Father),
            r matches Some(j) ==> (j as int) < self.spec_len(),
    {
        self.edge(index, Parent::Father)
    }

    /// The largest assigned generation, absent when no node is assigned.
    pub fn max_generation(&self) -> (r: Option<isize>)
        requires
            self.wf(),
        ensures
            match r {
                Some(m) => (exists|i: int|
                    0 <= i < self.spec_len() && self.spec_gen(i) == Generation::Known(m)) && forall|
                    i: int,
                |
                    0 <= i < self.spec_len() && (#[trigger] self.spec_gen(i)) is Known ==> known_val(
                        self.spec_gen(i),
                    ) <= m,
                None => forall|i: int|
                    0 <= i < self.spec_len() ==> (#[trigger] self.spec_gen(i)) is Unknown,
            },
    {
        let n = self.records.len();
        let mut best: Option<isize> = None;
        let mut i: usize = 0;
        while i < n
            invariant
                self.wf(),
                i <= n,
                n == self.spec_len(),
                match best {
                    Some(m) => (exists|k: int|
                        0 <= k < i && self.spec_gen(k) == Generation::Known(m)) && forall|k: int|
                        0 <= k < i && (#[trigger] self.spec_gen(k)) is Known ==> known_val(
                            self.spec_gen(k),
                        ) <= m,
                    None => forall|k: int|
                        0 <= k < i ==> (#[trigger] self.spec_gen(k)) is Unknown,
                },
            decreases n - i,
        {
            if let Generation::Known(g) = self.gens[i] {
                proof {
                    assert(self.spec_gen(i as int) == Generation::Known(g));
                }
                match best {
                    Some(m) => {
                        if g > m {
                            best = Some(g);
                        }
                    },
                    None => {
                        best = Some(g);
                    },
                }
            }
            i = i + 1;
        }
        best
    }

    /// The node indices holding exactly the given generation, in
    /// increasing order, each exactly once.
    pub fn members_of_generation(&self, g: isize) -> (members: Vec<usize>)
        requires
            self.wf(),
        ensures
            forall|k: int|
                0 <= k < members@.len() ==> ((#[trigger] members@[k]) as int) < self.spec_len()
                    && self.spec_gen(members@[k] as int) == Generation::Known(g),
            forall|i: int|
                0 <= i < self.spec_len() && self.spec_gen(i) == Generation::Known(g)
                    ==> members@.contains(i as usize),
            forall|k1: int, k2: int|
                0 <= k1 < k2 < members@.len() ==> members@[k1] < members@[k2],
    {
        let n = self.records.len();
        let mut members: Vec<usize> = Vec::new();
        let mut i: usize = 0;
        while i < n
            invariant
                self.wf(),
                i <= n,
                n == self.spec_len(),
                forall|k: int|
                    0 <= k < members@.len() ==> ((#[trigger] members@[k]) as int) < n
                        && (members@[k] as int) < i && self.spec_gen(members@[k] as int)
                        == Generation::Known(g),
                forall|t: int|
                    0 <= t < i && self.spec_gen(t) == Generation::Known(g) ==> members@.contains(
                        t as usize,
                    ),
                forall|k1: int, k2: int|
                    0 <= k1 < k2 < members@.len() ==> members@[k1] < members@[k2],
            decreases n - i,
        {
            let ghost members0 = members@;
            if let Generation::Known(x) = self.gens[i] {
                if x == g {
                    members.push(i);
                }
            }
            proof {
                assert forall|t: int|
                    0 <= t < i + 1 && self.spec_gen(t) == Generation::Known(g)
                        implies members@.contains(t as usize) by {
                    if t < i {
                        let k = choose|k: int|
                            0 <= k < members0.len() && members0[k] == t as usize;
                        assert(members@[k] == t as usize);
                    } else {
                        assert(members@[members@.len() - 1] == t as usize);
                    }
                }
            }
            i = i + 1;
        }
        members
    }
}

/// The integer held by a known generation state.
pub open spec fn known_val(g: Generation) -> int {
    g->Known_0 as int
}

/// The node took its generation from a parent whose generation is known:
/// one below the mother's or one below the father's.
pub open spec fn backfill_justified(t: FamilyTree, i: int) -> bool {
    exists|label: Parent|
        {
            let e = #[trigger] t.spec_edge(i, label);
            &&& e matches Some(p)
            &&& t.spec_gen(p as int) is Known
            &&& known_val(t.spec_gen(i)) == known_val(t.spec_gen(p as int)) - 1
        }
}

/// Neither stated parent of the node resolves to a generation-labeled
/// node: back-fill can never assign it.
pub open spec fn no_known_parent(t: FamilyTree, i: int) -> bool {
    forall|label: Parent|
        (#[trigger] t.spec_edge(i, label)) matches Some(p) ==> t.spec_gen(p as int) is Unknown
}

/// Under the one-child shape, a graph whose labeled nodes all owe their
/// values to labeled children leaves back-fill nothing to do: a node
/// whose parent is labeled must itself be labeled already, being that
/// parent's only child.
proof fn lemma_backfill_blocked(orig: FamilyTree, cur: FamilyTree, i: int, src: int)
    requires
        orig.wf(),
        cur.wf(),
        cur.same_shape(&orig),
        orig.at_most_one_child(),
        orig.assigned_from_children(),
        cur.spec_gens() == orig.spec_gens(),
        0 <= i < cur.spec_len(),
        0 <= src < cur.spec_len(),
        cur.references(i, src),
        cur.spec_gen(src) is Known,
    ensures
        cur.spec_gen(i) is Known,
{
    cur.lemma_same_shape(&orig);
    assert(orig.references(i, src));
    assert(orig.spec_gen(src) is Known);
    if exists|c: int|
        0 <= c < orig.spec_len() && orig.spec_gen(c) is Known && orig.references(c, src)
            && known_val(orig.spec_gen(src)) == known_val(orig.spec_gen(c)) + 1 {
        let c = choose|c: int|
            0 <= c < orig.spec_len() && orig.spec_gen(c) is Known && orig.references(c, src)
                && known_val(orig.spec_gen(src)) == known_val(orig.spec_gen(c)) + 1;
        assert(c == i);
    } else {
        assert(!orig.references(i, src));
    }
}

/// The number of generation-labeled entries in a sequence.
pub(crate) closed spec fn count_known(s: Seq<Generation>) -> nat
    decreases s.len(),
{
    if s.len() == 0 {
        0
    } else {
        count_known(s.drop_last()) + if s.last() is Known {
            1nat
        } else {
            0nat
        }
    }
}

proof fn lemma_count_known_le(s: Seq<Generation>)
    ensures
        count_known(s) <= s.len(),
    decreases s.len(),
{
    if s.len() > 0 {
        lemma_count_known_le(s.drop_last());
    }
}

proof fn lemma_count_known_update(s: Seq<Generation>, i: int, g: Generation)
    requires
        0 <= i < s.len(),
    ensures
        count_known(s.update(i, g)) == count_known(s) - (
        if s[i] is Known {
            1int
        } else {
            0int
        }) + (
        if g is Known {
            1int
        } else {
            0int
        }),
    decreases s.len(),
{
    let t = s.update(i, g);
    if i == s.len() - 1 {
        assert(t.drop_last() =~= s.drop_last());
        assert(t.last() == g);
        assert(s.last() == s[i]);
    } else {
        assert(t.drop_last() =~= s.drop_last().update(i, g));
        lemma_count_known_update(s.drop_last(), i, g);
        assert(t.last() == s.last());
    }
}

/// A node is counted as processed once it has been taken off the
/// traversal stack: it is visited and no longer waiting.
pub(crate) open spec fn processed(vis: Seq<bool>, stk: Seq<usize>, c: int) -> bool {
    0 <= c < vis.len() && vis[c] && !stk.contains(c as usize)
}

/// The number of true entries in a boolean sequence.
pub(crate) closed spec fn count_true(s: Seq<bool>) -> nat
    decreases s.len(),
{
    if s.len() == 0 {
        0
    } else {
        count_true(s.drop_last()) + if s.last() {
            1nat
        } else {
            0nat
        }
    }
}

proof fn lemma_count_true_le(s: Seq<bool>)
    ensures
        count_true(s) <= s.len(),
    decreases s.len(),
{
    if s.len() > 0 {
        lemma_count_true_le(s.drop_last());
    }
}

proof fn lemma_count_true_zero(s: Seq<bool>)
    requires
        forall|i: int| 0 <= i < s.len() ==> !s[i],
    ensures
        count_true(s) == 0,
    decreases s.len(),
{
    if s.len() > 0 {
        lemma_count_true_zero(s.drop_last());
    }
}

proof fn lemma_count_true_update(s: Seq<bool>, i: int, b: bool)
    requires
        0 <= i < s.len(),
    ensures
        count_true(s.update(i, b)) == count_true(s) - (
        if s[i] {
            1int
        } else {
            0int
        }) + (
        if b {
            1int
        } else {
            0int
        }),
    decreases s.len(),
{
    let t = s.update(i, b);
    if i == s.len() - 1 {
        assert(t.drop_last() =~= s.drop_last());
        assert(t.last() == b);
        assert(s.last() == s[i]);
    } else {
        assert(t.drop_last() =~= s.drop_last().update(i, b));
        lemma_count_true_update(s.drop_last(), i, b);
        assert(t.last() == s.last());
    }
}

} // verus!
