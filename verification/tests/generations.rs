use family_tree::graph::{FamilyTree, TreeError};
use family_tree::person::{Generation, Parent, Person, PersonRecord};

fn rec(id: usize, mother: Option<usize>, father: Option<usize>) -> PersonRecord {
    PersonRecord {
        id,
        first_name: format!("first{}", id),
        middle_name: String::new(),
        last_name: format!("last{}", id),
        mother,
        father,
        dob: String::new(),
        dod: String::new(),
        pob: String::new(),
        pod: String::new(),
        notes: String::new(),
    }
}

fn person(id: usize, mother: Option<usize>, father: Option<usize>) -> Person {
    Person { record: rec(id, mother, father), generation: Generation::Unknown }
}

fn generations(tree: &FamilyTree) -> Vec<Generation> {
    let mut out = Vec::new();
    let mut i = 0;
    while i < tree.len() {
        out.push(tree.generation_of(i));
        i += 1;
    }
    out
}

#[test]
fn simple_chain() {
    // One candidate leaf with only a mother: the single candidate anchors
    // directly, and the mother lands one generation up.
    let people = vec![person(1, Some(2), None), person(2, None, None)];
    let tree = FamilyTree::new(people).expect("chain must anchor");
    assert_eq!(tree.len(), 2);
    assert_eq!(tree.generation_of(0), Generation::Known(0));
    assert_eq!(tree.generation_of(1), Generation::Known(1));
}

#[test]
fn two_siblings_two_grandparents() {
    // Both siblings end at generation 0 and both parents at 1; the
    // non-anchor sibling must not stay undetermined.
    let people = vec![
        person(1, Some(3), Some(4)),
        person(2, Some(3), Some(4)),
        person(3, None, None),
        person(4, None, None),
    ];
    let tree = FamilyTree::new(people).expect("siblings must anchor");
    assert_eq!(generations(&tree), vec![
        Generation::Known(0),
        Generation::Known(0),
        Generation::Known(1),
        Generation::Known(1),
    ]);
}

#[test]
fn dangling_parent_reference() {
    // A stated mother id outside the loaded set yields no edge and no error.
    let people = vec![person(1, Some(99), None)];
    let tree = FamilyTree::new(people).expect("single node must anchor");
    assert_eq!(tree.edge(0, Parent::Mother), None);
    assert_eq!(tree.edge(0, Parent::Father), None);
    assert_eq!(tree.generation_of(0), Generation::Known(0));
}

#[test]
fn disconnected_orphan_stays_unknown() {
    // Nodes the traversal never reaches, whose parents never resolve,
    // keep the undetermined state after back-fill terminates.
    let people = vec![
        person(1, Some(3), Some(4)),
        person(3, None, None),
        person(4, None, None),
        person(9, Some(10), Some(11)),
        person(10, None, None),
        person(11, None, None),
    ];
    let tree = FamilyTree::new(people).expect("must anchor at the first leaf");
    assert_eq!(tree.generation_of(0), Generation::Known(0));
    assert_eq!(tree.generation_of(1), Generation::Known(1));
    assert_eq!(tree.generation_of(2), Generation::Known(1));
    assert_eq!(tree.generation_of(3), Generation::Unknown);
    assert_eq!(tree.generation_of(4), Generation::Unknown);
    assert_eq!(tree.generation_of(5), Generation::Unknown);
}

#[test]
fn edge_directionality() {
    // An edge exists exactly when the stated parent id is loaded, and it
    // points at the node holding that id.
    let people = vec![person(1, Some(2), Some(77)), person(2, None, None)];
    let tree = FamilyTree::build(people);
    assert_eq!(tree.edge(0, Parent::Mother), Some(1));
    assert_eq!(tree.edge(0, Parent::Father), None);
    assert_eq!(tree.edge(1, Parent::Mother), None);
    assert_eq!(tree.edge(1, Parent::Father), None);
}

#[test]
fn candidate_leaves_are_the_unreferenced() {
    // A node is a candidate leaf iff no other node names its id.
    let people = vec![
        person(1, Some(3), Some(4)),
        person(2, Some(3), Some(4)),
        person(3, None, None),
        person(4, None, None),
    ];
    let tree = FamilyTree::build(people);
    assert_eq!(tree.candidate_leaves(), vec![0, 1]);
}

#[test]
fn anchor_selection_marks_exactly_one_node() {
    // Immediately after anchor selection exactly one node holds
    // generation 0, and it is a candidate leaf.
    let people = vec![
        person(1, Some(3), Some(4)),
        person(2, Some(3), Some(4)),
        person(3, None, None),
        person(4, None, None),
    ];
    let mut tree = FamilyTree::build(people);
    let leaves = tree.candidate_leaves();
    let anchor = tree.select_anchor().expect("must anchor");
    assert!(leaves.contains(&anchor));
    let mut zero_count = 0;
    let mut i = 0;
    while i < tree.len() {
        match tree.generation_of(i) {
            Generation::Known(0) => zero_count += 1,
            Generation::Known(_) => panic!("only generation 0 may be assigned here"),
            Generation::Unknown => {}
        }
        i += 1;
    }
    assert_eq!(zero_count, 1);
    assert_eq!(tree.generation_of(anchor), Generation::Known(0));
}

#[test]
fn generation_monotone_on_chain() {
    // On a single-child chain, every edge joins a child to a parent one
    // generation above it.
    let people = vec![
        person(1, Some(2), None),
        person(2, Some(3), Some(4)),
        person(3, None, None),
        person(4, None, None),
    ];
    let tree = FamilyTree::new(people).expect("chain must anchor");
    let mut child = 0;
    while child < tree.len() {
        for label in [Parent::Mother, Parent::Father] {
            if let Some(parent) = tree.edge(child, label) {
                let (cg, pg) = (tree.generation_of(child), tree.generation_of(parent));
                if let (Generation::Known(c), Generation::Known(p)) = (cg, pg) {
                    assert_eq!(p, c + 1);
                } else {
                    panic!("chain nodes must all be assigned");
                }
            }
        }
        child += 1;
    }
}

#[test]
fn back_fill_takes_parent_minus_one() {
    // Nodes the traversal misses take a resolved parent's generation
    // minus one, pass by pass: person 2 from mother 3, then person 5
    // from mother 2, ending one generation below the anchor.
    let people = vec![
        person(1, Some(3), Some(4)),
        person(2, Some(3), Some(4)),
        person(3, None, None),
        person(4, None, None),
        person(5, Some(2), Some(4)),
    ];
    let tree = FamilyTree::new(people).expect("must anchor at node 1");
    assert_eq!(tree.generation_of(0), Generation::Known(0));
    assert_eq!(tree.generation_of(1), Generation::Known(0));
    assert_eq!(tree.generation_of(2), Generation::Known(1));
    assert_eq!(tree.generation_of(3), Generation::Known(1));
    assert_eq!(tree.generation_of(4), Generation::Known(-1));
}

#[test]
fn no_candidate_leaf_is_fatal() {
    // A two-cycle leaves every node with an incoming edge: nothing can
    // anchor the graph.
    let people = vec![person(1, Some(2), None), person(2, Some(1), None)];
    match FamilyTree::new(people) {
        Err(TreeError::NoCandidateLeaf) => {}
        Err(other) => panic!("wrong error: {:?}", other),
        Ok(_) => panic!("a cycle must not anchor"),
    }
}

#[test]
fn competing_leaf_missing_parent_is_fatal() {
    // With several candidate leaves, each must have both parents
    // resolvable; node 2 lacks a father.
    let people = vec![
        person(1, Some(3), Some(4)),
        person(2, Some(3), None),
        person(3, None, None),
        person(4, None, None),
    ];
    let mut tree = FamilyTree::build(people);
    assert_eq!(tree.select_anchor(), Err(TreeError::LeafMissingParent));
}

#[test]
fn anchor_prefers_smallest_node_index() {
    // The tie among candidate leaves goes to the smallest node index.
    let people = vec![
        person(5, Some(3), Some(4)),
        person(2, Some(3), Some(4)),
        person(3, None, None),
        person(4, None, None),
    ];
    let mut tree = FamilyTree::build(people);
    let anchor = tree.select_anchor().expect("must anchor");
    assert_eq!(anchor, 0);
}

#[test]
fn max_generation_and_members() {
    let people = vec![
        person(1, Some(3), Some(4)),
        person(2, Some(3), Some(4)),
        person(3, None, None),
        person(4, None, None),
    ];
    let tree = FamilyTree::new(people).expect("must anchor");
    assert_eq!(tree.max_generation(), Some(1));
    assert_eq!(tree.members_of_generation(0), vec![0, 1]);
    assert_eq!(tree.members_of_generation(1), vec![2, 3]);
    assert_eq!(tree.members_of_generation(2), Vec::<usize>::new());
}

#[test]
fn max_generation_empty() {
    let tree = FamilyTree::build(Vec::new());
    assert_eq!(tree.max_generation(), None);
}

#[test]
fn id_lookup() {
    let people = vec![person(10, None, None), person(20, Some(10), None)];
    let tree = FamilyTree::build(people);
    assert_eq!(tree.id2index(10), Some(0));
    assert_eq!(tree.id2index(20), Some(1));
    assert_eq!(tree.id2index(30), None);
    assert_eq!(tree.id2record(20).map(|r| r.id), Some(20));
    assert!(tree.id2record(30).is_none());
    assert_eq!(tree.mother_index(1), Some(0));
    assert_eq!(tree.father_index(1), None);
}
