//! The node payload of the ancestry graph: person records, the tagged
//! generation state of a node, and the edge labels.

use vstd::prelude::*;
use vstd::multiset::Multiset;

verus! {

broadcast use vstd::seq_lib::group_to_multiset_ensures, Seq::<_>::group_seq_extra;

/// The generation state of a node: either still undetermined, or a signed
/// distance from the anchor node (the anchor itself holds `Known(0)`,
/// ancestors hold larger values).
#[derive(Clone, Copy, Debug, PartialEq, Eq, Structural)]
pub enum Generation {
    Unknown,
    Known(isize),
}

/// One row of the input data set: a unique numeric id, identity fields,
/// and optional references to a mother and a father by id.
#[derive(Clone, Debug)]
pub struct PersonRecord {
    pub id: usize,
    pub first_name: String,
    pub middle_name: String,
    pub last_name: String,
    pub mother: Option<usize>,
    pub father: Option<usize>,
    pub dob: String,
    pub dod: String,
    pub pob: String,
    pub pod: String,
    pub notes: String,
}

/// A graph node: the immutable input record plus the one mutable field,
/// the generation assigned to the node.
#[derive(Clone, Debug)]
pub struct Person {
    pub record: PersonRecord,
    pub generation: Generation,
}

/// The label of a directed edge from a child node to a parent node.
#[derive(Clone, Copy, Debug, PartialEq, Eq, Structural)]
pub enum Parent {
    Mother,
    Father,
}

/// No two people in the list share an id.
pub open spec fn ids_distinct(people: Seq<Person>) -> bool {
    forall|i: int, j: int|
        0 <= i < j < people.len() ==> people[i].record.id != people[j].record.id
}

/// A record is kept only when it carries a first or a last name.
pub open spec fn named(r: PersonRecord) -> bool {
    r.first_name@.len() > 0 || r.last_name@.len() > 0
}

/// A fresh graph node for a record: its generation still undetermined.
pub open spec fn fresh_person(r: PersonRecord) -> Person {
    Person { record: r, generation: Generation::Unknown }
}

/// The list is sorted by id, in nondecreasing order.
pub open spec fn sorted_by_id(people: Seq<Person>) -> bool {
    forall|k1: int, k2: int|
        0 <= k1 < k2 < people.len() ==> people[k1].record.id <= people[k2].record.id
}

/// An id shifted by the renumbering rule: ids at or below the cut keep
/// their value, ids above it move up by `amount`.
pub open spec fn shifted(after: int, amount: int, id: int) -> int {
    if id <= after {
        id
    } else {
        id + amount
    }
}

/// An id that the renumbering accepts: it lies in the loaded id range and
/// its shifted value still fits the id type.
pub open spec fn shiftable(first: int, last: int, after: int, amount: int, id: int) -> bool {
    &&& first <= id <= last
    &&& id > after ==> id + amount <= usize::MAX
}

impl Person {
    /// Decides whether the ids in the list are pairwise distinct, the
    /// uniqueness invariant that the id-to-node index relies on.
    pub fn ids_unique(people: &Vec<Person>) -> (unique: bool)
        ensures
            unique == ids_distinct(people@),
    {
        let n = people.len();
        let mut i: usize = 0;
        while i < n
            invariant
                i <= n,
                n == people@.len(),
                forall|p: int, q: int|
                    0 <= p < q < people@.len() && p < i ==> people@[p].record.id
                        != people@[q].record.id,
            decreases n - i,
        {
            let mut j: usize = i + 1;
            while j < n
                invariant
                    i < j <= n,
                    n == people@.len(),
                    forall|q: int| i < q < j ==> people@[i as int].record.id != people@[q].record.id,
                decreases n - j,
            {
                if people[i].record.id == people[j].record.id {
                    return false;
                }
                j = j + 1;
            }
            i = i + 1;
        }
        true
    }

    /// Turns raw input records into graph-ready people: records with no
    /// first and no last name are dropped, every kept person starts with
    /// an undetermined generation, and the result is sorted by id.
    pub fn from_records(records: Vec<PersonRecord>) -> (people: Vec<Person>)
        ensures
            sorted_by_id(people@),
            people@.to_multiset() == records@.filter(|r: PersonRecord| named(r)).map_values(
                |r: PersonRecord| fresh_person(r),
            ).to_multiset(),
    {
        let ghost orecords = records@;
        let mut rest = records;
        let mut kept: Vec<Person> = Vec::new();
        while rest.len() > 0
            invariant
                rest@.filter(|r: PersonRecord| named(r)).map_values(
                    |r: PersonRecord| fresh_person(r),
                ).to_multiset().add(kept@.to_multiset()) == orecords.filter(
                    |r: PersonRecord| named(r),
                ).map_values(|r: PersonRecord| fresh_person(r)).to_multiset(),
            decreases rest@.len(),
        {
            let ghost rest0 = rest@;
            let record = match rest.pop() {
                Some(x) => x,
                None => {
                    proof {
                        assert(false);
                    }
                    return Vec::new();
                },
            };
            let keep = !(record.first_name.as_str().is_empty()
                && record.last_name.as_str().is_empty());
            let ghost kept0 = kept@;
            proof {
                reveal_with_fuel(Seq::<PersonRecord>::filter, 2);
                assert(record == rest0.last());
                assert(keep == named(record));
                assert(rest0.drop_last() == rest@);
                assert(rest0.filter(|r: PersonRecord| named(r)) == if named(rest0.last()) {
                    rest0.drop_last().filter(|r: PersonRecord| named(r)).push(rest0.last())
                } else {
                    rest0.drop_last().filter(|r: PersonRecord| named(r))
                });
            }
            if keep {
                kept.push(Person { record, generation: Generation::Unknown });
                proof {
                    assert(kept@ == kept0.push(fresh_person(rest0.last())));
                    assert(kept@.to_multiset() == kept0.to_multiset().insert(
                        fresh_person(rest0.last()),
                    ));
                    let m = |r: PersonRecord| fresh_person(r);
                    let pr = |r: PersonRecord| named(r);
                    assert(rest0.filter(pr).map_values(m) == rest@.filter(pr).map_values(m).push(
                        fresh_person(rest0.last()),
                    ));
                    assert(rest0.filter(pr).map_values(m).to_multiset().add(kept0.to_multiset())
                        =~= rest@.filter(pr).map_values(m).to_multiset().add(kept@.to_multiset()));
                }
            }
        }
        proof {
            reveal_with_fuel(Seq::<PersonRecord>::filter, 2);
            let m = |r: PersonRecord| fresh_person(r);
            let pr = |r: PersonRecord| named(r);
            assert(rest@.len() == 0);
            assert(rest@ =~= Seq::<PersonRecord>::empty());
            assert(rest@.filter(pr).map_values(m).to_multiset() =~= Multiset::<Person>::empty());
            assert(kept@.to_multiset() =~= orecords.filter(pr).map_values(m).to_multiset());
        }
        Self::sort_by_id(kept)
    }

    /// Sorts the people by id, nondecreasing, keeping exactly the same
    /// people: on each round the least remaining id moves over.
    pub fn sort_by_id(people: Vec<Person>) -> (sorted: Vec<Person>)
        ensures
            sorted_by_id(sorted@),
            sorted@.to_multiset() == people@.to_multiset(),
    {
        let mut rest = people;
        let mut out: Vec<Person> = Vec::new();
        while rest.len() > 0
            invariant
                out@.to_multiset().add(rest@.to_multiset()) == people@.to_multiset(),
                sorted_by_id(out@),
                forall|k: int, j: int|
                    0 <= k < out@.len() && 0 <= j < rest@.len() ==> out@[k].record.id
                        <= rest@[j].record.id,
            decreases rest@.len(),
        {
            let mut mi: usize = 0;
            let mut k: usize = 1;
            while k < rest.len()
                invariant
                    mi < k <= rest@.len(),
                    rest@.len() > 0,
                    forall|j: int|
                        0 <= j < k ==> rest@[mi as int].record.id <= (
                        #[trigger] rest@[j]).record.id,
                decreases rest@.len() - k,
            {
                if rest[k].record.id < rest[mi].record.id {
                    mi = k;
                }
                k = k + 1;
            }
            let ghost rest0 = rest@;
            let ghost out0 = out@;
            let p = rest.remove(mi);
            let ghost pg = p;
            out.push(p);
            proof {
                assert(rest0.to_multiset().contains(pg)) by {
                    assert(rest0[mi as int] == pg);
                }
                assert(out@.to_multiset() == out0.to_multiset().insert(pg));
                assert(rest@.to_multiset() == rest0.to_multiset().remove(pg));
                assert(out@.to_multiset().add(rest@.to_multiset()) =~= out0.to_multiset().add(
                    rest0.to_multiset(),
                ));
                assert forall|k2: int, j: int|
                    0 <= k2 < out@.len() && 0 <= j < rest@.len() implies out@[k2].record.id <= (
                rest@[j]).record.id by {
                    if k2 < out0.len() {
                        assert(out@[k2] == out0[k2]);
                    } else {
                        assert(out@[k2] == pg);
                    }
                    if j < mi {
                        assert(rest@[j] == rest0[j]);
                    } else {
                        assert(rest@[j] == rest0[j + 1]);
                    }
                }
            }
        }
        out
    }

    /// Renumbers the ids: every id above the cut-point moves up by
    /// `amount`, and stated mother and father ids move with it. The whole
    /// list is renumbered, or nothing is: the result is absent when the
    /// list is empty, when an id or stated parent id lies outside the
    /// range the first and last person span, or when a shifted id would
    /// not fit.
    pub fn renumber(people: &Vec<Person>, after: usize, amount: usize) -> (r: Option<Vec<Person>>)
        ensures
            r is Some <==> people@.len() > 0 && renumber_accepted(people@, after as int, amount as int),
            r matches Some(out) ==> {
                &&& out@.len() == people@.len()
                &&& forall|i: int|
                    0 <= i < people@.len() ==> #[trigger] out@[i] == renumbered(
                        people@[i],
                        after as int,
                        amount as int,
                    )
            },
    {
        let n = people.len();
        if n == 0 {
            return None;
        }
        let first = people[0].record.id;
        let last = people[n - 1].record.id;
        let mut i: usize = 0;
        while i < n
            invariant
                n == people@.len(),
                0 < n,
                i <= n,
                first == people@[0].record.id,
                last == people@[n - 1].record.id,
                forall|k: int| 0 <= k < i ==> person_shiftable(#[trigger] people@[k], first as int, last as int, after as int, amount as int),
            decreases n - i,
        {
            let rec = &people[i].record;
            if !Self::id_ok(rec.id, first, last, after, amount) {
                proof {
                    assert(!person_shiftable(people@[i as int], first as int, last as int, after as int, amount as int));
                }
                return None;
            }
            if let Some(m) = rec.mother {
                if !Self::id_ok(m, first, last, after, amount) {
                    proof {
                        assert(!person_shiftable(people@[i as int], first as int, last as int, after as int, amount as int));
                    }
                    return None;
                }
            }
            if let Some(f) = rec.father {
                if !Self::id_ok(f, first, last, after, amount) {
                    proof {
                        assert(!person_shiftable(people@[i as int], first as int, last as int, after as int, amount as int));
                    }
                    return None;
                }
            }
            i = i + 1;
        }
        let mut out: Vec<Person> = Vec::new();
        let mut i: usize = 0;
        while i < n
            invariant
                n == people@.len(),
                0 < n,
                i <= n,
                out@.len() == i,
                first == people@[0].record.id,
                last == people@[n - 1].record.id,
                forall|k: int| 0 <= k < n ==> person_shiftable(#[trigger] people@[k], first as int, last as int, after as int, amount as int),
                forall|k: int|
                    0 <= k < i ==> #[trigger] out@[k] == renumbered(
                        people@[k],
                        after as int,
                        amount as int,
                    ),
            decreases n - i,
        {
            let rec = &people[i].record;
            let new_id = Self::shift(rec.id, after, amount);
            let new_mother = match rec.mother {
                Some(m) => Some(Self::shift(m, after, amount)),
                None => None,
            };
            let new_father = match rec.father {
                Some(f) => Some(Self::shift(f, after, amount)),
                None => None,
            };
            let new_rec = PersonRecord {
                id: new_id,
                first_name: rec.first_name.clone(),
                middle_name: rec.middle_name.clone(),
                last_name: rec.last_name.clone(),
                mother: new_mother,
                father: new_father,
                dob: rec.dob.clone(),
                dod: rec.dod.clone(),
                pob: rec.pob.clone(),
                pod: rec.pod.clone(),
                notes: rec.notes.clone(),
            };
            out.push(Person { record: new_rec, generation: people[i].generation });
            i = i + 1;
        }
        Some(out)
    }

    /// One shifted id, callable only where the shift cannot overflow.
    fn shift(id: usize, after: usize, amount: usize) -> (r: usize)
        requires
            id > after ==> id + amount <= usize::MAX,
        ensures
            r == shifted(after as int, amount as int, id as int),
    {
        if id <= after {
            id
        } else {
            id + amount
        }
    }

    /// Whether one id lies in range and can be shifted without overflow.
    fn id_ok(id: usize, first: usize, last: usize, after: usize, amount: usize) -> (r: bool)
        ensures
            r == shiftable(first as int, last as int, after as int, amount as int, id as int),
    {
        first <= id && id <= last && (id <= after || id <= usize::MAX - amount)
    }
}

/// Every id this person states lies in the accepted range and shifts
/// without overflow.
pub open spec fn person_shiftable(p: Person, first: int, last: int, after: int, amount: int) -> bool {
    &&& shiftable(first, last, after, amount, p.record.id as int)
    &&& p.record.mother matches Some(m) ==> shiftable(first, last, after, amount, m as int)
    &&& p.record.father matches Some(f) ==> shiftable(first, last, after, amount, f as int)
}

/// The whole list can be renumbered: every person's own id and stated
/// parent ids are acceptable, against the range the first and last person
/// span.
pub open spec fn renumber_accepted(people: Seq<Person>, after: int, amount: int) -> bool {
    forall|k: int|
        0 <= k < people.len() ==> person_shiftable(
            #[trigger] people[k],
            people[0].record.id as int,
            people[people.len() - 1].record.id as int,
            after,
            amount,
        )
}

/// The person with every stated id shifted by the renumbering rule; all
/// other fields kept.
pub open spec fn renumbered(p: Person, after: int, amount: int) -> Person {
    Person {
        record: PersonRecord {
            id: shifted(after, amount, p.record.id as int) as usize,
            mother: match p.record.mother {
                Some(m) => Some(shifted(after, amount, m as int) as usize),
                None => None,
            },
            father: match p.record.father {
                Some(f) => Some(shifted(after, amount, f as int) as usize),
                None => None,
            },
            ..p.record
        },
        generation: p.generation,
    }
}

} // verus!
