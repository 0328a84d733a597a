use family_tree::person::{Generation, Person, PersonRecord};

fn named_rec(id: usize, first: &str, last: &str) -> PersonRecord {
    PersonRecord {
        id,
        first_name: first.to_string(),
        middle_name: String::new(),
        last_name: last.to_string(),
        mother: None,
        father: None,
        dob: String::new(),
        dod: String::new(),
        pob: String::new(),
        pod: String::new(),
        notes: String::new(),
    }
}

fn person_with_parents(id: usize, mother: Option<usize>, father: Option<usize>) -> Person {
    let mut record = named_rec(id, "a", "b");
    record.mother = mother;
    record.father = father;
    Person { record, generation: Generation::Unknown }
}

#[test]
fn from_records_filters_and_sorts() {
    let records = vec![
        named_rec(30, "Ada", "Stone"),
        named_rec(10, "", ""),
        named_rec(20, "Bea", ""),
        named_rec(5, "", "Cole"),
    ];
    let people = Person::from_records(records);
    let ids: Vec<usize> = people.iter().map(|p| p.record.id).collect();
    assert_eq!(ids, vec![5, 20, 30]);
    for p in &people {
        assert_eq!(p.generation, Generation::Unknown);
    }
}

#[test]
fn from_records_keeps_duplicates() {
    let records = vec![named_rec(7, "x", "y"), named_rec(7, "x", "y")];
    let people = Person::from_records(records);
    assert_eq!(people.len(), 2);
    assert!(!Person::ids_unique(&people));
}

#[test]
fn ids_unique_detects_collision() {
    let people = vec![
        person_with_parents(1, None, None),
        person_with_parents(2, None, None),
        person_with_parents(1, None, None),
    ];
    assert!(!Person::ids_unique(&people));
    let distinct = vec![person_with_parents(1, None, None), person_with_parents(2, None, None)];
    assert!(Person::ids_unique(&distinct));
}

#[test]
fn renumber_shifts_ids_above_cut() {
    let people = vec![
        person_with_parents(1, None, None),
        person_with_parents(2, Some(1), None),
        person_with_parents(3, Some(1), Some(2)),
    ];
    let out = Person::renumber(&people, 1, 10).expect("all ids in range");
    let ids: Vec<usize> = out.iter().map(|p| p.record.id).collect();
    assert_eq!(ids, vec![1, 12, 13]);
    assert_eq!(out[1].record.mother, Some(1));
    assert_eq!(out[2].record.mother, Some(1));
    assert_eq!(out[2].record.father, Some(12));
}

#[test]
fn renumber_rejects_out_of_range_parent() {
    // A stated mother id outside the span of loaded ids has no mapping.
    let people = vec![
        person_with_parents(1, Some(99), None),
        person_with_parents(2, None, None),
    ];
    assert!(Person::renumber(&people, 1, 10).is_none());
}

#[test]
fn renumber_rejects_empty_list() {
    assert!(Person::renumber(&Vec::new(), 0, 5).is_none());
}

#[test]
fn renumber_rejects_overflow() {
    let people = vec![person_with_parents(usize::MAX, None, None)];
    assert!(Person::renumber(&people, 0, 1).is_none());
}

#[test]
fn sort_by_id_orders_people() {
    let people = vec![
        person_with_parents(4, None, None),
        person_with_parents(1, None, None),
        person_with_parents(3, None, None),
    ];
    let sorted = Person::sort_by_id(people);
    let ids: Vec<usize> = sorted.iter().map(|p| p.record.id).collect();
    assert_eq!(ids, vec![1, 3, 4]);
}
