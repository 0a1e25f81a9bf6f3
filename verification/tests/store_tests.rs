use egg_index::store::{AVEIndex, Datum, EAVIndex, Val};
use std::collections::HashSet;

fn people() -> Vec<Datum<'static>> {
    vec![
        Datum::new(0, "person/name", Val::Str("Rudoplh")),
        Datum::new(0, "person/address", Val::Ref(2)),
        Datum::new(1, "person/name", Val::Str("Ruth")),
        Datum::new(1, "person/address", Val::Ref(2)),
        Datum::new(2, "address/line1", Val::Str("123 Some Street")),
        Datum::new(2, "address/line2", Val::Str("Some Suburb")),
    ]
}

#[test]
fn datum_new_keeps_its_parts() {
    let datum = Datum::new(7, "person/age", Val::Int(-3));
    assert_eq!(datum.eid, 7);
    assert_eq!(datum.attr, "person/age");
    assert_eq!(datum.val, Val::Int(-3));
}

#[test]
fn ave_find_gives_all_entities() {
    let data = people();
    let index = AVEIndex::new(&data);

    let both: HashSet<usize> = [0, 1].into_iter().collect();
    assert_eq!(index.find("person/address", &Val::Ref(2)), Some(&both));
    let ruth: HashSet<usize> = [1].into_iter().collect();
    assert_eq!(index.find("person/name", &Val::Str("Ruth")), Some(&ruth));
}

#[test]
fn ave_find_misses() {
    let data = people();
    let index = AVEIndex::new(&data);

    assert_eq!(index.find("person/name", &Val::Str("Nobody")), None);
    assert_eq!(index.find("person/address", &Val::Ref(3)), None);
    assert_eq!(index.find("person/address", &Val::Int(2)), None);
    assert_eq!(index.find("person/addres", &Val::Ref(2)), None);
    assert_eq!(index.find("", &Val::Ref(2)), None);
}

#[test]
fn ave_find_one_gives_an_entity_of_the_set() {
    let data = people();
    let index = AVEIndex::new(&data);

    assert_eq!(index.find_one("person/name", &Val::Str("Ruth")), Some(1));
    assert_eq!(index.find_one("address/line2", &Val::Str("Some Suburb")), Some(2));
    let one = index.find_one("person/address", &Val::Ref(2));
    assert!(one == Some(0) || one == Some(1));
    assert_eq!(index.find_one("person/name", &Val::Str("Nobody")), None);
}

#[test]
fn ave_counts_a_repeated_fact_once() {
    let data = vec![
        Datum::new(4, "tag", Val::Int(1)),
        Datum::new(4, "tag", Val::Int(1)),
        Datum::new(5, "tag", Val::Int(1)),
        Datum::new(4, "tag", Val::Int(2)),
    ];
    let index = AVEIndex::new(&data);
    let ones: HashSet<usize> = [4, 5].into_iter().collect();
    assert_eq!(index.find("tag", &Val::Int(1)), Some(&ones));
    let twos: HashSet<usize> = [4].into_iter().collect();
    assert_eq!(index.find("tag", &Val::Int(2)), Some(&twos));
}

#[test]
fn ave_of_nothing_finds_nothing() {
    let data: Vec<Datum> = vec![];
    let index = AVEIndex::new(&data);
    assert_eq!(index.find("tag", &Val::Int(1)), None);
    assert_eq!(index.find_one("tag", &Val::Int(1)), None);
}

#[test]
fn ave_tells_texts_apart_by_their_characters() {
    let data = vec![
        Datum::new(1, "name", Val::Str("é")),
        Datum::new(2, "name", Val::Str("e")),
        Datum::new(3, "nam", Val::Str("e")),
    ];
    let index = AVEIndex::new(&data);
    assert_eq!(index.find_one("name", &Val::Str("é")), Some(1));
    assert_eq!(index.find_one("name", &Val::Str("e")), Some(2));
    assert_eq!(index.find_one("nam", &Val::Str("e")), Some(3));
    assert_eq!(index.find_one("name", &Val::Str("")), None);
}

#[test]
fn eav_find_gives_all_values() {
    let data = vec![
        Datum::new(4, "tag", Val::Int(1)),
        Datum::new(4, "tag", Val::Str("one")),
        Datum::new(4, "tag", Val::Int(1)),
        Datum::new(5, "tag", Val::Int(3)),
        Datum::new(4, "name", Val::Ref(5)),
    ];
    let index = EAVIndex::new(&data);
    assert_eq!(
        index.find(4, "tag"),
        Some(&vec![&Val::Int(1), &Val::Str("one")])
    );
    assert_eq!(index.find(5, "tag"), Some(&vec![&Val::Int(3)]));
    assert_eq!(index.find(4, "name"), Some(&vec![&Val::Ref(5)]));
}

#[test]
fn eav_find_misses() {
    let data = people();
    let index = EAVIndex::new(&data);
    assert_eq!(index.find(3, "person/name"), None);
    assert_eq!(index.find(0, "address/line1"), None);
    assert_eq!(index.find(0, ""), None);
}

#[test]
fn eav_find_one_gives_a_value_of_the_entity() {
    let data = people();
    let index = EAVIndex::new(&data);
    assert_eq!(index.find_one(1, "person/name"), Some(&Val::Str("Ruth")));
    assert_eq!(index.find_one(1, "person/address"), Some(&Val::Ref(2)));
    assert_eq!(
        index.find_one(2, "address/line1"),
        Some(&Val::Str("123 Some Street"))
    );
    assert_eq!(index.find_one(2, "person/name"), None);
    assert_eq!(index.find_one(9, "person/name"), None);
}

#[test]
fn eav_of_nothing_finds_nothing() {
    let data: Vec<Datum> = vec![];
    let index = EAVIndex::new(&data);
    assert_eq!(index.find(0, "tag"), None);
    assert_eq!(index.find_one(0, "tag"), None);
}

#[test]
fn the_two_indexes_lead_from_a_name_to_an_address() {
    let data = people();
    let ave_index = AVEIndex::new(&data);
    let eav_index = EAVIndex::new(&data);

    let eid = ave_index.find_one("person/name", &Val::Str("Ruth")).unwrap();
    assert_eq!(eid, 1);
    let address = match eav_index.find_one(eid, "person/address") {
        Some(Val::Ref(address)) => *address,
        _ => panic!("Ruth has an address"),
    };
    assert_eq!(address, 2);
    assert_eq!(
        eav_index.find_one(address, "address/line1"),
        Some(&Val::Str("123 Some Street"))
    );
    assert_eq!(
        eav_index.find_one(address, "address/line2"),
        Some(&Val::Str("Some Suburb"))
    );
}
