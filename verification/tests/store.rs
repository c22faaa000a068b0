use valkey_faces::store::{
    create_index, enroll, forget, index_exists, knn_search, list, Arg, EnrollStep, Enrollment,
    Entry,
};

use std::collections::BTreeMap;
use valkey_faces::names::tally;

type Store = BTreeMap<String, Vec<u8>>;

fn enroll_into(store: &mut Store, name: &str) {
    let taken: Vec<String> = store.keys().cloned().collect();
    let taken: Vec<&str> = taken.iter().map(|k| k.as_str()).collect();
    let entry = enroll_among(&taken, name, &[]);
    assert!(store.insert(entry.key, entry.name).is_none());
}

fn selected(store: &Store, command: &[Arg]) -> Vec<String> {
    let pattern = shown(command)[1].clone();
    let start = pattern.strip_suffix('*').unwrap();
    store.keys().filter(|k| k.starts_with(start)).cloned().collect()
}

fn listed(store: &Store) -> Vec<(String, usize)> {
    tally(
        selected(store, &list())
            .iter()
            .map(|k| Some(String::from_utf8(store[k].clone()).unwrap()))
            .collect(),
    )
}

fn forget_from(store: &mut Store, name: &str) -> usize {
    let keys = selected(store, &forget(name));
    for k in &keys {
        store.remove(k);
    }
    keys.len()
}

fn shown(args: &[Arg]) -> Vec<String> {
    args.iter()
        .map(|a| match a {
            Arg::Text(s) => s.clone(),
            Arg::Bytes(b) => format!("{:?}", b),
        })
        .collect()
}

fn enroll_among(taken: &[&str], name: &str, e: &[u32]) -> Entry {
    let mut enrollment = enroll(name, e);
    loop {
        let exists = taken.contains(&enrollment.key().as_str());
        match enrollment.answer(exists) {
            EnrollStep::Ask(next) => enrollment = next,
            EnrollStep::Write(entry) => return entry,
        }
    }
}

#[test]
fn index_commands() {
    assert_eq!(shown(&index_exists()), ["FT.INFO", "faces"]);
    let steps = create_index();
    assert_eq!(steps.len(), 2);
    assert!(steps[0].may_fail);
    assert_eq!(shown(&steps[0].command), ["FT.DROPINDEX", "faces"]);
    assert!(!steps[1].may_fail);
    assert_eq!(
        shown(&steps[1].command).join(" "),
        "FT.CREATE faces ON HASH PREFIX 1 face: SCHEMA v VECTOR HNSW 6 TYPE FLOAT32 DIM 512 DISTANCE_METRIC COSINE"
    );
}

#[test]
fn search_command() {
    let command = knn_search(&[1.0f32.to_bits()], 1);
    assert_eq!(
        shown(&command),
        [
            "FT.SEARCH",
            "faces",
            "*=>[KNN 1 @v $q AS dist]",
            "PARAMS",
            "2",
            "q",
            "[0, 0, 128, 63]",
            "RETURN",
            "2",
            "name",
            "dist",
            "DIALECT",
            "2"
        ]
    );
    assert_eq!(shown(&knn_search(&[], 25))[2], "*=>[KNN 25 @v $q AS dist]");
}

#[test]
fn key_patterns() {
    assert_eq!(shown(&list()), ["KEYS", "face:*"]);
    assert_eq!(shown(&forget("Barack Obama")), ["KEYS", "face:barack-obama:*"]);
    assert_eq!(shown(&forget("*")), ["KEYS", "face::*"]);
}

#[test]
fn the_first_photo_gets_number_zero() {
    let entry = enroll_among(&[], "Khawaja", &[1.0f32.to_bits()]);
    assert_eq!(entry.key, "face:khawaja:0");
    assert_eq!(entry.v, vec![0, 0, 0x80, 0x3f]);
    assert_eq!(entry.name, b"Khawaja");
}

#[test]
fn more_photos_are_numbered_in_turn() {
    assert_eq!(enroll_among(&["face:khawaja:0"], "Khawaja", &[]).key, "face:khawaja:1");
    let many: Vec<String> = (0..12).map(|n| format!("face:zoë:{}", n)).collect();
    let many: Vec<&str> = many.iter().map(|s| s.as_str()).collect();
    let entry = enroll_among(&many, "Zoë", &[]);
    assert_eq!(entry.key, "face:zoë:12");
    assert_eq!(entry.name, "Zoë".as_bytes());
}

#[test]
fn a_gap_is_filled_first() {
    let taken = ["face:ann:0", "face:ann:2", "face:anna:1"];
    assert_eq!(enroll_among(&taken, "Ann", &[]).key, "face:ann:1");
}

#[test]
fn the_last_number_can_be_written() {
    let last = Enrollment {
        name: "Ann".to_string(),
        slug: "ann".to_string(),
        vector: Vec::new(),
        n: i32::MAX,
    };
    match last.answer(false) {
        EnrollStep::Write(entry) => assert_eq!(entry.key, "face:ann:2147483647"),
        EnrollStep::Ask(_) => panic!("the key is free"),
    }
}

#[test]
fn forgetting_removes_one_person_only() {
    let mut store = Store::new();
    for name in ["Ann", "Anna", "Ann B", "Ann", "ann!"] {
        enroll_into(&mut store, name);
    }
    let keys: Vec<&str> = store.keys().map(|k| k.as_str()).collect();
    assert_eq!(keys, ["face:ann-b:0", "face:ann:0", "face:ann:1", "face:ann:2", "face:anna:0"]);
    assert_eq!(
        listed(&store),
        [
            ("Ann".to_string(), 2),
            ("Ann B".to_string(), 1),
            ("Anna".to_string(), 1),
            ("ann!".to_string(), 1)
        ]
    );
    assert_eq!(forget_from(&mut store, "Ann"), 3);
    assert_eq!(listed(&store), [("Ann B".to_string(), 1), ("Anna".to_string(), 1)]);
    assert_eq!(forget_from(&mut store, "Ann"), 0);
}

#[test]
fn forgetting_undoes_enrolling() {
    let mut store = Store::new();
    enroll_into(&mut store, "Rose Leslie");
    let before = store.clone();
    enroll_into(&mut store, "Zoë: *?[x]");
    assert_eq!(store.len(), 2);
    assert!(store.contains_key("face:zoë-----x:0"));
    assert_eq!(forget_from(&mut store, "Zoë: *?[x]"), 1);
    assert_eq!(store, before);
}

#[test]
fn forgetting_undoes_any_number_of_enrollments() {
    let mut store = Store::new();
    for name in ["Ann", "Bob", "Bob"] {
        enroll_into(&mut store, name);
    }
    let before = store.clone();
    for name in ["Zed Q", "zed q", "Zed-Q!", "Zed Q"] {
        enroll_into(&mut store, name);
    }
    for (n, name) in ["Zed Q", "zed q", "Zed-Q!", "Zed Q"].iter().enumerate() {
        assert_eq!(store[&format!("face:zed-q:{}", n)], name.as_bytes());
    }
    assert_eq!(forget_from(&mut store, "ZED Q"), 4);
    assert_eq!(store, before);
}

#[test]
fn the_list_after_forgetting_lacks_one_slug_only() {
    let mut store = Store::new();
    for name in ["Ann", "Bob", "ann", "Bob", "ANN?", "Ann", "Anna"] {
        enroll_into(&mut store, name);
    }
    let before = listed(&store);
    let (gone, stay): (Vec<_>, Vec<_>) =
        before.into_iter().partition(|p| valkey_faces::slug::slug(&p.0) == "ann");
    assert_eq!(gone.len(), 3);
    let removed: usize = gone.iter().map(|p| p.1).sum();
    assert_eq!(removed, 4);
    assert_eq!(forget_from(&mut store, "Ann"), removed);
    assert_eq!(listed(&store), stay);
}

#[test]
fn the_list_after_enrolling_has_one_entry_more() {
    let mut store = Store::new();
    for name in ["Ann", "Zed"] {
        enroll_into(&mut store, name);
    }
    enroll_into(&mut store, "Ann");
    assert_eq!(listed(&store), [("Ann".to_string(), 2), ("Zed".to_string(), 1)]);
    enroll_into(&mut store, "Bob");
    enroll_into(&mut store, "ann");
    assert_eq!(
        listed(&store),
        [
            ("Ann".to_string(), 2),
            ("Bob".to_string(), 1),
            ("Zed".to_string(), 1),
            ("ann".to_string(), 1)
        ]
    );
}
