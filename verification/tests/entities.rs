use drop_core::entities::{Bag, File, Ticket};
use std::collections::hash_map::DefaultHasher;
use std::hash::{Hash, Hasher};

fn file(id: &str, data: &[u8]) -> File {
    File {
        id: id.to_string(),
        name: "a.txt".to_string(),
        data: data.to_vec(),
        created_at: "2024-01-01".to_string(),
        updated_at: "2024-01-02".to_string(),
    }
}

fn hash_of<T: Hash>(t: &T) -> u64 {
    let mut h = DefaultHasher::new();
    t.hash(&mut h);
    h.finish()
}

#[test]
fn files_equal_field_by_field() {
    assert!(file("1", &[1, 2]) == file("1", &[1, 2]));
    assert!(file("1", &[1, 2]) != file("1", &[1, 3]));
    assert!(file("1", &[1, 2]) != file("1", &[1]));
    assert!(file("1", &[1, 2]) != file("2", &[1, 2]));
    let mut renamed = file("1", &[1, 2]);
    renamed.name = "b.txt".to_string();
    assert!(renamed != file("1", &[1, 2]));
}

#[test]
fn hashes_read_only_the_id() {
    assert_eq!(hash_of(&file("1", &[1])), hash_of(&file("1", &[2, 3])));
    assert_eq!(hash_of(&Ticket { id: "t".to_string() }), hash_of(&Ticket { id: "t".to_string() }));
}

#[test]
fn bags_equal_with_their_files() {
    let bag = |files: Vec<File>| Bag {
        id: "b".to_string(),
        ticket: Ticket { id: "t".to_string() },
        files,
        created_at: "c".to_string(),
        updated_at: "u".to_string(),
    };
    assert!(bag(vec![file("1", &[1])]) == bag(vec![file("1", &[1])]));
    assert!(bag(vec![file("1", &[1])]) != bag(vec![file("1", &[2])]));
    assert!(bag(vec![file("1", &[1])]) != bag(vec![]));
    let mut other = bag(vec![]);
    other.ticket = Ticket { id: "u".to_string() };
    assert!(other != bag(vec![]));
    assert!(Ticket { id: "x".to_string() } != Ticket { id: "y".to_string() });
}
