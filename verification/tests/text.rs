use valkey_faces::names::{comes_before, tally, NameSet};
use valkey_faces::text::{chars_of, decimal_text, signed_decimal_text};

fn set(names: &[&str]) -> NameSet {
    let mut s = NameSet::new();
    for n in names {
        s.insert(n.to_string());
    }
    s
}

#[test]
fn numerals() {
    for n in [0u128, 1, 9, 10, 42, 99, 100, 65535, u64::MAX as u128, u128::MAX] {
        assert_eq!(decimal_text(n), n.to_string());
    }
    for n in [0i64, 7, -1, -10, i64::MAX, i64::MIN] {
        assert_eq!(signed_decimal_text(n), n.to_string());
    }
}

#[test]
fn characters_of_a_string() {
    assert_eq!(chars_of("aé漢"), vec!['a', 'é', '漢']);
    assert!(chars_of("").is_empty());
}

#[test]
fn names_are_ordered_as_strings_are() {
    let names = ["", "A", "Ab", "B", "a", "ab", "é", "\u{FFFF}", "\u{10000}"];
    for a in names {
        for b in names {
            assert_eq!(comes_before(a, b), a < b, "{:?} {:?}", a, b);
        }
    }
}

#[test]
fn a_set_keeps_names_once_and_in_order() {
    let s = set(&["Rose", "Barack", "Rose", "Zoë", "Ann"]);
    assert_eq!(s.names, vec!["Ann", "Barack", "Rose", "Zoë"]);
    assert!(s.contains("Rose"));
    assert!(!s.contains("rose"));
}

#[test]
fn difference_of_sets() {
    let a = set(&["c", "a", "b"]);
    let b = set(&["b", "d"]);
    assert_eq!(a.difference(&b), vec!["a", "c"]);
    assert_eq!(b.difference(&a), vec!["d"]);
    assert!(a.same(&set(&["b", "c", "a"])));
    assert!(!a.same(&b));
    assert!(!a.same(&set(&["a", "b"])));
}

#[test]
fn tally_counts_by_name_in_order() {
    let found = vec![
        Some("Rose".to_string()),
        None,
        Some("Barack".to_string()),
        Some("Rose".to_string()),
        Some("Rose".to_string()),
    ];
    assert_eq!(tally(found), vec![("Barack".to_string(), 1), ("Rose".to_string(), 3)]);
    assert!(tally(vec![None]).is_empty());
}
