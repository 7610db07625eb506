use bincode::Options;
use revise::{CardKey, OptionSet};
use std::collections::BTreeSet;

struct SerializeSet<'a>(&'a BTreeSet<&'a str>);

impl serde::Serialize for SerializeSet<'_> {
    fn serialize<S: serde::Serializer>(&self, serializer: S) -> Result<S::Ok, S::Error> {
        serializer.collect_seq(self.0.iter().map(|item| item.as_bytes()))
    }
}

fn options(items: &[&str]) -> OptionSet {
    let mut set = OptionSet::new();
    for item in items {
        set.insert((*item).to_owned());
    }
    set
}

fn key(terms: &[&str], definitions: &[&str]) -> Vec<u8> {
    CardKey::new(&options(terms), &options(definitions)).unwrap().as_bytes().clone()
}

fn key_of_sets(terms: &[&str], definitions: &[&str]) -> Vec<u8> {
    let terms: BTreeSet<&str> = terms.iter().copied().collect();
    let definitions: BTreeSet<&str> = definitions.iter().copied().collect();
    bincode::DefaultOptions::new()
        .serialize(&(SerializeSet(&terms), SerializeSet(&definitions)))
        .unwrap()
}

#[test]
fn a_key_holds_both_sets_in_the_order_of_their_bytes() {
    assert_eq!(key(&["t"], &["definition"]), b"\x01\x01t\x01\x0adefinition");
    assert_eq!(key(&["b", "a"], &["e", "c", "d"]), b"\x02\x01a\x01b\x03\x01c\x01d\x01e");
    assert_eq!(key(&["ab", "a", "B", ""], &["é"]), b"\x04\x00\x01B\x01a\x02ab\x01\x02\xc3\xa9");
}

#[test]
fn a_key_does_not_depend_on_the_order_of_addition() {
    assert_eq!(key(&["b", "a", "c"], &["y", "x"]), key(&["c", "b", "a"], &["x", "y"]));
    assert_ne!(key(&["a"], &["b"]), key(&["b"], &["a"]));
    assert_ne!(key(&["a", "b"], &["c"]), key(&["a"], &["b", "c"]));
}

#[test]
fn a_key_is_the_encoding_of_the_sorted_sets() {
    let cases: [(&[&str], &[&str]); 4] = [
        (&["t"], &["definition"]),
        (&["a", "b"], &["c", "d", "e"]),
        (&["zebra", "Zebra", "z", "\u{e9}cole", "ecole"], &["\u{1F600}", "~", " "]),
        (&["foo-bar", "foo", "foo bar"], &["x"]),
    ];
    for (terms, definitions) in cases {
        assert_eq!(key(terms, definitions), key_of_sets(terms, definitions));
    }
}

#[test]
fn a_stored_key_is_the_key() {
    let first = CardKey::new(&options(&["a"]), &options(&["b"])).unwrap();
    let stored = first.as_bytes().clone();
    assert_eq!(CardKey::from_bytes(stored), first);
}

#[test]
fn an_encoding_stands_for_its_key() {
    assert_eq!(CardKey::from_encoded(None), None);
    let key = CardKey::from_encoded(Some(vec![1, 1, b'a', 1, 1, b'b'])).unwrap();
    assert_eq!(key.as_bytes(), &vec![1, 1, b'a', 1, 1, b'b']);
    assert_eq!(key, CardKey::new(&options(&["a"]), &options(&["b"])).unwrap());
}
