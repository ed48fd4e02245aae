use dictionary::render::render;
use dictionary::{create_dict, Dictionary};

#[test]
fn empty_dictionary_is_two_braces() {
    let d: Dictionary<u8, u8> = Dictionary::new();
    assert_eq!(d.to_string(), "{}");
}

#[test]
fn one_entry_has_no_comma() {
    let mut d: Dictionary<u8, u8> = Dictionary::new();
    d.insert(1, 6);
    assert_eq!(d.to_string(), "{1: 6}");
}

#[test]
fn entries_come_in_the_order_of_their_slots() {
    let d = create_dict();
    let mut expected = String::from("{");
    for (at, (k, v)) in d.items().into_iter().enumerate() {
        if at > 0 {
            expected.push_str(", ");
        }
        expected.push_str(&format!("{}: {}", k, v));
    }
    expected.push('}');
    let text = d.to_string();
    assert_eq!(text, expected);
    assert_eq!(text.len(), "{1: 6, 2: 7, 3: 8, 4: 9, 5: 0}".len());
    for part in ["1: 6", "2: 7", "3: 8", "4: 9", "5: 0"] {
        assert!(text.contains(part));
    }
}

#[test]
fn render_joins_the_parts() {
    assert_eq!(render(&Vec::new()), "{}");
    assert_eq!(render(&vec![("a".to_string(), "b".to_string())]), "{a: b}");
    assert_eq!(
        render(&vec![
            ("1".to_string(), "6".to_string()),
            ("2".to_string(), "7".to_string()),
            ("3".to_string(), "8".to_string()),
        ]),
        "{1: 6, 2: 7, 3: 8}"
    );
    assert_eq!(render(&vec![(String::new(), String::new())]), "{: }");
}
