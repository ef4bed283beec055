use torr::utils::{str_keys_lossy, str_to_value};
use torr::value::{IntoValue, Value, ValueType};

fn s(text: &str) -> Value {
    Value::String(text.bytes().collect::<Vec<u8>>())
}

#[test]
fn lookup_finds_a_key_present_once() {
    let d = str_to_value("d3:cow3:moo4:spam4:eggse").unwrap();
    assert_eq!(d.get(&s("spam")), Some(&s("eggs")));
    assert_eq!(d.lookup("cow"), Some(&s("moo")));
}

#[test]
fn lookup_of_absent_key_is_none() {
    let d = str_to_value("d3:cow3:mooe").unwrap();
    assert_eq!(d.get(&s("pig")), None);
    assert_eq!(d.lookup("pig"), None);
    assert_eq!(d.get(&Value::Integer(0)), None);
}

#[test]
fn lookup_of_duplicate_key_takes_the_first() {
    let d = str_to_value("d1:ai1e1:ai2ee").unwrap();
    assert_eq!(d.lookup("a"), Some(&Value::Integer(1)));
}

#[test]
fn list_indexing() {
    let l = str_to_value("l1:ai5ee").unwrap();
    assert_eq!(l.get(&Value::Integer(1)), Some(&Value::Integer(5)));
    assert_eq!(l.get(&Value::Integer(2)), None);
    assert_eq!(l.get(&Value::Integer(-1)), None);
    assert_eq!(l.at(0), Some(&s("a")));
    assert_eq!(l.at(2), None);
    assert_eq!(l.get(&s("a")), None);
}

#[test]
fn scalars_find_nothing() {
    assert_eq!(s("abc").get(&Value::Integer(0)), None);
    assert_eq!(Value::Integer(3).lookup("a"), None);
    assert_eq!(s("abc").at(0), None);
}

#[test]
fn types_and_lengths() {
    let d = str_to_value("d1:ali1ei2ei3ee1:b4:spame").unwrap();
    assert_eq!(d.get_type(), ValueType::Dictionary);
    assert_eq!(d.len(), 2);
    let l = d.lookup("a").unwrap();
    assert_eq!(l.get_type(), ValueType::List);
    assert_eq!(l.len(), 3);
    let b = d.lookup("b").unwrap();
    assert_eq!(b.get_type(), ValueType::String);
    assert_eq!(b.len(), 4);
    assert_eq!(Value::Integer(9).get_type(), ValueType::Integer);
    assert_eq!(Value::Integer(9).len(), 1);
    assert!(s("").is_empty());
    assert!(Value::List(vec![]).is_empty());
    assert!(!Value::Integer(0).is_empty());
}

#[test]
fn values_of_a_list_and_a_dictionary() {
    let l = str_to_value("li1ei2ee").unwrap();
    let mut it = l.values();
    assert_eq!(it.next(), Some(&Value::Integer(1)));
    assert_eq!(it.next(), Some(&Value::Integer(2)));
    assert_eq!(it.next(), None);
    let d = str_to_value("d1:ai1e1:bi2ee").unwrap();
    let mut count = 0;
    let mut it = d.values();
    while let Some(_) = it.next() {
        count += 1;
    }
    assert_eq!(count, d.len());
}

#[test]
fn values_of_a_scalar_is_itself_once() {
    let i = Value::Integer(42);
    let mut it = i.values();
    assert_eq!(it.next(), Some(&i));
    assert_eq!(it.next(), None);
    let t = s("spam");
    let mut it = t.values();
    assert_eq!(it.next(), Some(&t));
    assert_eq!(it.next(), None);
}

#[test]
fn keys_and_entries() {
    let d = str_to_value("d3:cow3:moo4:spam4:eggse").unwrap();
    let mut k = d.keys();
    assert_eq!(k.next(), Some(&s("cow")));
    assert_eq!(k.next(), Some(&s("spam")));
    assert_eq!(k.next(), None);
    let mut e = d.entries();
    assert_eq!(e.next(), Some((&s("cow"), &s("moo"))));
    assert_eq!(e.next(), Some((&s("spam"), &s("eggs"))));
    assert_eq!(e.next(), None);
    let l = str_to_value("li1ee").unwrap();
    assert_eq!(l.keys().next(), None);
    assert_eq!(l.entries().next(), None);
}

#[test]
fn lossy_text() {
    assert_eq!(s("spam").to_lossy_str(), Some("spam".to_string()));
    assert_eq!(
        Value::String(vec![0x66, 0xff, 0x6f]).to_lossy_str(),
        Some("f\u{fffd}o".to_string())
    );
    assert_eq!(Value::Integer(1).to_lossy_str(), None);
}

#[test]
fn keys_as_text() {
    let d = str_to_value("d3:cow3:moo4:spam4:eggse").unwrap();
    assert_eq!(str_keys_lossy(&d), vec!["cow".to_string(), "spam".to_string()]);
    assert_eq!(str_keys_lossy(&Value::Integer(1)), Vec::<String>::new());
}

#[test]
fn building_values() {
    assert_eq!(7i64.into_value(), Value::Integer(7));
    assert_eq!("spam".into_value(), s("spam"));
    let items: [i64; 3] = [3, 1, 2];
    assert_eq!(
        items[..].into_value(),
        Value::List(vec![Value::Integer(3), Value::Integer(1), Value::Integer(2)])
    );
    let pairs: [(&str, i64); 2] = [("z", 1), ("a", 2)];
    assert_eq!(
        pairs[..].into_value(),
        Value::Dictionary(vec![(s("z"), Value::Integer(1)), (s("a"), Value::Integer(2))])
    );
}
