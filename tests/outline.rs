use torr::outline::{outline, shorten};
use torr::utils::str_to_value;
use torr::value::Value;

#[test]
fn outline_of_nested_tree() {
    let v = str_to_value("d3:cow3:moo4:spaml1:ai5eee").unwrap();
    assert_eq!(
        outline(&v),
        vec![
            "['cow'] = 'moo'".to_string(),
            "['spam'][0] = 'a'".to_string(),
            "['spam'][1] = 5".to_string(),
        ]
    );
}

#[test]
fn outline_of_scalars() {
    assert_eq!(outline(&Value::Integer(-12)), vec![" = -12".to_string()]);
    assert_eq!(outline(&Value::Integer(i64::MIN)), vec![" = -9223372036854775808".to_string()]);
    assert_eq!(outline(&Value::List(vec![])), Vec::<String>::new());
}

#[test]
fn outline_writes_invalid_utf8_in_hex() {
    let v = Value::String(vec![0x00, 0xff, 0x0a]);
    assert_eq!(outline(&v), vec![" = '0x0ffa'".to_string()]);
}

#[test]
fn outline_counts_list_indices_past_nine() {
    let v = str_to_value("li0ei1ei2ei3ei4ei5ei6ei7ei8ei9ei10ee").unwrap();
    let lines = outline(&v);
    assert_eq!(lines.len(), 11);
    assert_eq!(lines[10], "[10] = 10");
}

#[test]
fn shorten_keeps_short_text() {
    let s = "a".repeat(54);
    assert_eq!(shorten(&s), s);
    let wide = "\u{e9}".repeat(30);
    assert_eq!(shorten(&wide), wide);
}

#[test]
fn shorten_cuts_long_text() {
    let s = "abcdefghijklmnopqrstuvwxyz0123456789ABCDEFGHIJKLMNOPQRSTUVWXYZ";
    assert_eq!(shorten(s), "abcdefghijklmnopqrst...22 chars...GHIJKLMNOPQRSTUVWXYZ");
}

#[test]
fn outline_shortens_long_leaves() {
    let v = str_to_value("62:abcdefghijklmnopqrstuvwxyz0123456789ABCDEFGHIJKLMNOPQRSTUVWXYZ").unwrap();
    assert_eq!(
        outline(&v),
        vec![" = 'abcdefghijklmnopqrst...22 chars...GHIJKLMNOPQRSTUVWXYZ'".to_string()]
    );
}
