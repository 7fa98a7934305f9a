use ugg::gate::{gate_line, GateLine};
use ugg::json::{JsonDoc, JsonField};

fn read(text: &str) -> Option<JsonDoc> {
    match gate_line(&format!("UGG_SYNTH_ONCE {text}"), false) {
        GateLine::Result(d) => d,
        other => panic!("{other:?}"),
    }
}

#[test]
fn a_document_is_read_by_its_kind() {
    assert_eq!(read("true"), Some(JsonDoc::Plain(JsonField::Bool(true))));
    assert_eq!(read("null"), Some(JsonDoc::Plain(JsonField::Null)));
    assert_eq!(read("[{}]"), Some(JsonDoc::Plain(JsonField::Array)));
    assert_eq!(
        read("18446744073709551615"),
        Some(JsonDoc::Plain(JsonField::Unsigned(u64::MAX)))
    );
    assert_eq!(read("-1"), Some(JsonDoc::Plain(JsonField::OtherNumber)));
    assert_eq!(read("1.0"), Some(JsonDoc::Plain(JsonField::OtherNumber)));
    assert_eq!(read("\"a\\u3042\""), Some(JsonDoc::Plain(JsonField::Text("aあ".to_string()))));
    assert_eq!(read("{"), None);
    assert_eq!(read("1 2"), None);
}

#[test]
fn the_members_of_an_object_are_read_by_their_kinds() {
    let d = read(r#"{"n":5,"b":false,"s":"x","o":{"n":1},"n":7}"#).unwrap();
    assert_eq!(d.unsigned("n"), Some(7), "of a name that stands twice the last counts");
    assert_eq!(d.boolean("b"), Some(false));
    assert_eq!(d.string("s").map(String::as_str), Some("x"));
    assert_eq!(d.get("o"), Some(&JsonField::Object));
    assert_eq!(d.unsigned("s"), None);
    assert_eq!(d.get("missing"), None);
    assert_eq!(read("5").unwrap().get("n"), None);
}
