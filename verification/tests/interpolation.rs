use drill::interpolate::resolve;
use drill::json::parse_json;
use drill::store::Store;
use drill::value::Value;

fn ctx_with(entries: Vec<(&str, Value)>) -> Store {
    let mut s = Store::new();
    for (k, v) in entries {
        s.insert(k.to_string(), v);
    }
    s
}

#[test]
fn resolves_plain_variable_in_url() {
    let ctx = ctx_with(vec![("user", Value::Str("alice".to_string()))]);
    let resp = Store::new();
    let out = resolve("https://api.test/users/{user}", &ctx, &resp).unwrap();
    assert_eq!(out, "https://api.test/users/alice");
}

#[test]
fn text_without_references_is_unchanged() {
    let ctx = Store::new();
    let resp = Store::new();
    let out = resolve("plain text, even with a stray } brace", &ctx, &resp).unwrap();
    assert_eq!(out, "plain text, even with a stray } brace");
}

#[test]
fn missing_variable_fails() {
    let ctx = Store::new();
    let resp = Store::new();
    let err = resolve("{nope}", &ctx, &resp).unwrap_err();
    assert_eq!(err.reference, "nope");
}

#[test]
fn unclosed_brace_fails() {
    let ctx = ctx_with(vec![("user", Value::Str("alice".to_string()))]);
    let resp = Store::new();
    assert!(resolve("hello {user", &ctx, &resp).is_err());
}

#[test]
fn empty_reference_fails() {
    let ctx = Store::new();
    let resp = Store::new();
    assert!(resolve("{}", &ctx, &resp).is_err());
}

#[test]
fn resolves_nested_fields_and_indexes() {
    let item = Value::Obj(vec![(
        "user".to_string(),
        Value::Obj(vec![("id".to_string(), Value::Num("7".to_string()))]),
    )]);
    let arr = Value::Arr(vec![
        Value::Str("a".to_string()),
        Value::Str("b".to_string()),
    ]);
    let ctx = ctx_with(vec![("item", item), ("arr", arr)]);
    let resp = Store::new();
    assert_eq!(resolve("{item.user.id}", &ctx, &resp).unwrap(), "7");
    assert_eq!(resolve("{arr.1}", &ctx, &resp).unwrap(), "b");
    assert!(resolve("{arr.2}", &ctx, &resp).is_err());
    assert!(resolve("{arr.x}", &ctx, &resp).is_err());
}

#[test]
fn booleans_render_as_words() {
    let ctx = ctx_with(vec![
        ("yes", Value::Bool(true)),
        ("no", Value::Bool(false)),
    ]);
    let resp = Store::new();
    assert_eq!(resolve("{yes}-{no}", &ctx, &resp).unwrap(), "true-false");
}

#[test]
fn composite_values_do_not_render() {
    let ctx = ctx_with(vec![("m", Value::Obj(vec![]))]);
    let resp = Store::new();
    assert!(resolve("{m}", &ctx, &resp).is_err());
}

#[test]
fn context_wins_over_response_table() {
    let ctx = ctx_with(vec![("k", Value::Str("from-ctx".to_string()))]);
    let mut resp = Store::new();
    resp.insert("k".to_string(), Value::Str("from-resp".to_string()));
    assert_eq!(resolve("{k}", &ctx, &resp).unwrap(), "from-ctx");
}

#[test]
fn store_insert_overwrites() {
    let mut s = Store::new();
    s.insert("k".to_string(), Value::Str("one".to_string()));
    s.insert("k".to_string(), Value::Str("two".to_string()));
    match s.get("k") {
        Some(Value::Str(v)) => assert_eq!(v, "two"),
        _ => panic!("expected a string"),
    }
    assert!(s.get("other").is_none());
}

#[test]
fn parses_simple_object() {
    let v = parse_json("{\"token\": \"abc\"}").unwrap();
    match v {
        Value::Obj(es) => {
            assert_eq!(es.len(), 1);
            assert_eq!(es[0].0, "token");
            match &es[0].1 {
                Value::Str(s) => assert_eq!(s, "abc"),
                _ => panic!("expected a string"),
            }
        }
        _ => panic!("expected an object"),
    }
}

#[test]
fn parses_all_kinds() {
    let v = parse_json(" { \"a\" : [ 1 , -1.5e3 , true , false , null , \"x\\n\" ] } ").unwrap();
    match v {
        Value::Obj(es) => {
            assert_eq!(es.len(), 1);
            assert_eq!(es[0].0, "a");
            match &es[0].1 {
                Value::Arr(items) => {
                    assert_eq!(items.len(), 6);
                    assert!(matches!(&items[0], Value::Num(n) if n == "1"));
                    assert!(matches!(&items[1], Value::Num(n) if n == "-1.5e3"));
                    assert!(matches!(items[2], Value::Bool(true)));
                    assert!(matches!(items[3], Value::Bool(false)));
                    assert!(matches!(items[4], Value::Null));
                    assert!(matches!(&items[5], Value::Str(s) if s == "x\n"));
                }
                _ => panic!("expected an array"),
            }
        }
        _ => panic!("expected an object"),
    }
}

#[test]
fn empty_template_resolves_to_empty() {
    let ctx = Store::new();
    let resp = Store::new();
    assert_eq!(resolve("", &ctx, &resp).unwrap(), "");
}

#[test]
fn parses_escaped_quotes_and_nested_objects() {
    let v = parse_json("{\"a\": {\"b\": \"say \\\"hi\\\"\"}}").unwrap();
    match v {
        Value::Obj(es) => match &es[0].1 {
            Value::Obj(inner) => {
                assert_eq!(inner[0].0, "b");
                assert!(matches!(&inner[0].1, Value::Str(s) if s == "say \"hi\""));
            }
            _ => panic!("expected a nested object"),
        },
        _ => panic!("expected an object"),
    }
}

#[test]
fn parses_unicode_escapes() {
    assert!(matches!(parse_json("\"\\u0041\""), Some(Value::Str(s)) if s == "A"));
    assert!(matches!(parse_json("\"\\ud83d\\ude00\""), Some(Value::Str(s)) if s == "\u{1F600}"));
    let v = parse_json("{\"name\": \"Jos\\u00e9\", \"token\": \"abc\"}").unwrap();
    match v {
        Value::Obj(es) => {
            assert!(matches!(&es[0].1, Value::Str(s) if s == "José"));
            assert!(matches!(&es[1].1, Value::Str(s) if s == "abc"));
        }
        _ => panic!("expected an object"),
    }
}

#[test]
fn rejects_malformed_json() {
    assert!(parse_json("").is_none());
    assert!(parse_json("{").is_none());
    assert!(parse_json("tru").is_none());
    assert!(parse_json("{\"a\": 1,}").is_none());
    assert!(parse_json("1 2").is_none());
    assert!(parse_json("01").is_none());
    assert!(parse_json("not json").is_none());
    // surrogate halves are not scalar values
    assert!(parse_json("\"\\ud800\"").is_none());
    assert!(parse_json("\"\\ude00\\ud83d\"").is_none());
    assert!(parse_json("\"\\uZZ11\"").is_none());
    assert!(parse_json("\"\\u00\"").is_none());
}
