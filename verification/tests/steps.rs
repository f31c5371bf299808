use drill::request::{ConfigError, Method, Report, Request, StepError};
use drill::store::Store;
use drill::value::Value;

fn obj(entries: Vec<(&str, Value)>) -> Value {
    Value::Obj(
        entries
            .into_iter()
            .map(|(k, v)| (k.to_string(), v))
            .collect(),
    )
}

fn s(text: &str) -> Value {
    Value::Str(text.to_string())
}

fn step(entries: Vec<(&str, Value)>, request: Vec<(&str, Value)>) -> Value {
    let mut es = entries;
    es.push(("request", obj(request)));
    obj(es)
}

#[test]
fn recognizes_request_steps() {
    let yes = step(vec![("name", s("a"))], vec![("url", s("http://x"))]);
    assert!(Request::is_that_you(&yes));
    let no = obj(vec![("name", s("a")), ("exec", s("ls"))]);
    assert!(!Request::is_that_you(&no));
    let not_a_map = s("request");
    assert!(!Request::is_that_you(&not_a_map));
}

#[test]
fn method_defaults_to_get() {
    let item = step(vec![("name", s("fetch"))], vec![("url", s("http://x"))]);
    let req = Request::new(&item, None).unwrap();
    assert_eq!(req.method, "GET");
    let mut ctx = Store::new();
    let resp = Store::new();
    let rr = req.prepare(&mut ctx, &resp).unwrap();
    assert_eq!(rr.method, Method::Get);
}

#[test]
fn lowercase_method_is_normalized() {
    let item = step(
        vec![("name", s("send"))],
        vec![("url", s("http://x")), ("method", s("post"))],
    );
    let req = Request::new(&item, None).unwrap();
    assert_eq!(req.method, "POST");
    let mut ctx = Store::new();
    let resp = Store::new();
    let rr = req.prepare(&mut ctx, &resp).unwrap();
    assert_eq!(rr.method, Method::Post);
}

#[test]
fn unknown_method_is_a_config_error() {
    let item = step(
        vec![("name", s("send"))],
        vec![("url", s("http://x")), ("method", s("BREW"))],
    );
    let req = Request::new(&item, None).unwrap();
    assert_eq!(req.method, "BREW");
    let mut ctx = Store::new();
    let resp = Store::new();
    match req.prepare(&mut ctx, &resp) {
        Err(StepError::Config(ConfigError::UnknownMethod)) => {}
        _ => panic!("expected an unknown-method error"),
    }
}

#[test]
fn missing_name_is_a_config_error() {
    let item = obj(vec![("request", obj(vec![("url", s("http://x"))]))]);
    assert_eq!(Request::new(&item, None).unwrap_err(), ConfigError::MissingName);
}

#[test]
fn missing_url_is_a_config_error() {
    let item = step(vec![("name", s("a"))], vec![("method", s("GET"))]);
    assert_eq!(Request::new(&item, None).unwrap_err(), ConfigError::MissingUrl);
}

#[test]
fn non_string_header_is_a_config_error() {
    let item = step(
        vec![("name", s("a"))],
        vec![
            ("url", s("http://x")),
            ("headers", obj(vec![("X-N", Value::Num("1".to_string()))])),
        ],
    );
    assert_eq!(
        Request::new(&item, None).unwrap_err(),
        ConfigError::NonStringHeader
    );
}

#[test]
fn prepare_sets_client_header_and_cookie() {
    let item = step(
        vec![("name", s("a"))],
        vec![
            ("url", s("http://x")),
            ("headers", obj(vec![("X-Token", s("{token}"))])),
        ],
    );
    let req = Request::new(&item, None).unwrap();
    let mut ctx = Store::new();
    ctx.insert("token".to_string(), s("t-1"));
    ctx.insert("cookie".to_string(), s("sid=9"));
    let resp = Store::new();
    let rr = req.prepare(&mut ctx, &resp).unwrap();
    assert_eq!(rr.headers.len(), 3);
    assert_eq!(rr.headers[0].0, "User-Agent");
    assert_eq!(rr.headers[0].1, "drill");
    assert_eq!(rr.headers[1].0, "X-Token");
    assert_eq!(rr.headers[1].1, "t-1");
    assert_eq!(rr.headers[2].0, "cookie");
    assert_eq!(rr.headers[2].1, "sid=9");
}

#[test]
fn prepare_resolves_url_and_body() {
    let item = step(
        vec![("name", s("a"))],
        vec![
            ("url", s("http://h/{user}")),
            ("method", s("put")),
            ("body", s("who={user}&mode=full")),
        ],
    );
    let req = Request::new(&item, None).unwrap();
    let mut ctx = Store::new();
    ctx.insert("user".to_string(), s("alice"));
    let resp = Store::new();
    let rr = req.prepare(&mut ctx, &resp).unwrap();
    assert_eq!(rr.url, "http://h/alice");
    assert_eq!(rr.method, Method::Put);
    assert_eq!(rr.body.unwrap(), "who=alice&mode=full");
}

#[test]
fn unresolved_header_fails_without_report() {
    let item = step(
        vec![("name", s("a"))],
        vec![
            ("url", s("http://x")),
            ("headers", obj(vec![("X-Token", s("{unset}"))])),
        ],
    );
    let req = Request::new(&item, None).unwrap();
    let mut ctx = Store::new();
    let resp = Store::new();
    let reports: Vec<Report> = Vec::new();
    match req.prepare(&mut ctx, &resp) {
        Err(StepError::Interpolation(e)) => assert_eq!(e.reference, "unset"),
        _ => panic!("expected an interpolation error"),
    }
    assert!(reports.is_empty());
}

#[test]
fn with_item_enters_and_stays_in_context() {
    let item = step(vec![("name", s("a"))], vec![("url", s("http://h/{item}"))]);
    let req = Request::new(&item, Some(s("v1"))).unwrap();
    let mut ctx = Store::new();
    let resp = Store::new();
    let rr = req.prepare(&mut ctx, &resp).unwrap();
    assert_eq!(rr.url, "http://h/v1");
    match ctx.get("item") {
        Some(Value::Str(v)) => assert_eq!(v, "v1"),
        _ => panic!("item should stay in the context"),
    }
}

#[test]
fn finish_without_assign_leaves_table_unchanged() {
    let item = step(vec![("name", s("a"))], vec![("url", s("http://x"))]);
    let req = Request::new(&item, None).unwrap();
    let mut resp = Store::new();
    resp.insert("earlier".to_string(), s("kept"));
    let mut reports: Vec<Report> = Vec::new();
    req.finish(200, 5, "{\"ignored\": true}", &mut resp, &mut reports)
        .unwrap();
    assert_eq!(reports.len(), 1);
    assert!(matches!(resp.get("earlier"), Some(Value::Str(v)) if v == "kept"));
    assert!(resp.get("a").is_none());
}

#[test]
fn finish_records_name_duration_and_status() {
    let item = step(vec![("name", s("ping"))], vec![("url", s("http://x"))]);
    let req = Request::new(&item, None).unwrap();
    let mut resp = Store::new();
    let mut reports: Vec<Report> = Vec::new();
    req.finish(204, 12, "", &mut resp, &mut reports).unwrap();
    assert_eq!(reports.len(), 1);
    assert_eq!(reports[0].name, "ping");
    assert_eq!(reports[0].duration_ms, 12);
    assert_eq!(reports[0].status, 204);
}

#[test]
fn finish_with_bad_body_fails_after_reporting() {
    let item = step(
        vec![("name", s("login")), ("assign", s("login"))],
        vec![("url", s("http://x"))],
    );
    let req = Request::new(&item, None).unwrap();
    let mut resp = Store::new();
    let mut reports: Vec<Report> = Vec::new();
    match req.finish(500, 3, "<html>", &mut resp, &mut reports) {
        Err(StepError::ResponseParse) => {}
        _ => panic!("expected a response-parse error"),
    }
    assert_eq!(reports.len(), 1);
    assert!(resp.get("login").is_none());
}

#[test]
fn captures_body_with_unicode_escapes() {
    let item = step(
        vec![("name", s("login")), ("assign", s("login"))],
        vec![("url", s("http://x"))],
    );
    let req = Request::new(&item, None).unwrap();
    let mut resp = Store::new();
    let mut reports: Vec<Report> = Vec::new();
    req.finish(
        200,
        4,
        "{\"name\": \"Jos\\u00e9\", \"token\": \"abc\"}",
        &mut resp,
        &mut reports,
    )
    .unwrap();
    match resp.get("login") {
        Some(Value::Obj(es)) => {
            assert!(matches!(&es[0].1, Value::Str(v) if v == "José"));
            assert!(matches!(&es[1].1, Value::Str(v) if v == "abc"));
        }
        _ => panic!("the parsed body should be stored"),
    }
}

#[test]
fn captured_response_reaches_later_step() {
    // first step: captures its body under `login`
    let first = step(
        vec![("name", s("login")), ("assign", s("login"))],
        vec![("url", s("http://x/login"))],
    );
    let req1 = Request::new(&first, None).unwrap();
    let mut ctx = Store::new();
    let mut resp = Store::new();
    let mut reports: Vec<Report> = Vec::new();
    req1.finish(200, 7, "{\"token\": \"abc\"}", &mut resp, &mut reports)
        .unwrap();

    // second step: references the captured token in a header
    let second = step(
        vec![("name", s("use"))],
        vec![
            ("url", s("http://x/data")),
            ("headers", obj(vec![("Authorization", s("{login.token}"))])),
        ],
    );
    let req2 = Request::new(&second, None).unwrap();
    let rr = req2.prepare(&mut ctx, &resp).unwrap();
    assert_eq!(rr.headers[1].0, "Authorization");
    assert_eq!(rr.headers[1].1, "abc");
}
