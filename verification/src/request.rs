//! One declarative HTTP request step.
//!
//! A [`Request`] is parsed once from a configuration node and reused across
//! iterations.  Executing it is split in two around the network call, which
//! a transport outside this crate performs:
//!
//! * [`Request::prepare`] merges the iteration item into the context and
//!   resolves the URL, method, headers and body templates into a concrete
//!   [`ResolvedRequest`];
//! * [`Request::finish`] appends the [`Report`] for the observed response
//!   and, if an assignment key is set, parses the response body as JSON and
//!   stores it in the response table for later steps.

use vstd::prelude::*;

use crate::interpolate::{resolve, scan, InterpolationError};
use crate::json::{parse_json, spec_parse};
use crate::store::Store;
use crate::value::{obj_field, obj_get, push_char, str_eq, JsonV, Value};

verus! {

/// The HTTP verbs a step may use.
#[derive(Clone, Copy, Debug, PartialEq, Eq, Structural)]
pub enum Method {
    Get,
    Post,
    Put,
    Patch,
    Delete,
}

/// A fatal flaw in a step's configuration.
#[derive(Clone, Copy, Debug, PartialEq, Eq, Structural)]
pub enum ConfigError {
    /// The step has no string `name`.
    MissingName,
    /// The step's request node has no string `url`.
    MissingUrl,
    /// A header value is not a string.
    NonStringHeader,
    /// The stored method is none of the five supported verbs.
    UnknownMethod,
}

/// Why executing a step failed.
#[derive(Debug)]
pub enum StepError {
    Config(ConfigError),
    Interpolation(InterpolationError),
    /// The response body of a step with an assignment key was not JSON.
    ResponseParse,
}

/// The record kept of one execution: step name, wall-clock duration in
/// milliseconds, HTTP status code.
#[derive(Debug)]
pub struct Report {
    pub name: String,
    pub duration_ms: u64,
    pub status: u16,
}

/// One step, immutable once parsed.
#[derive(Debug)]
pub struct Request {
    pub name: String,
    pub url: String,
    /// Stored upper-cased; validated only at execution time.
    pub method: String,
    pub headers: Vec<(String, String)>,
    pub body: Option<String>,
    pub with_item: Option<Value>,
    pub assign: Option<String>,
}

/// A concrete request, ready for a transport to send.
#[derive(Debug)]
pub struct ResolvedRequest {
    pub url: String,
    pub method: Method,
    pub headers: Vec<(String, String)>,
    pub body: Option<String>,
}

/// The verb a stored method string maps to.
pub open spec fn method_of(m: Seq<char>) -> Option<Method> {
    if m == "GET"@ {
        Some(Method::Get)
    } else if m == "POST"@ {
        Some(Method::Post)
    } else if m == "PUT"@ {
        Some(Method::Put)
    } else if m == "PATCH"@ {
        Some(Method::Patch)
    } else if m == "DELETE"@ {
        Some(Method::Delete)
    } else {
        None
    }
}

/// Field `k` of a mapping value.
pub open spec fn field_of(v: JsonV, k: Seq<char>) -> Option<JsonV> {
    match v {
        JsonV::Obj(es) => obj_get(es, k),
        _ => None,
    }
}

/// Field `k` of a mapping value, when it is a string.
pub open spec fn str_field(v: JsonV, k: Seq<char>) -> Option<Seq<char>> {
    match field_of(v, k) {
        Some(JsonV::Str(s)) => Some(s),
        _ => None,
    }
}

/// Is this configuration node an HTTP request step?
pub open spec fn is_request_node(v: JsonV) -> bool {
    match field_of(v, "request"@) {
        Some(r) => r is Obj,
        _ => false,
    }
}

/// ASCII upper-casing of one character.
pub open spec fn upper_char(c: char) -> char {
    if 97 <= c as u32 <= 122 {
        ((c as u32) - 32) as char
    } else {
        c
    }
}

/// ASCII upper-casing of a string.
pub open spec fn upper(s: Seq<char>) -> Seq<char> {
    Seq::new(s.len(), |i: int| upper_char(s[i]))
}

/// The step's display name, as configured.
pub open spec fn spec_name(item: JsonV) -> Option<Seq<char>> {
    str_field(item, "name"@)
}

/// The step's request node.
pub open spec fn spec_request(item: JsonV) -> Option<JsonV> {
    field_of(item, "request"@)
}

/// The step's URL template, as configured.
pub open spec fn spec_url(item: JsonV) -> Option<Seq<char>> {
    match spec_request(item) {
        Some(r) => str_field(r, "url"@),
        None => None,
    }
}

/// The stored method string: the configured one upper-cased, or `GET`.
pub open spec fn spec_method_str(item: JsonV) -> Seq<char> {
    match spec_request(item) {
        Some(r) => match str_field(r, "method"@) {
            Some(m) => upper(m),
            None => "GET"@,
        },
        None => "GET"@,
    }
}

/// The step's body template, as configured.
pub open spec fn spec_body(item: JsonV) -> Option<Seq<char>> {
    match spec_request(item) {
        Some(r) => str_field(r, "body"@),
        None => None,
    }
}

/// The step's assignment key, as configured.
pub open spec fn spec_assign(item: JsonV) -> Option<Seq<char>> {
    str_field(item, "assign"@)
}

/// Header templates drawn from the entries of the `headers` mapping; `None`
/// when some value is not a string.
pub open spec fn headers_of(es: Seq<(Seq<char>, JsonV)>) -> Option<Seq<(Seq<char>, Seq<char>)>>
    decreases es.len(),
{
    if es.len() == 0 {
        Some(Seq::empty())
    } else {
        match es[0].1 {
            JsonV::Str(v) => match headers_of(es.drop_first()) {
                Some(r) => Some(seq![(es[0].0, v)] + r),
                None => None,
            },
            _ => None,
        }
    }
}

/// The step's header templates: empty when no `headers` mapping is present,
/// `None` when one is present with a non-string value.
pub open spec fn spec_headers(item: JsonV) -> Option<Seq<(Seq<char>, Seq<char>)>> {
    match spec_request(item) {
        Some(r) => match field_of(r, "headers"@) {
            Some(JsonV::Obj(es)) => headers_of(es),
            _ => Some(Seq::empty()),
        },
        None => Some(Seq::empty()),
    }
}

/// The model of an executable header list.
pub open spec fn hview(hs: Seq<(String, String)>) -> Seq<(Seq<char>, Seq<char>)> {
    Seq::new(hs.len(), |i: int| (hs[i].0@, hs[i].1@))
}

/// Each header template resolved independently, in order.
pub open spec fn resolve_headers(
    hs: Seq<(Seq<char>, Seq<char>)>,
    ctx: Store,
    resp: Store,
) -> Option<Seq<(Seq<char>, Seq<char>)>>
    decreases hs.len(),
{
    if hs.len() == 0 {
        Some(Seq::empty())
    } else {
        match scan(hs[0].1, ctx, resp) {
            Some(v) => match resolve_headers(hs.drop_first(), ctx, resp) {
                Some(r) => Some(seq![(hs[0].0, v)] + r),
                None => None,
            },
            None => None,
        }
    }
}

/// Is the reserved `cookie` slot of the context usable (absent, or a
/// string)?
pub open spec fn cookie_ok(ctx: Store) -> bool {
    match ctx.spec_get("cookie"@) {
        Some(c) => c is Str,
        None => true,
    }
}

/// The session cookie held by the context, if any.
pub open spec fn cookie_of(ctx: Store) -> Option<Seq<char>> {
    match ctx.spec_get("cookie"@) {
        Some(JsonV::Str(s)) => Some(s),
        _ => None,
    }
}

/// The full outgoing header list: the fixed client header first, then every
/// configured header resolved in order, then the session cookie if the
/// context holds one.  `None` when a header template fails to resolve or
/// the cookie slot holds a non-string.
pub open spec fn spec_headers_resolved(req: Request, ctx: Store, resp: Store) -> Option<
    Seq<(Seq<char>, Seq<char>)>,
> {
    if !cookie_ok(ctx) {
        None
    } else {
        match resolve_headers(hview(req.headers@), ctx, resp) {
            Some(hs) => {
                let base = seq![("User-Agent"@, "drill"@)] + hs;
                match cookie_of(ctx) {
                    Some(c) => Some(base + seq![("cookie"@, c)]),
                    None => Some(base),
                }
            },
            None => None,
        }
    }
}

/// Field `k` of a mapping value.
fn field_exec<'a>(item: &'a Value, k: &str) -> (r: Option<&'a Value>)
    ensures
        (match r {
            Some(v) => field_of(item.dv(), k@) == Some(v.dv()),
            None => field_of(item.dv(), k@) is None,
        }),
{
    match item {
        Value::Obj(es) => obj_field(es, k),
        _ => None,
    }
}

/// ASCII upper-casing.
fn to_upper(s: &str) -> (r: String)
    ensures
        r@ == upper(s@),
{
    let n = s.unicode_len();
    let mut out = String::new();
    let mut i: usize = 0;
    while i < n
        invariant
            i <= n,
            n == s@.len(),
            out@.len() == i as int,
            forall|j: int| 0 <= j < i as int ==> out@[j] == upper_char(s@[j]),
        decreases n - i,
    {
        let c = s.get_char(i);
        let cu = c as u32;
        if 97 <= cu && cu <= 122 {
            let u = ((c as u8) - 32) as char;
            push_char(&mut out, u);
        } else {
            push_char(&mut out, c);
        }
        i = i + 1;
    }
    proof {
        assert(out@ =~= upper(s@));
    }
    out
}

/// The verb the stored method string maps to.
fn method_exec(m: &str) -> (r: Option<Method>)
    ensures
        r == method_of(m@),
{
    if str_eq(m, "GET") {
        Some(Method::Get)
    } else if str_eq(m, "POST") {
        Some(Method::Post)
    } else if str_eq(m, "PUT") {
        Some(Method::Put)
    } else if str_eq(m, "PATCH") {
        Some(Method::Patch)
    } else if str_eq(m, "DELETE") {
        Some(Method::Delete)
    } else {
        None
    }
}

impl Request {
    /// Does this configuration node describe an HTTP request step?
    pub fn is_that_you(item: &Value) -> (b: bool)
        ensures
            b == is_request_node(item.dv()),
    {
        match field_exec(item, "request") {
            Some(v) => match v {
                Value::Obj(_) => true,
                _ => false,
            },
            None => false,
        }
    }

    /// Parses one configuration node into a step.
    ///
    /// `name` and `request.url` must be present as strings, and every
    /// header value must be a string; each absence or mismatch is a
    /// configuration error, headers checked first.  A missing method
    /// defaults to `GET`; a present one is stored upper-cased, unvalidated.
    pub fn new(item: &Value, with_item: Option<Value>) -> (r: Result<Request, ConfigError>)
        ensures
            (match r {
                Ok(req) => {
                    &&& spec_name(item.dv()) == Some(req.name@)
                    &&& spec_url(item.dv()) == Some(req.url@)
                    &&& req.method@ == spec_method_str(item.dv())
                    &&& spec_headers(item.dv()) == Some(hview(req.headers@))
                    &&& (match spec_body(item.dv()) {
                        Some(b) => req.body matches Some(rb) && rb@ == b,
                        None => req.body is None,
                    })
                    &&& (match spec_assign(item.dv()) {
                        Some(a) => req.assign matches Some(ra) && ra@ == a,
                        None => req.assign is None,
                    })
                    &&& req.with_item == with_item
                },
                Err(e) => {
                    &&& (spec_headers(item.dv()) is None || spec_name(item.dv()) is None
                        || spec_url(item.dv()) is None)
                    &&& e == (if spec_headers(item.dv()) is None {
                        ConfigError::NonStringHeader
                    } else if spec_name(item.dv()) is None {
                        ConfigError::MissingName
                    } else {
                        ConfigError::MissingUrl
                    })
                },
            }),
    {
        let req_node = field_exec(item, "request");
        let mut headers: Vec<(String, String)> = Vec::new();
        match req_node {
            Some(rn) => {
                match field_exec(rn, "headers") {
                    Some(hv) => {
                        match hv {
                            Value::Obj(es) => {
                                let ghost hes = crate::value::dv_obj(es@);
                                let n = es.len();
                                let mut i: usize = 0;
                                proof {
                                    crate::value::lemma_dv_obj(es@);
                                    assert(hes.skip(0) =~= hes);
                                    assert(hview(headers@) =~= Seq::<
                                        (Seq<char>, Seq<char>),
                                    >::empty());
                                    match headers_of(hes) {
                                        Some(rest) => {
                                            assert(hview(headers@) + rest =~= rest);
                                        },
                                        None => {},
                                    }
                                }
                                while i < n
                                    invariant
                                        i <= n,
                                        n == es@.len(),
                                        hes == crate::value::dv_obj(es@),
                                        hes.len() == n as int,
                                        spec_headers(item.dv()) == headers_of(hes),
                                        (match headers_of(hes.skip(i as int)) {
                                            Some(rest) => headers_of(hes) == Some(
                                                hview(headers@) + rest,
                                            ),
                                            None => headers_of(hes) is None,
                                        }),
                                    decreases n - i,
                                {
                                    proof {
                                        crate::value::lemma_dv_obj(es@);
                                        assert(hes.skip(i as int)[0] == hes[i as int]);
                                        assert(hes.skip(i as int).drop_first() =~= hes.skip(
                                            i as int + 1,
                                        ));
                                    }
                                    match &es[i].1 {
                                        Value::Str(vs) => {
                                            let ghost h0 = headers@;
                                            headers.push((es[i].0.clone(), vs.clone()));
                                            proof {
                                                assert(hview(headers@) =~= hview(h0).push(
                                                    (es@[i as int].0@, vs@),
                                                ));
                                                match headers_of(hes.skip(i as int + 1)) {
                                                    Some(rest) => {
                                                        assert(hview(h0) + (seq![
                                                            (hes[i as int].0, vs@),
                                                        ] + rest) =~= hview(headers@) + rest);
                                                    },
                                                    None => {},
                                                }
                                            }
                                        },
                                        _ => {
                                            proof {
                                                assert(hes[i as int].1 == es@[i as int].1.dv());
                                                assert(headers_of(hes.skip(i as int)) is None);
                                            }
                                            return Err(ConfigError::NonStringHeader);
                                        },
                                    }
                                    i = i + 1;
                                }
                                proof {
                                    assert(hes.skip(n as int) =~= Seq::<
                                        (Seq<char>, JsonV),
                                    >::empty());
                                    assert(hview(headers@) + Seq::<
                                        (Seq<char>, Seq<char>),
                                    >::empty() =~= hview(headers@));
                                }
                            },
                            _ => {
                                proof {
                                    assert(hview(headers@) =~= Seq::<
                                        (Seq<char>, Seq<char>),
                                    >::empty());
                                }
                            },
                        }
                    },
                    None => {
                        proof {
                            assert(hview(headers@) =~= Seq::<(Seq<char>, Seq<char>)>::empty());
                        }
                    },
                }
            },
            None => {
                proof {
                    assert(hview(headers@) =~= Seq::<(Seq<char>, Seq<char>)>::empty());
                }
            },
        }
        let name: String = match field_exec(item, "name") {
            Some(v) => match v {
                Value::Str(s) => s.clone(),
                _ => {
                    return Err(ConfigError::MissingName);
                },
            },
            None => {
                return Err(ConfigError::MissingName);
            },
        };
        let url: String = match req_node {
            Some(rn) => match field_exec(rn, "url") {
                Some(v) => match v {
                    Value::Str(s) => s.clone(),
                    _ => {
                        return Err(ConfigError::MissingUrl);
                    },
                },
                None => {
                    return Err(ConfigError::MissingUrl);
                },
            },
            None => {
                return Err(ConfigError::MissingUrl);
            },
        };
        let method: String = match req_node {
            Some(rn) => match field_exec(rn, "method") {
                Some(v) => match v {
                    Value::Str(m) => to_upper(m.as_str()),
                    _ => "GET".to_owned(),
                },
                None => "GET".to_owned(),
            },
            None => "GET".to_owned(),
        };
        let body: Option<String> = match req_node {
            Some(rn) => match field_exec(rn, "body") {
                Some(v) => match v {
                    Value::Str(b) => Some(b.clone()),
                    _ => None,
                },
                None => None,
            },
            None => None,
        };
        let assign: Option<String> = match field_exec(item, "assign") {
            Some(v) => match v {
                Value::Str(a) => Some(a.clone()),
                _ => None,
            },
            None => None,
        };
        Ok(
            Request {
                name,
                url,
                method,
                headers,
                body,
                with_item,
                assign,
            },
        )
    }

    /// Builds the concrete request for one execution.
    ///
    /// Merges the iteration item (if any) into the context under the key
    /// `item` — where it stays after the call — then resolves the URL,
    /// validates the method, resolves each header (the fixed client header
    /// first, the session cookie from the context last) and the body.
    pub fn prepare(&self, ctx: &mut Store, resp: &Store) -> (r: Result<
        ResolvedRequest,
        StepError,
    >)
        requires
            old(ctx).wf(),
        ensures
            final(ctx).wf(),
            (match self.with_item {
                Some(wi) => forall|q: Seq<char>|
                    #![auto]
                    final(ctx).spec_get(q) == (if q == "item"@ {
                        Some(wi.dv())
                    } else {
                        old(ctx).spec_get(q)
                    }),
                None => *final(ctx) == *old(ctx),
            }),
            (match r {
                Ok(rr) => {
                    &&& scan(self.url@, *final(ctx), *resp) == Some(rr.url@)
                    &&& method_of(self.method@) == Some(rr.method)
                    &&& spec_headers_resolved(*self, *final(ctx), *resp) == Some(
                        hview(rr.headers@),
                    )
                    &&& (match self.body {
                        Some(b) => rr.body matches Some(rb) && scan(b@, *final(ctx), *resp)
                            == Some(rb@),
                        None => rr.body is None,
                    })
                },
                Err(StepError::Interpolation(_)) => {
                    ||| scan(self.url@, *final(ctx), *resp) is None
                    ||| (method_of(self.method@) is Some && spec_headers_resolved(
                        *self,
                        *final(ctx),
                        *resp,
                    ) is None)
                    ||| (method_of(self.method@) is Some && spec_headers_resolved(
                        *self,
                        *final(ctx),
                        *resp,
                    ) is Some && (self.body matches Some(b) && scan(b@, *final(ctx), *resp)
                        is None))
                },
                Err(StepError::Config(ce)) => {
                    &&& ce == ConfigError::UnknownMethod
                    &&& scan(self.url@, *final(ctx), *resp) is Some
                    &&& method_of(self.method@) is None
                },
                Err(StepError::ResponseParse) => false,
            }),
    {
        match &self.with_item {
            Some(wi) => {
                ctx.insert("item".to_owned(), wi.clone());
            },
            None => {},
        }
        let url = match resolve(self.url.as_str(), ctx, resp) {
            Ok(u) => u,
            Err(e) => {
                return Err(StepError::Interpolation(e));
            },
        };
        let method = match method_exec(self.method.as_str()) {
            Some(m) => m,
            None => {
                return Err(StepError::Config(ConfigError::UnknownMethod));
            },
        };
        let ghost ctx2 = *ctx;
        let ghost hv_all = hview(self.headers@);
        let mut uh: Vec<(String, String)> = Vec::new();
        let n = self.headers.len();
        let mut i: usize = 0;
        proof {
            assert(hv_all.skip(0) =~= hv_all);
            assert(hview(uh@) =~= Seq::<(Seq<char>, Seq<char>)>::empty());
            match resolve_headers(hv_all, ctx2, *resp) {
                Some(rest) => {
                    assert(hview(uh@) + rest =~= rest);
                },
                None => {},
            }
        }
        while i < n
            invariant
                i <= n,
                n == self.headers@.len(),
                ctx2 == *ctx,
                ctx.wf(),
                method_of(self.method@) is Some,
                (match self.with_item {
                    Some(wi) => forall|q: Seq<char>|
                        #![auto]
                        ctx.spec_get(q) == (if q == "item"@ {
                            Some(wi.dv())
                        } else {
                            old(ctx).spec_get(q)
                        }),
                    None => *ctx == *old(ctx),
                }),
                hv_all == hview(self.headers@),
                (match resolve_headers(hv_all.skip(i as int), ctx2, *resp) {
                    Some(rest) => resolve_headers(hv_all, ctx2, *resp) == Some(
                        hview(uh@) + rest,
                    ),
                    None => resolve_headers(hv_all, ctx2, *resp) is None,
                }),
            decreases n - i,
        {
            proof {
                assert(hv_all.skip(i as int)[0] == hv_all[i as int]);
                assert(hv_all.skip(i as int).drop_first() =~= hv_all.skip(i as int + 1));
            }
            match resolve(self.headers[i].1.as_str(), ctx, resp) {
                Ok(hvres) => {
                    let ghost u0 = uh@;
                    uh.push((self.headers[i].0.clone(), hvres));
                    proof {
                        assert(hview(uh@) =~= hview(u0).push((self.headers@[i as int].0@, hvres@)));
                        match resolve_headers(hv_all.skip(i as int + 1), ctx2, *resp) {
                            Some(rest) => {
                                assert(hview(u0) + (seq![(hv_all[i as int].0, hvres@)] + rest)
                                    =~= hview(uh@) + rest);
                            },
                            None => {},
                        }
                    }
                },
                Err(e) => {
                    proof {
                        assert(resolve_headers(hv_all.skip(i as int), ctx2, *resp) is None);
                        assert(spec_headers_resolved(*self, ctx2, *resp) is None);
                    }
                    return Err(StepError::Interpolation(e));
                },
            }
            i = i + 1;
        }
        proof {
            assert(hv_all.skip(n as int) =~= Seq::<(Seq<char>, Seq<char>)>::empty());
            assert(hview(uh@) + Seq::<(Seq<char>, Seq<char>)>::empty() =~= hview(uh@));
        }
        let mut headers: Vec<(String, String)> = Vec::new();
        headers.push(("User-Agent".to_owned(), "drill".to_owned()));
        let mut rest = uh;
        headers.append(&mut rest);
        proof {
            assert(hview(headers@) =~= seq![("User-Agent"@, "drill"@)] + hview(uh@));
        }
        match ctx.get("cookie") {
            Some(cv) => match cv {
                Value::Str(cs) => {
                    let ghost h0 = headers@;
                    headers.push(("cookie".to_owned(), cs.clone()));
                    proof {
                        assert(hview(headers@) =~= hview(h0) + seq![("cookie"@, cs@)]);
                    }
                },
                _ => {
                    return Err(
                        StepError::Interpolation(
                            InterpolationError { reference: "cookie".to_owned() },
                        ),
                    );
                },
            },
            None => {},
        }
        let body: Option<String> = match &self.body {
            Some(b) => match resolve(b.as_str(), ctx, resp) {
                Ok(rb) => Some(rb),
                Err(e) => {
                    return Err(StepError::Interpolation(e));
                },
            },
            None => None,
        };
        Ok(ResolvedRequest { url, method, headers, body })
    }

    /// Records the outcome of one execution.
    ///
    /// Appends a report carrying the step name, the measured duration and
    /// the observed status.  If the step has an assignment key, the
    /// response body is then parsed as JSON and stored in the response
    /// table under that key, where later steps' templates see it; a body
    /// that is not JSON fails the step, after the report is appended.
    /// Without an assignment key the response table is left untouched.
    pub fn finish(
        &self,
        status: u16,
        duration_ms: u64,
        body: &str,
        resp: &mut Store,
        reports: &mut Vec<Report>,
    ) -> (r: Result<(), StepError>)
        requires
            old(resp).wf(),
        ensures
            final(resp).wf(),
            final(reports)@ == old(reports)@.push(
                (Report { name: self.name, duration_ms, status }),
            ),
            (match self.assign {
                Some(k) => (match r {
                    Ok(u) => spec_parse(body@) matches Some(j) && forall|q: Seq<char>|
                        #![auto]
                        final(resp).spec_get(q) == (if q == k@ {
                            Some(j)
                        } else {
                            old(resp).spec_get(q)
                        }),
                    Err(e) => e is ResponseParse && spec_parse(body@) is None && *final(resp)
                        == *old(resp),
                }),
                None => r is Ok && *final(resp) == *old(resp),
            }),
    {
        reports.push(Report { name: self.name.clone(), duration_ms, status });
        match &self.assign {
            Some(k) => match parse_json(body) {
                Some(v) => {
                    resp.insert(k.clone(), v);
                    Ok(())
                },
                None => Err(StepError::ResponseParse),
            },
            None => Ok(()),
        }
    }
}

} // verus!
