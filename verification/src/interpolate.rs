//! Template interpolation.
//!
//! A template is a string with embedded `{...}` references.  A reference
//! names a path: dot-separated segments, the first of which is looked up in
//! the variable context and then, if absent there, in the response table.
//! The remaining segments walk into the found value: a mapping is entered by
//! field name, a sequence by decimal index.  The value a path ends on must be
//! a scalar (string, number or boolean); it is spliced into the output in
//! place of the reference.  A reference that cannot be resolved — missing
//! key, wrong type, out-of-range index, or a `{` that is never closed — fails
//! the whole resolution; nothing is silently substituted.

use vstd::prelude::*;

use crate::store::Store;
use crate::value::{dv_arr, dv_obj, lemma_dv_arr, obj_field, obj_get, JsonV, Value};

verus! {

/// An unresolvable template reference.
#[derive(Debug)]
pub struct InterpolationError {
    /// The reference text (without braces) that failed to resolve, or the
    /// text after a `{` that was never closed.
    pub reference: String,
}

pub open spec fn is_digit(c: char) -> bool {
    48 <= c as u32 <= 57
}

/// Numeric value of a sequence of decimal digits.
pub open spec fn digits_val(s: Seq<char>) -> int
    decreases s.len(),
{
    if s.len() == 0 {
        0
    } else {
        digits_val(s.drop_last()) * 10 + (s.last() as u32 - 48)
    }
}

/// Does `seg` spell a decimal index?
pub open spec fn is_index(seg: Seq<char>) -> bool {
    seg.len() > 0 && forall|i: int| 0 <= i < seg.len() ==> is_digit(seg[i])
}

/// One path segment applied to a value: field access on a mapping, indexing
/// on a sequence; anything else fails.
pub open spec fn step_into(cur: JsonV, seg: Seq<char>) -> Option<JsonV> {
    match cur {
        JsonV::Obj(es) => obj_get(es, seg),
        JsonV::Arr(es) => if is_index(seg) && digits_val(seg) < es.len() {
            Some(es[digits_val(seg)])
        } else {
            None
        },
        _ => None,
    }
}

/// Walks the remaining path `p` into `cur`; `acc` is the segment read so far.
pub open spec fn walk_segs(p: Seq<char>, acc: Seq<char>, cur: JsonV) -> Option<JsonV>
    decreases p.len(),
{
    if p.len() == 0 {
        step_into(cur, acc)
    } else if p[0] == '.' {
        match step_into(cur, acc) {
            Some(v) => walk_segs(p.drop_first(), Seq::empty(), v),
            None => None,
        }
    } else {
        walk_segs(p.drop_first(), acc.push(p[0]), cur)
    }
}

/// The first path segment names a variable: the context is consulted first,
/// then the response table.
pub open spec fn lookup_root(seg: Seq<char>, ctx: Store, resp: Store) -> Option<JsonV> {
    if ctx.spec_get(seg) is Some {
        ctx.spec_get(seg)
    } else {
        resp.spec_get(seg)
    }
}

/// Resolves the path `p` (with root segment `acc` read so far) to a value.
pub open spec fn resolve_path(p: Seq<char>, acc: Seq<char>, ctx: Store, resp: Store) -> Option<
    JsonV,
>
    decreases p.len(),
{
    if p.len() == 0 {
        lookup_root(acc, ctx, resp)
    } else if p[0] == '.' {
        match lookup_root(acc, ctx, resp) {
            Some(v) => walk_segs(p.drop_first(), Seq::empty(), v),
            None => None,
        }
    } else {
        resolve_path(p.drop_first(), acc.push(p[0]), ctx, resp)
    }
}

/// The text a scalar value renders as; composite values and null do not
/// render.
pub open spec fn spec_render(v: JsonV) -> Option<Seq<char>> {
    match v {
        JsonV::Str(s) => Some(s),
        JsonV::Num(s) => Some(s),
        JsonV::Bool(b) => Some(if b {
            "true"@
        } else {
            "false"@
        }),
        _ => None,
    }
}

/// The text a whole reference `p` resolves to.
pub open spec fn resolve_ref(p: Seq<char>, ctx: Store, resp: Store) -> Option<Seq<char>> {
    match resolve_path(p, Seq::empty(), ctx, resp) {
        Some(v) => spec_render(v),
        None => None,
    }
}

/// Template scanning, outside a reference.
pub open spec fn scan(t: Seq<char>, ctx: Store, resp: Store) -> Option<Seq<char>>
    decreases t.len(),
{
    if t.len() == 0 {
        Some(Seq::empty())
    } else if t[0] == '{' {
        scan_ref(t.drop_first(), Seq::empty(), ctx, resp)
    } else {
        match scan(t.drop_first(), ctx, resp) {
            Some(r) => Some(seq![t[0]] + r),
            None => None,
        }
    }
}

/// Template scanning, inside a reference; `acc` is the reference text read
/// so far.  A template that ends before the closing `}` fails.
pub open spec fn scan_ref(t: Seq<char>, acc: Seq<char>, ctx: Store, resp: Store) -> Option<
    Seq<char>,
>
    decreases t.len(),
{
    if t.len() == 0 {
        None
    } else if t[0] == '}' {
        match resolve_ref(acc, ctx, resp) {
            Some(val) => match scan(t.drop_first(), ctx, resp) {
                Some(r) => Some(val + r),
                None => None,
            },
            None => None,
        }
    } else {
        scan_ref(t.drop_first(), acc.push(t[0]), ctx, resp)
    }
}

/// The reference text behind the first failure; meaningful when [`scan`]
/// fails.  It is the text of the first reference that does not resolve to a
/// scalar, or the text after a `{` that is never closed.
pub open spec fn scan_fail(t: Seq<char>, ctx: Store, resp: Store) -> Seq<char>
    decreases t.len(),
{
    if t.len() == 0 {
        Seq::empty()
    } else if t[0] == '{' {
        scan_ref_fail(t.drop_first(), Seq::empty(), ctx, resp)
    } else {
        scan_fail(t.drop_first(), ctx, resp)
    }
}

/// As [`scan_fail`], inside a reference whose text read so far is `acc`.
pub open spec fn scan_ref_fail(t: Seq<char>, acc: Seq<char>, ctx: Store, resp: Store) -> Seq<char>
    decreases t.len(),
{
    if t.len() == 0 {
        acc
    } else if t[0] == '}' {
        match resolve_ref(acc, ctx, resp) {
            Some(val) => scan_fail(t.drop_first(), ctx, resp),
            None => acc,
        }
    } else {
        scan_ref_fail(t.drop_first(), acc.push(t[0]), ctx, resp)
    }
}

/// Scanning reference text that contains no `}` only accumulates it.
proof fn lemma_scan_ref_text(t: Seq<char>, w: Seq<char>, acc: Seq<char>, ctx: Store, resp: Store)
    requires
        forall|i: int| 0 <= i < w.len() ==> w[i] != '}',
    ensures
        scan_ref(w + t, acc, ctx, resp) == scan_ref(t, acc + w, ctx, resp),
    decreases w.len(),
{
    if w.len() == 0 {
        assert(w + t =~= t);
        assert(acc + w =~= acc);
    } else {
        assert((w + t)[0] == w[0]);
        assert((w + t).drop_first() =~= w.drop_first() + t);
        lemma_scan_ref_text(t, w.drop_first(), acc.push(w[0]), ctx, resp);
        assert(acc.push(w[0]) + w.drop_first() =~= acc + w);
    }
}

/// Path text without a dot only accumulates into the root segment.
proof fn lemma_resolve_path_text(
    p: Seq<char>,
    w: Seq<char>,
    acc: Seq<char>,
    ctx: Store,
    resp: Store,
)
    requires
        forall|i: int| 0 <= i < w.len() ==> w[i] != '.',
    ensures
        resolve_path(w + p, acc, ctx, resp) == resolve_path(p, acc + w, ctx, resp),
    decreases w.len(),
{
    if w.len() == 0 {
        assert(w + p =~= p);
        assert(acc + w =~= acc);
    } else {
        assert((w + p)[0] == w[0]);
        assert((w + p).drop_first() =~= w.drop_first() + p);
        lemma_resolve_path_text(p, w.drop_first(), acc.push(w[0]), ctx, resp);
        assert(acc.push(w[0]) + w.drop_first() =~= acc + w);
    }
}

/// Walking path text without a dot only accumulates into the segment.
proof fn lemma_walk_text(p: Seq<char>, w: Seq<char>, acc: Seq<char>, cur: JsonV)
    requires
        forall|i: int| 0 <= i < w.len() ==> w[i] != '.',
    ensures
        walk_segs(w + p, acc, cur) == walk_segs(p, acc + w, cur),
    decreases w.len(),
{
    if w.len() == 0 {
        assert(w + p =~= p);
        assert(acc + w =~= acc);
    } else {
        assert((w + p)[0] == w[0]);
        assert((w + p).drop_first() =~= w.drop_first() + p);
        lemma_walk_text(p, w.drop_first(), acc.push(w[0]), cur);
        assert(acc.push(w[0]) + w.drop_first() =~= acc + w);
    }
}

/// A value stored in the response table under `k` is what a later
/// template's path `k` resolves to, as long as the variable context does
/// not itself bind `k` (the context is consulted first) and `k` names one
/// whole segment (no `.`).
pub proof fn lemma_assigned_visible(k: Seq<char>, v: JsonV, ctx: Store, resp: Store)
    requires
        ctx.spec_get(k) is None,
        resp.spec_get(k) == Some(v),
        forall|i: int| 0 <= i < k.len() ==> k[i] != '.',
    ensures
        resolve_path(k, Seq::empty(), ctx, resp) == Some(v),
{
    lemma_resolve_path_text(Seq::empty(), k, Seq::empty(), ctx, resp);
    assert(k + Seq::<char>::empty() =~= k);
    assert(Seq::<char>::empty() + k =~= k);
}

/// Round trip through the response table: after a step captures a mapping
/// under key `k` whose field `f` is the string `s`, a later template
/// `{k.f}` resolves to exactly `s` — provided the context does not shadow
/// `k`, and `k` and `f` are plain single segments (no `.`, `{` or `}`).
pub proof fn lemma_capture_roundtrip(
    k: Seq<char>,
    f: Seq<char>,
    s: Seq<char>,
    es: Seq<(Seq<char>, JsonV)>,
    ctx: Store,
    resp: Store,
)
    requires
        ctx.spec_get(k) is None,
        resp.spec_get(k) == Some(JsonV::Obj(es)),
        obj_get(es, f) == Some(JsonV::Str(s)),
        forall|i: int| 0 <= i < k.len() ==> k[i] != '}' && k[i] != '.',
        forall|i: int| 0 <= i < f.len() ==> f[i] != '}' && f[i] != '.',
    ensures
        scan(seq!['{'] + k + seq!['.'] + f + seq!['}'], ctx, resp) == Some(s),
{
    let t = seq!['{'] + k + seq!['.'] + f + seq!['}'];
    let inner = k + seq!['.'] + f + seq!['}'];
    assert(t[0] == '{');
    assert(t.drop_first() =~= inner);
    lemma_scan_ref_text(seq!['.'] + f + seq!['}'], k, Seq::empty(), ctx, resp);
    assert(k + (seq!['.'] + f + seq!['}']) =~= inner);
    assert(Seq::<char>::empty() + k =~= k);
    // after the `k` segment: one `.`, then `f`, then the closing brace
    let t2 = seq!['.'] + f + seq!['}'];
    assert(t2[0] == '.');
    assert(t2.drop_first() =~= f + seq!['}']);
    lemma_scan_ref_text(seq!['}'], f, k.push('.'), ctx, resp);
    assert(f + seq!['}'] =~= f + seq!['}']);
    assert(scan_ref(t2.drop_first(), k.push('.'), ctx, resp) == scan_ref(
        seq!['}'],
        k.push('.') + f,
        ctx,
        resp,
    ));
    // the closing brace resolves the accumulated reference `k.f`
    let p = k.push('.') + f;
    assert(p =~= k + seq!['.'] + f);
    lemma_resolve_path_text(seq!['.'] + f, k, Seq::empty(), ctx, resp);
    assert(k + (seq!['.'] + f) =~= p);
    assert(Seq::<char>::empty() + k =~= k);
    let p2 = seq!['.'] + f;
    assert(p2[0] == '.');
    assert(p2.drop_first() =~= f);
    lemma_walk_text(Seq::empty(), f, Seq::empty(), JsonV::Obj(es));
    assert(f + Seq::<char>::empty() =~= f);
    assert(Seq::<char>::empty() + f =~= f);
    assert(walk_segs(f, Seq::empty(), JsonV::Obj(es)) == Some(JsonV::Str(s)));
    assert(resolve_ref(p, ctx, resp) == Some(s));
    assert(scan(Seq::<char>::empty(), ctx, resp) == Some(Seq::<char>::empty()));
    assert((seq!['}']).drop_first() =~= Seq::<char>::empty());
    assert(s + Seq::<char>::empty() =~= s);
}

/// Parses a decimal index.  `None` means the text is no index at all, or one
/// too large for any in-memory sequence.
fn parse_index(seg: &str) -> (r: Option<u64>)
    ensures
        (match r {
            Some(ix) => is_index(seg@) && digits_val(seg@) == ix as int,
            None => !is_index(seg@) || digits_val(seg@) > u64::MAX as int,
        }),
{
    let n = seg.unicode_len();
    if n == 0 {
        return None;
    }
    let mut i: usize = 0;
    let mut acc: u64 = 0;
    let mut too_big = false;
    let ghost mut gval: int = 0;
    while i < n
        invariant
            i <= n,
            n == seg@.len(),
            forall|j: int| 0 <= j < i as int ==> is_digit(seg@[j]),
            gval == digits_val(seg@.take(i as int)),
            gval >= 0,
            !too_big ==> acc as int == gval,
            too_big ==> gval > u64::MAX as int,
        decreases n - i,
    {
        let c = seg.get_char(i);
        let d32 = c as u32;
        if d32 < 48 || d32 > 57 {
            return None;
        }
        let d = (d32 - 48) as u64;
        proof {
            assert(seg@.take(i as int + 1).drop_last() =~= seg@.take(i as int));
            assert(seg@.take(i as int + 1).last() == seg@[i as int]);
            gval = 10 * gval + d as int;
        }
        if too_big || acc > u64::MAX / 10 || (acc == u64::MAX / 10 && d > u64::MAX % 10) {
            proof {
                if !too_big {
                    assert(10 * (acc as int) + d as int > u64::MAX as int) by (nonlinear_arith)
                        requires
                            acc as int > u64::MAX as int / 10 || (acc as int == u64::MAX as int
                                / 10 && d as int > u64::MAX as int % 10),
                            0 <= d as int <= 9,
                    ;
                }
            }
            too_big = true;
        } else {
            proof {
                assert(acc as int * 10 + d as int <= u64::MAX as int) by (nonlinear_arith)
                    requires
                        acc as int <= u64::MAX as int / 10,
                        !(acc as int == u64::MAX as int / 10 && d as int > u64::MAX as int % 10),
                        0 <= d as int <= 9,
                ;
            }
            acc = acc * 10 + d;
        }
        i = i + 1;
    }
    proof {
        assert(seg@.take(n as int) =~= seg@);
    }
    if too_big {
        None
    } else {
        Some(acc)
    }
}

/// One path segment applied to a value.
fn step_into_exec<'a>(cur: &'a Value, seg: &str) -> (r: Option<&'a Value>)
    ensures
        (match r {
            Some(v) => step_into(cur.dv(), seg@) == Some(v.dv()),
            None => step_into(cur.dv(), seg@) is None,
        }),
{
    match cur {
        Value::Obj(es) => obj_field(es, seg),
        Value::Arr(es) => {
            let l = es.len() as u64;
            proof {
                lemma_dv_arr(es@);
            }
            match parse_index(seg) {
                Some(ix) => {
                    if ix < l {
                        Some(&es[ix as usize])
                    } else {
                        None
                    }
                },
                None => None,
            }
        },
        _ => None,
    }
}

/// Resolves a whole path to the value it names.
pub fn lookup<'a>(p: &str, ctx: &'a Store, resp: &'a Store) -> (r: Option<&'a Value>)
    ensures
        (match r {
            Some(v) => resolve_path(p@, Seq::empty(), *ctx, *resp) == Some(v.dv()),
            None => resolve_path(p@, Seq::empty(), *ctx, *resp) is None,
        }),
{
    let n = p.unicode_len();
    let mut seg = String::new();
    let mut i: usize = 0;
    proof {
        assert(p@.skip(0) =~= p@);
        assert(p@.take(0) =~= Seq::<char>::empty());
    }
    while i < n && p.get_char(i) != '.'
        invariant
            i <= n,
            n == p@.len(),
            seg@ == p@.take(i as int),
            resolve_path(p@, Seq::empty(), *ctx, *resp) == resolve_path(
                p@.skip(i as int),
                seg@,
                *ctx,
                *resp,
            ),
        decreases n - i,
    {
        proof {
            assert(p@.skip(i as int)[0] == p@[i as int]);
            assert(p@.skip(i as int).drop_first() =~= p@.skip(i as int + 1));
        }
        let ghost seg0 = seg@;
        seg.append(p.substring_char(i, i + 1));
        proof {
            assert(p@.subrange(i as int, i as int + 1) =~= seq![p@[i as int]]);
            assert(seg@ =~= seg0.push(p@[i as int]));
            assert(seg@ =~= p@.take(i as int + 1));
        }
        i = i + 1;
    }
    let rootv: Option<&Value> = match ctx.get(seg.as_str()) {
        Some(v) => Some(v),
        None => resp.get(seg.as_str()),
    };
    let mut cur: &Value = match rootv {
        Some(v) => v,
        None => {
            proof {
                if i < n {
                    assert(p@.skip(i as int)[0] == p@[i as int]);
                }
            }
            return None;
        },
    };
    if i == n {
        proof {
            assert(p@.skip(n as int) =~= Seq::<char>::empty());
        }
        return Some(cur);
    }
    proof {
        assert(p@.skip(i as int)[0] == p@[i as int]);
        assert(p@.skip(i as int).drop_first() =~= p@.skip(i as int + 1));
    }
    let mut i1 = i + 1;
    let mut seg2 = String::new();
    while i1 < n
        invariant
            i1 <= n,
            n == p@.len(),
            (match walk_segs(p@.skip(i1 as int), seg2@, cur.dv()) {
                Some(v2) => resolve_path(p@, Seq::empty(), *ctx, *resp) == Some(v2),
                None => resolve_path(p@, Seq::empty(), *ctx, *resp) is None,
            }),
        decreases n - i1,
    {
        let c = p.get_char(i1);
        proof {
            assert(p@.skip(i1 as int)[0] == p@[i1 as int]);
            assert(p@.skip(i1 as int).drop_first() =~= p@.skip(i1 as int + 1));
        }
        if c == '.' {
            match step_into_exec(cur, seg2.as_str()) {
                Some(v2) => {
                    cur = v2;
                },
                None => {
                    return None;
                },
            }
            seg2 = String::new();
        } else {
            let ghost s20 = seg2@;
            seg2.append(p.substring_char(i1, i1 + 1));
            proof {
                assert(p@.subrange(i1 as int, i1 as int + 1) =~= seq![p@[i1 as int]]);
                assert(seg2@ =~= s20.push(p@[i1 as int]));
            }
        }
        i1 = i1 + 1;
    }
    proof {
        assert(p@.skip(n as int) =~= Seq::<char>::empty());
    }
    step_into_exec(cur, seg2.as_str())
}

/// The text a scalar value renders as.
pub fn render(v: &Value) -> (r: Option<String>)
    ensures
        (match r {
            Some(s) => spec_render(v.dv()) == Some(s@),
            None => spec_render(v.dv()) is None,
        }),
{
    match v {
        Value::Str(s) => Some(s.clone()),
        Value::Num(s) => Some(s.clone()),
        Value::Bool(b) => if *b {
            Some("true".to_owned())
        } else {
            Some("false".to_owned())
        },
        _ => None,
    }
}

/// Resolves every `{...}` reference in `t` against the context and the
/// response table.  Fails as soon as one reference cannot be resolved to a
/// scalar, and the error carries that first offending reference.
pub fn resolve(t: &str, ctx: &Store, resp: &Store) -> (r: Result<String, InterpolationError>)
    ensures
        (match r {
            Ok(s) => scan(t@, *ctx, *resp) == Some(s@),
            Err(e) => scan(t@, *ctx, *resp) is None && e.reference@ == scan_fail(
                t@,
                *ctx,
                *resp,
            ),
        }),
{
    let n = t.unicode_len();
    let mut out = String::new();
    let mut i: usize = 0;
    proof {
        assert(t@.skip(0) =~= t@);
    }
    while i < n
        invariant
            i <= n,
            n == t@.len(),
            (match scan(t@.skip(i as int), *ctx, *resp) {
                Some(rr) => scan(t@, *ctx, *resp) == Some(out@ + rr),
                None => scan(t@, *ctx, *resp) is None && scan_fail(t@, *ctx, *resp) == scan_fail(
                    t@.skip(i as int),
                    *ctx,
                    *resp,
                ),
            }),
        decreases n - i,
    {
        let c = t.get_char(i);
        proof {
            assert(t@.skip(i as int)[0] == t@[i as int]);
            assert(t@.skip(i as int).drop_first() =~= t@.skip(i as int + 1));
        }
        if c == '{' {
            let mut p = String::new();
            let mut j = i + 1;
            while j < n && t.get_char(j) != '}'
                invariant
                    i < j <= n,
                    n == t@.len(),
                    (match scan_ref(t@.skip(j as int), p@, *ctx, *resp) {
                        Some(rr) => scan(t@, *ctx, *resp) == Some(out@ + rr),
                        None => scan(t@, *ctx, *resp) is None && scan_fail(t@, *ctx, *resp)
                            == scan_ref_fail(t@.skip(j as int), p@, *ctx, *resp),
                    }),
                decreases n - j,
            {
                proof {
                    assert(t@.skip(j as int)[0] == t@[j as int]);
                    assert(t@.skip(j as int).drop_first() =~= t@.skip(j as int + 1));
                }
                let ghost p0 = p@;
                p.append(t.substring_char(j, j + 1));
                proof {
                    assert(t@.subrange(j as int, j as int + 1) =~= seq![t@[j as int]]);
                    assert(p@ =~= p0.push(t@[j as int]));
                }
                j = j + 1;
            }
            if j == n {
                proof {
                    assert(t@.skip(n as int) =~= Seq::<char>::empty());
                }
                return Err(InterpolationError { reference: p });
            }
            proof {
                assert(t@.skip(j as int)[0] == t@[j as int]);
                assert(t@.skip(j as int).drop_first() =~= t@.skip(j as int + 1));
            }
            let resolved: Option<String> = match lookup(p.as_str(), ctx, resp) {
                Some(v) => render(v),
                None => None,
            };
            match resolved {
                Some(s) => {
                    proof {
                        match scan(t@.skip(j as int + 1), *ctx, *resp) {
                            Some(rr) => {
                                assert(out@ + (s@ + rr) =~= (out@ + s@) + rr);
                            },
                            None => {},
                        }
                    }
                    out.append(s.as_str());
                    i = j + 1;
                },
                None => {
                    return Err(InterpolationError { reference: p });
                },
            }
        } else {
            proof {
                match scan(t@.skip(i as int + 1), *ctx, *resp) {
                    Some(rr) => {
                        assert(out@ + (seq![t@[i as int]] + rr) =~= (out@ + seq![t@[i as int]])
                            + rr);
                    },
                    None => {},
                }
            }
            out.append(t.substring_char(i, i + 1));
            proof {
                assert(t@.subrange(i as int, i as int + 1) =~= seq![t@[i as int]]);
            }
            i = i + 1;
        }
    }
    proof {
        assert(t@.skip(n as int) =~= Seq::<char>::empty());
        assert(out@ + Seq::<char>::empty() =~= out@);
    }
    Ok(out)
}

} // verus!
