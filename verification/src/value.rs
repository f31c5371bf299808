//! Dynamically typed configuration / data values.
//!
//! Scenario configuration, the variable context, captured response bodies and
//! parsed JSON all share one small tagged-union value model: null, boolean,
//! number, string, sequence, mapping.  Numbers keep their literal spelling,
//! which is all the rest of the system ever needs of them (templates splice
//! them back into text verbatim).

use vstd::prelude::*;

verus! {

/// A dynamically typed value, as it appears in step configuration, in the
/// variable context, and in captured response bodies.
#[derive(Debug)]
pub enum Value {
    Null,
    Bool(bool),
    /// A number, kept as its literal text (e.g. `"42"`, `"-1.5e3"`).
    Num(String),
    Str(String),
    Arr(Vec<Value>),
    Obj(Vec<(String, Value)>),
}

/// The mathematical model of a [`Value`]: the same tree over `Seq<char>`.
pub enum JsonV {
    Null,
    Bool(bool),
    Num(Seq<char>),
    Str(Seq<char>),
    Arr(Seq<JsonV>),
    Obj(Seq<(Seq<char>, JsonV)>),
}

/// Model of a sequence of object entries.
pub open spec fn dv_obj(es: Seq<(String, Value)>) -> Seq<(Seq<char>, JsonV)>
    decreases es,
{
    if es.len() == 0 {
        Seq::empty()
    } else {
        seq![(es[0].0@, es[0].1.dv())] + dv_obj(es.drop_first())
    }
}

/// Model of a sequence of array elements.
pub open spec fn dv_arr(es: Seq<Value>) -> Seq<JsonV>
    decreases es,
{
    if es.len() == 0 {
        Seq::empty()
    } else {
        seq![es[0].dv()] + dv_arr(es.drop_first())
    }
}

/// `dv_arr` maps the model element-wise.
pub broadcast proof fn lemma_dv_arr(es: Seq<Value>)
    ensures
        (#[trigger] dv_arr(es)).len() == es.len(),
        forall|i: int| 0 <= i < es.len() ==> #[trigger] dv_arr(es)[i] == es[i].dv(),
    decreases es.len(),
{
    if es.len() > 0 {
        lemma_dv_arr(es.drop_first());
    }
}

/// `dv_obj` maps the model element-wise.
pub broadcast proof fn lemma_dv_obj(es: Seq<(String, Value)>)
    ensures
        (#[trigger] dv_obj(es)).len() == es.len(),
        forall|i: int| 0 <= i < es.len() ==> #[trigger] dv_obj(es)[i] == (es[i].0@, es[i].1.dv()),
    decreases es.len(),
{
    if es.len() > 0 {
        lemma_dv_obj(es.drop_first());
    }
}

impl Value {
    /// The mathematical model of this value.
    pub open spec fn dv(self) -> JsonV
        decreases self,
    {
        match self {
            Value::Null => JsonV::Null,
            Value::Bool(b) => JsonV::Bool(b),
            Value::Num(s) => JsonV::Num(s@),
            Value::Str(s) => JsonV::Str(s@),
            Value::Arr(es) => JsonV::Arr(dv_arr(es@)),
            Value::Obj(es) => JsonV::Obj(dv_obj(es@)),
        }
    }
}

/// First entry of `es` whose key is `k`, if any.
pub open spec fn obj_get(es: Seq<(Seq<char>, JsonV)>, k: Seq<char>) -> Option<JsonV>
    decreases es.len(),
{
    if es.len() == 0 {
        None
    } else if es[0].0 == k {
        Some(es[0].1)
    } else {
        obj_get(es.drop_first(), k)
    }
}

/// While the first `i` keys all differ from `k`, the lookup result is decided
/// by the remaining entries alone.
pub proof fn lemma_obj_get_skip(es: Seq<(Seq<char>, JsonV)>, k: Seq<char>, i: int)
    requires
        0 <= i <= es.len(),
        forall|j: int| 0 <= j < i ==> es[j].0 != k,
    ensures
        obj_get(es, k) == obj_get(es.skip(i), k),
    decreases i,
{
    if i == 0 {
        assert(es.skip(0) =~= es);
    } else {
        assert(es[0].0 != k);
        lemma_obj_get_skip(es.drop_first(), k, i - 1);
        assert(es.drop_first().skip(i - 1) =~= es.skip(i));
    }
}

/// Relies on `String::push`: appends exactly one character.
#[verifier::external_body]
pub(crate) fn push_char(s: &mut String, c: char)
    ensures
        final(s)@ == old(s)@.push(c),
{
    s.push(c);
}

/// Character-wise string equality.
pub fn str_eq(a: &str, b: &str) -> (r: bool)
    ensures
        r == (a@ == b@),
{
    let na = a.unicode_len();
    let nb = b.unicode_len();
    if na != nb {
        return false;
    }
    let mut i: usize = 0;
    while i < na
        invariant
            i <= na,
            na == a@.len(),
            nb == b@.len(),
            na == nb,
            forall|j: int| 0 <= j < i as int ==> a@[j] == b@[j],
        decreases na - i,
    {
        if a.get_char(i) != b.get_char(i) {
            return false;
        }
        i = i + 1;
    }
    proof {
        assert(a@ =~= b@);
    }
    true
}

/// First value in `es` stored under key `k`, if any.
pub fn obj_field<'a>(es: &'a Vec<(String, Value)>, k: &str) -> (r: Option<&'a Value>)
    ensures
        (match r {
            Some(v) => obj_get(dv_obj(es@), k@) == Some(v.dv()),
            None => obj_get(dv_obj(es@), k@) is None,
        }),
{
    let n = es.len();
    let mut i: usize = 0;
    while i < n
        invariant
            i <= n,
            n == es@.len(),
            forall|j: int| 0 <= j < i as int ==> dv_obj(es@)[j].0 != k@,
        decreases n - i,
    {
        if str_eq(es[i].0.as_str(), k) {
            proof {
                lemma_dv_obj(es@);
                lemma_obj_get_skip(dv_obj(es@), k@, i as int);
                assert(dv_obj(es@).skip(i as int)[0] == dv_obj(es@)[i as int]);
            }
            return Some(&es[i].1);
        }
        proof {
            lemma_dv_obj(es@);
            assert(dv_obj(es@)[i as int].0 == es@[i as int].0@);
        }
        i = i + 1;
    }
    proof {
        lemma_dv_obj(es@);
        lemma_obj_get_skip(dv_obj(es@), k@, n as int);
        assert(dv_obj(es@).skip(n as int) =~= Seq::<(Seq<char>, JsonV)>::empty());
    }
    None
}

impl Clone for Value {
    /// A structural copy; the model is preserved.
    #[verifier::loop_isolation(false)]
    fn clone(&self) -> (r: Self)
        ensures
            r.dv() == self.dv(),
        decreases self,
    {
        match self {
            Value::Null => Value::Null,
            Value::Bool(b) => Value::Bool(*b),
            Value::Num(s) => Value::Num(s.clone()),
            Value::Str(s) => Value::Str(s.clone()),
            Value::Arr(es) => {
                let n = es.len();
                let mut out: Vec<Value> = Vec::new();
                let mut i: usize = 0;
                while i < n
                    invariant
                        i <= n,
                        n == es@.len(),
                        out@.len() == i as int,
                        forall|j: int| 0 <= j < i as int ==> out@[j].dv() == es@[j].dv(),
                    decreases n - i,
                {
                    proof {
                        assert(decreases_to!(*self => *es));
                        assert(decreases_to!(*es => es@));
                        assert(decreases_to!(es@ => es@[i as int]));
                        assert(decreases_to!(*self => es@[i as int]));
                    }
                    out.push(es[i].clone());
                    i = i + 1;
                }
                proof {
                    lemma_dv_arr(out@);
                    lemma_dv_arr(es@);
                    assert(dv_arr(out@) =~= dv_arr(es@));
                }
                Value::Arr(out)
            },
            Value::Obj(es) => {
                let n = es.len();
                let mut out: Vec<(String, Value)> = Vec::new();
                let mut i: usize = 0;
                while i < n
                    invariant
                        i <= n,
                        n == es@.len(),
                        out@.len() == i as int,
                        forall|j: int| 0 <= j < i as int ==> out@[j].0@ == es@[j].0@
                            && out@[j].1.dv() == es@[j].1.dv(),
                    decreases n - i,
                {
                    proof {
                        assert(decreases_to!(*self => es@[i as int].1));
                    }
                    out.push((es[i].0.clone(), es[i].1.clone()));
                    i = i + 1;
                }
                proof {
                    lemma_dv_obj(out@);
                    lemma_dv_obj(es@);
                    assert(dv_obj(out@) =~= dv_obj(es@));
                }
                Value::Obj(out)
            },
        }
    }
}

} // verus!
