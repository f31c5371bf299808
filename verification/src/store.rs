//! Scenario-lifetime key/value stores.
//!
//! Two of these live for a whole scenario run: the variable context (loop
//! items, session tokens, user variables) and the response table (bodies
//! captured by earlier steps under an assignment key).  Keys are unique;
//! inserting under an existing key overwrites its value, and no key is ever
//! removed.

use vstd::prelude::*;

use crate::value::{dv_obj, obj_get, obj_field, str_eq, JsonV, Value};

verus! {

/// A mutable mapping from names to [`Value`]s, with unique keys.
pub struct Store {
    entries: Vec<(String, Value)>,
}

/// `obj_get` after overwriting the value stored under an existing key `k`.
proof fn lemma_obj_get_update(
    s: Seq<(Seq<char>, JsonV)>,
    i: int,
    k: Seq<char>,
    v: JsonV,
    q: Seq<char>,
)
    requires
        0 <= i < s.len(),
        s[i].0 == k,
        forall|j: int| 0 <= j < i ==> s[j].0 != k,
    ensures
        obj_get(s.update(i, (k, v)), q) == (if q == k {
            Some(v)
        } else {
            obj_get(s, q)
        }),
    decreases i,
{
    let s2 = s.update(i, (k, v));
    if i == 0 {
        assert(s2.drop_first() =~= s.drop_first());
    } else {
        assert(s2[0] == s[0]);
        if s[0].0 != q {
            assert(s2.drop_first() =~= s.drop_first().update(i - 1, (k, v)));
            lemma_obj_get_update(s.drop_first(), i - 1, k, v, q);
        }
    }
}

/// `obj_get` after appending a key that is not yet present.
proof fn lemma_obj_get_push(s: Seq<(Seq<char>, JsonV)>, k: Seq<char>, v: JsonV, q: Seq<char>)
    requires
        forall|j: int| 0 <= j < s.len() ==> s[j].0 != k,
    ensures
        obj_get(s.push((k, v)), q) == (if q == k {
            Some(v)
        } else {
            obj_get(s, q)
        }),
    decreases s.len(),
{
    let s2 = s.push((k, v));
    if s.len() == 0 {
        assert(s2.len() == 1 && s2[0] == (k, v));
        assert(s2.drop_first() =~= Seq::<(Seq<char>, JsonV)>::empty());
    } else {
        assert(s2[0] == s[0]);
        if s[0].0 == q {
            assert(q != k);
        } else {
            assert(s2.drop_first() =~= s.drop_first().push((k, v)));
            lemma_obj_get_push(s.drop_first(), k, v, q);
        }
    }
}

impl Store {
    /// Keys are unique: at most one entry per name.  Established by [`Store::new`]
    /// and preserved by [`Store::insert`], so it holds of every store that this
    /// crate ever hands out.
    pub closed spec fn wf(self) -> bool {
        forall|i: int, j: int|
            0 <= i < j < self.entries@.len() ==> self.entries@[i].0@ != self.entries@[j].0@
    }

    /// The value stored under `k`, as its mathematical model.
    pub closed spec fn spec_get(self, k: Seq<char>) -> Option<JsonV> {
        obj_get(dv_obj(self.entries@), k)
    }

    /// An empty store.
    pub fn new() -> (r: Store)
        ensures
            r.wf(),
            forall|k: Seq<char>| r.spec_get(k) is None,
    {
        let r = Store { entries: Vec::new() };
        proof {
            assert(dv_obj(r.entries@) =~= Seq::<(Seq<char>, JsonV)>::empty());
        }
        r
    }

    /// Looks `k` up.
    pub fn get<'a>(&'a self, k: &str) -> (r: Option<&'a Value>)
        ensures
            (match r {
                Some(v) => self.spec_get(k@) == Some(v.dv()),
                None => self.spec_get(k@) is None,
            }),
    {
        obj_field(&self.entries, k)
    }

    /// Stores `v` under `k`, overwriting any earlier value.
    pub fn insert(&mut self, k: String, v: Value)
        requires
            old(self).wf(),
        ensures
            final(self).wf(),
            forall|q: Seq<char>|
                #![auto]
                final(self).spec_get(q) == (if q == k@ {
                    Some(v.dv())
                } else {
                    old(self).spec_get(q)
                }),
    {
        let ghost s0 = self.entries@;
        let n = self.entries.len();
        let mut i: usize = 0;
        while i < n
            invariant
                i <= n,
                n == self.entries@.len(),
                self.entries@ == s0,
                s0 == old(self).entries@,
                self.wf(),
                forall|j: int| 0 <= j < i as int ==> self.entries@[j].0@ != k@,
            decreases n - i,
        {
            if str_eq(self.entries[i].0.as_str(), k.as_str()) {
                let ghost kv = (k@, v.dv());
                assert(s0[i as int].0@ == k@);
                self.entries.set(i, (k, v));
                proof {
                    assert forall|a: int|
                        0 <= a < self.entries@.len() implies self.entries@[a].0@ == s0[a].0@ by {
                    }
                    assert(self.wf());
                    crate::value::lemma_dv_obj(s0);
                    crate::value::lemma_dv_obj(self.entries@);
                    assert(dv_obj(self.entries@) =~= dv_obj(s0).update(i as int, kv));
                    assert forall|q: Seq<char>|
                        #![auto]
                        self.spec_get(q) == (if q == k@ {
                            Some(v.dv())
                        } else {
                            old(self).spec_get(q)
                        }) by {
                        lemma_obj_get_update(dv_obj(s0), i as int, k@, v.dv(), q);
                    }
                }
                return ;
            }
            i = i + 1;
        }
        let ghost kv = (k@, v.dv());
        self.entries.push((k, v));
        proof {
            assert(self.wf());
            crate::value::lemma_dv_obj(s0);
            crate::value::lemma_dv_obj(self.entries@);
            assert(dv_obj(self.entries@) =~= dv_obj(s0).push(kv));
            assert forall|q: Seq<char>|
                #![auto]
                self.spec_get(q) == (if q == k@ {
                    Some(v.dv())
                } else {
                    old(self).spec_get(q)
                }) by {
                lemma_obj_get_push(dv_obj(s0), k@, v.dv(), q);
            }
        }
    }
}

} // verus!
