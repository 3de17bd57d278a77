//! JSON values, their mathematical model, and the object operations that the
//! schema inference uses (lookup, insertion, and taking a member out).
use vstd::prelude::*;

verus! {

/// A JSON number, as it is told apart by the schema inference.
#[derive(Clone, Copy, Debug, PartialEq, Eq, Structural)]
pub enum JsonNumber {
    /// A non-negative integer.
    PosInt(u64),
    /// A negative integer. (A value built with a non-negative one here is
    /// kept as given: it is told apart from the same number as `PosInt`.)
    NegInt(i64),
    /// A number with a fraction or an exponent, held as the bit pattern of its
    /// IEEE-754 double value (negative zero is written as positive zero).
    Float(u64),
}

/// A JSON value.
#[derive(Debug)]
pub enum JsonValue {
    Null,
    Bool(bool),
    Number(JsonNumber),
    String(String),
    Array(Vec<JsonValue>),
    /// The members of an object, in order.
    Object(Vec<(String, JsonValue)>),
}

/// The mathematical model of a JSON value.
pub enum JsonV {
    Null,
    Bool(bool),
    Number(JsonNumber),
    Str(Seq<char>),
    Array(Seq<JsonV>),
    Object(Seq<(Seq<char>, JsonV)>),
}

impl JsonValue {
    /// The model of this value.
    pub open spec fn model(self) -> JsonV
        decreases self,
    {
        match self {
            JsonValue::Null => JsonV::Null,
            JsonValue::Bool(b) => JsonV::Bool(b),
            JsonValue::Number(n) => JsonV::Number(n),
            JsonValue::String(s) => JsonV::Str(s@),
            JsonValue::Array(v) => JsonV::Array(JsonValue::elems_model(v)),
            JsonValue::Object(m) => JsonV::Object(JsonValue::members_model(m)),
        }
    }

    /// The models of the elements of an array.
    pub open spec fn elems_model(v: Vec<JsonValue>) -> Seq<JsonV>
        decreases v,
    {
        Seq::new(
            v.len() as nat,
            |i: int|
                if 0 <= i < v.len() {
                    proof {
                        broadcast use vstd::std_specs::vec::axiom_vec_index_decreases;

                    }
                    v[i].model()
                } else {
                    JsonV::Null
                },
        )
    }

    /// The models of the members of an object.
    pub open spec fn members_model(m: Vec<(String, JsonValue)>) -> Seq<(Seq<char>, JsonV)>
        decreases m,
    {
        Seq::new(
            m.len() as nat,
            |i: int|
                if 0 <= i < m.len() {
                    proof {
                        broadcast use vstd::std_specs::vec::axiom_vec_index_decreases;

                    }
                    (m[i].0@, m[i].1.model())
                } else {
                    (Seq::empty(), JsonV::Null)
                },
        )
    }
}

/// The position of the first entry of `s` whose first component is `k`, or -1.
pub open spec fn pos_of<K, V>(s: Seq<(K, V)>, k: K) -> int
    decreases s.len(),
{
    if s.len() == 0 {
        -1
    } else {
        let p = pos_of(s.drop_last(), k);
        if p >= 0 {
            p
        } else if s.last().0 == k {
            s.len() - 1
        } else {
            -1
        }
    }
}

/// `pos_of` finds the first entry with the key, and -1 only when there is none.
pub proof fn lemma_pos_of<K, V>(s: Seq<(K, V)>, k: K)
    ensures
        -1 <= pos_of(s, k) < s.len(),
        pos_of(s, k) >= 0 ==> s[pos_of(s, k)].0 == k,
        forall|j: int| 0 <= j < s.len() && (pos_of(s, k) == -1 || j < pos_of(s, k)) ==> s[j].0 != k,
    decreases s.len(),
{
    if s.len() > 0 {
        let t = s.drop_last();
        lemma_pos_of(t, k);
        assert forall|j: int| 0 <= j < s.len() && (pos_of(s, k) == -1 || j < pos_of(s, k)) implies s[j].0 != k by {
            if j < t.len() {
                assert(s[j] == t[j]);
            }
        }
    }
}

/// The first entry with the key `k` is at `i`.
pub proof fn lemma_pos_of_at<K, V>(s: Seq<(K, V)>, k: K, i: int)
    requires
        0 <= i < s.len(),
        s[i].0 == k,
        forall|j: int| 0 <= j < i ==> s[j].0 != k,
    ensures
        pos_of(s, k) == i,
{
    lemma_pos_of(s, k);
}

/// There is no entry with the key `k`.
pub proof fn lemma_pos_of_none<K, V>(s: Seq<(K, V)>, k: K)
    requires
        forall|j: int| 0 <= j < s.len() ==> s[j].0 != k,
    ensures
        pos_of(s, k) == -1,
{
    lemma_pos_of(s, k);
}

/// Replaces the value of the first member with key `k`, or appends the member.
pub open spec fn put<V>(ms: Seq<(Seq<char>, V)>, k: Seq<char>, x: V) -> Seq<(Seq<char>, V)> {
    let p = pos_of(ms, k);
    if p >= 0 {
        ms.update(p, (k, x))
    } else {
        ms.push((k, x))
    }
}

/// Whether a value is an object.
pub open spec fn is_object(v: JsonV) -> bool {
    v is Object
}

/// `v[k]`: the value of the member `k` of an object, `null` otherwise.
pub open spec fn jget(v: JsonV, k: Seq<char>) -> JsonV {
    match v {
        JsonV::Object(ms) => {
            let p = pos_of(ms, k);
            if p >= 0 {
                ms[p].1
            } else {
                JsonV::Null
            }
        },
        _ => JsonV::Null,
    }
}

/// `v[k] = x`: sets the member `k` of an object; any other value is first
/// made an empty object.
pub open spec fn jset(v: JsonV, k: Seq<char>, x: JsonV) -> JsonV {
    match v {
        JsonV::Object(ms) => JsonV::Object(put(ms, k, x)),
        _ => JsonV::Object(seq![(k, x)]),
    }
}

/// Setting a member twice keeps the second value.
pub proof fn lemma_jset_jset(v: JsonV, k: Seq<char>, x: JsonV, y: JsonV)
    ensures
        jset(jset(v, k, x), k, y) == jset(v, k, y),
{
    match v {
        JsonV::Object(ms) => {
            lemma_pos_of(ms, k);
            let p = pos_of(ms, k);
            if p >= 0 {
                let ms1 = ms.update(p, (k, x));
                assert forall|j: int| 0 <= j < p implies ms1[j].0 != k by {}
                lemma_pos_of_at(ms1, k, p);
                assert(ms1.update(p, (k, y)) =~= ms.update(p, (k, y)));
            } else {
                let ms1 = ms.push((k, x));
                assert forall|j: int| 0 <= j < ms.len() implies ms1[j].0 != k by {}
                lemma_pos_of_at(ms1, k, ms.len() as int);
                assert(ms1.update(ms.len() as int, (k, y)) =~= ms.push((k, y)));
            }
        },
        _ => {
            let ms1 = seq![(k, x)];
            lemma_pos_of_at(ms1, k, 0);
            assert(ms1.update(0, (k, y)) =~= seq![(k, y)]);
        },
    }
}

/// After setting a member, reading it gives the value set.
pub proof fn lemma_jget_jset(v: JsonV, k: Seq<char>, x: JsonV)
    ensures
        jget(jset(v, k, x), k) == x,
{
    match v {
        JsonV::Object(ms) => {
            lemma_pos_of(ms, k);
            let p = pos_of(ms, k);
            if p >= 0 {
                let ms1 = ms.update(p, (k, x));
                assert forall|j: int| 0 <= j < p implies ms1[j].0 != k by {}
                lemma_pos_of_at(ms1, k, p);
            } else {
                let ms1 = ms.push((k, x));
                assert forall|j: int| 0 <= j < ms.len() implies ms1[j].0 != k by {}
                lemma_pos_of_at(ms1, k, ms.len() as int);
            }
        },
        _ => {
            lemma_pos_of_at(seq![(k, x)], k, 0);
        },
    }
}

/// Setting a member leaves the other members as they were.
pub proof fn lemma_jget_jset_other(v: JsonV, k: Seq<char>, x: JsonV, k2: Seq<char>)
    requires
        k2 != k,
        v is Object,
    ensures
        jget(jset(v, k, x), k2) == jget(v, k2),
{
    let ms = v->Object_0;
    lemma_pos_of(ms, k);
    lemma_pos_of(ms, k2);
    let p = pos_of(ms, k);
    let ms1 = put(ms, k, x);
    lemma_pos_of(ms1, k2);
    let q = pos_of(ms, k2);
    if q >= 0 {
        assert forall|j: int| 0 <= j < q implies ms1[j].0 != k2 by {}
        lemma_pos_of_at(ms1, k2, q);
    } else {
        assert forall|j: int| 0 <= j < ms1.len() implies ms1[j].0 != k2 by {}
        lemma_pos_of_none(ms1, k2);
    }
}

/// The model of a list of members, as `members_model` computes it.
pub proof fn lemma_members_model_index(m: Vec<(String, JsonValue)>, i: int)
    requires
        0 <= i < m.len(),
    ensures
        JsonValue::members_model(m)[i] == (m[i].0@, m[i].1.model()),
        JsonValue::members_model(m).len() == m.len(),
{
}

/// Finds the first member of `ms` with key `k`.
pub fn find_member(ms: &Vec<(String, JsonValue)>, k: &String) -> (r: Option<usize>)
    ensures
        r matches Some(i) ==> i < ms.len() && pos_of(JsonValue::members_model(*ms), k@) == i,
        r is None ==> pos_of(JsonValue::members_model(*ms), k@) == -1,
{
    let ghost mm = JsonValue::members_model(*ms);
    let mut i: usize = 0;
    while i < ms.len()
        invariant
            i <= ms.len(),
            mm == JsonValue::members_model(*ms),
            mm.len() == ms.len(),
            forall|j: int| 0 <= j < i ==> mm[j].0 != k@,
        decreases ms.len() - i,
    {
        if ms[i].0 == *k {
            proof {
                lemma_pos_of_at(mm, k@, i as int);
            }
            return Some(i);
        }
        i = i + 1;
    }
    proof {
        lemma_pos_of_none(mm, k@);
    }
    None
}

/// `v[k] = x`, on an owned value.
pub fn set_member(v: JsonValue, k: String, x: JsonValue) -> (r: JsonValue)
    ensures
        r.model() == jset(v.model(), k@, x.model()),
{
    match v {
        JsonValue::Object(mut ms) => {
            let ghost mm = JsonValue::members_model(ms);
            let ghost km = k@;
            let ghost xm = x.model();
            match find_member(&ms, &k) {
                Some(i) => {
                    ms.set(i, (k, x));
                    assert(JsonValue::members_model(ms) =~= mm.update(i as int, (km, xm)));
                },
                None => {
                    ms.push((k, x));
                    assert(JsonValue::members_model(ms) =~= mm.push((km, xm)));
                },
            }
            JsonValue::Object(ms)
        },
        _ => {
            let ghost km = k@;
            let ghost xm = x.model();
            let ms = vec![(k, x)];
            assert(JsonValue::members_model(ms) =~= seq![(km, xm)]);
            JsonValue::Object(ms)
        },
    }
}

/// Takes the member `k` out of `v`, leaving `null` in its place: gives
/// `(v` with `v[k] = null`, the old `v[k])`.
pub fn take_member(v: JsonValue, k: &String) -> (r: (JsonValue, JsonValue))
    ensures
        r.0.model() == jset(v.model(), k@, JsonV::Null),
        r.1.model() == jget(v.model(), k@),
{
    match v {
        JsonValue::Object(mut ms) => {
            let ghost mm = JsonValue::members_model(ms);
            proof {
                lemma_pos_of(mm, k@);
            }
            match find_member(&ms, k) {
                Some(i) => {
                    let (kk, val) = ms.remove(i);
                    ms.insert(i, (kk, JsonValue::Null));
                    assert(JsonValue::members_model(ms) =~= mm.update(i as int, (k@, JsonV::Null)));
                    (JsonValue::Object(ms), val)
                },
                None => {
                    ms.push((k.clone(), JsonValue::Null));
                    assert(JsonValue::members_model(ms) =~= mm.push((k@, JsonV::Null)));
                    (JsonValue::Object(ms), JsonValue::Null)
                },
            }
        },
        _ => {
            let ms = vec![(k.clone(), JsonValue::Null)];
            assert(JsonValue::members_model(ms) =~= seq![(k@, JsonV::Null)]);
            (JsonValue::Object(ms), JsonValue::Null)
        },
    }
}

/// Whether `v[k]` is an object.
pub fn member_is_object(v: &JsonValue, k: &String) -> (r: bool)
    ensures
        r == is_object(jget(v.model(), k@)),
{
    match v {
        JsonValue::Object(ms) => {
            proof {
                lemma_pos_of(JsonValue::members_model(*ms), k@);
            }
            match find_member(ms, k) {
                Some(i) => {
                    proof {
                        lemma_members_model_index(*ms, i as int);
                    }
                    match &ms[i].1 {
                        JsonValue::Object(_) => true,
                        _ => false,
                    }
                },
                None => false,
            }
        },
        _ => false,
    }
}

/// A copy of a JSON value.
#[verifier::loop_isolation(false)]
pub fn copy_json(j: &JsonValue) -> (r: JsonValue)
    ensures
        r.model() == j.model(),
    decreases j,
{
    match j {
        JsonValue::Null => JsonValue::Null,
        JsonValue::Bool(b) => JsonValue::Bool(*b),
        JsonValue::Number(n) => JsonValue::Number(*n),
        JsonValue::String(s) => JsonValue::String(s.clone()),
        JsonValue::Array(v) => {
            let mut out: Vec<JsonValue> = Vec::new();
            let mut i: usize = 0;
            while i < v.len()
                invariant
                    i <= v.len(),
                    out.len() == i,
                    forall|t: int| 0 <= t < i ==> #[trigger] out[t].model() == v[t].model(),
                decreases v.len() - i,
            {
                proof {
                    broadcast use vstd::std_specs::vec::axiom_vec_index_decreases;
                    assert(decreases_to!(*j => *v));
                }
                let c = copy_json(&v[i]);
                out.push(c);
                i = i + 1;
            }
            assert forall|t: int| 0 <= t < v.len() implies JsonValue::elems_model(out)[t] == JsonValue::elems_model(*v)[t] by {
                assert(out[t].model() == v[t].model());
            }
            assert(JsonValue::elems_model(out) =~= JsonValue::elems_model(*v));
            JsonValue::Array(out)
        },
        JsonValue::Object(ms) => {
            let mut out: Vec<(String, JsonValue)> = Vec::new();
            let mut i: usize = 0;
            while i < ms.len()
                invariant
                    i <= ms.len(),
                    out.len() == i,
                    forall|t: int| 0 <= t < i ==> #[trigger] out[t].0@ == ms[t].0@ && out[t].1.model() == ms[t].1.model(),
                decreases ms.len() - i,
            {
                proof {
                    broadcast use vstd::std_specs::vec::axiom_vec_index_decreases;
                    assert(decreases_to!(*j => *ms));
                }
                let c = copy_json(&ms[i].1);
                out.push((ms[i].0.clone(), c));
                i = i + 1;
            }
            assert(JsonValue::members_model(out) =~= JsonValue::members_model(*ms));
            JsonValue::Object(out)
        },
    }
}

/// Whether two JSON values are equal.
#[verifier::loop_isolation(false)]
pub fn json_equal(a: &JsonValue, b: &JsonValue) -> (r: bool)
    ensures
        r == (a.model() == b.model()),
    decreases a,
{
    match (a, b) {
        (JsonValue::Null, JsonValue::Null) => true,
        (JsonValue::Bool(x), JsonValue::Bool(y)) => *x == *y,
        (JsonValue::Number(x), JsonValue::Number(y)) => *x == *y,
        (JsonValue::String(x), JsonValue::String(y)) => *x == *y,
        (JsonValue::Array(x), JsonValue::Array(y)) => {
            let ghost xm = JsonValue::elems_model(*x);
            let ghost ym = JsonValue::elems_model(*y);
            if x.len() != y.len() {
                assert(xm.len() != ym.len());
                return false;
            }
            let mut i: usize = 0;
            while i < x.len()
                invariant
                    i <= x.len(),
                    x.len() == y.len(),
                    xm == JsonValue::elems_model(*x),
                    ym == JsonValue::elems_model(*y),
                    forall|t: int| 0 <= t < i ==> xm[t] == ym[t],
                decreases x.len() - i,
            {
                proof {
                    broadcast use vstd::std_specs::vec::axiom_vec_index_decreases;
                    assert(decreases_to!(*a => *x));
                }
                if !json_equal(&x[i], &y[i]) {
                    assert(xm[i as int] != ym[i as int]);
                    return false;
                }
                i = i + 1;
            }
            assert(xm =~= ym);
            true
        },
        (JsonValue::Object(x), JsonValue::Object(y)) => {
            let ghost xm = JsonValue::members_model(*x);
            let ghost ym = JsonValue::members_model(*y);
            if x.len() != y.len() {
                assert(xm.len() != ym.len());
                return false;
            }
            let mut i: usize = 0;
            while i < x.len()
                invariant
                    i <= x.len(),
                    x.len() == y.len(),
                    xm == JsonValue::members_model(*x),
                    ym == JsonValue::members_model(*y),
                    forall|t: int| 0 <= t < i ==> xm[t] == ym[t],
                decreases x.len() - i,
            {
                proof {
                    broadcast use vstd::std_specs::vec::axiom_vec_index_decreases;
                    assert(decreases_to!(*a => *x));
                }
                if x[i].0 != y[i].0 {
                    assert(xm[i as int].0 != ym[i as int].0);
                    return false;
                }
                if !json_equal(&x[i].1, &y[i].1) {
                    assert(xm[i as int].1 != ym[i as int].1);
                    return false;
                }
                i = i + 1;
            }
            assert(xm =~= ym);
            true
        },
        _ => false,
    }
}

} // verus!
