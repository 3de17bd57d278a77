//! The schemas inferred hold no number with a fraction, so each converts one
//! for one into a `serde_json` value.
use vstd::prelude::*;

use crate::json::{jget, jset, lemma_pos_of, pos_of, put, JsonV};
use crate::objects::is_static_key;
use crate::schema::{
    array_node, basic_schema, defs_step, enum_def, keep_static, leaf, level, nav, object_node,
    step, str_values, string_values, sweep, type_names, with_dynamic, with_type,
    inferred_schema, has_defs, split_dot,
};
use crate::sniffer::{CountsV, StoreV};

verus! {

/// The value holds no number with a fraction or an exponent.
pub open spec fn float_free(v: JsonV) -> bool
    decreases v, 1nat, 0nat,
{
    match v {
        JsonV::Number(n) => !(n is Float),
        JsonV::Array(es) => elems_float_free(v, es.len()),
        JsonV::Object(ms) => members_float_free(v, ms.len()),
        _ => true,
    }
}

/// The first `n` elements of the array `v` are free of such numbers.
pub open spec fn elems_float_free(v: JsonV, n: nat) -> bool
    decreases v, 0nat, n,
{
    match v {
        JsonV::Array(es) => n == 0 || n > es.len() || (elems_float_free(v, (n - 1) as nat)
            && float_free(es[n - 1])),
        _ => true,
    }
}

/// The first `n` members of the object `v` are free of such numbers.
pub open spec fn members_float_free(v: JsonV, n: nat) -> bool
    decreases v, 0nat, n,
{
    match v {
        JsonV::Object(ms) => n == 0 || n > ms.len() || (members_float_free(v, (n - 1) as nat)
            && float_free(ms[n - 1].1)),
        _ => true,
    }
}


/// `float_free` of an array, element by element.
pub proof fn lemma_float_free_array(es: Seq<JsonV>)
    ensures
        float_free(JsonV::Array(es)) <==> forall|i: int| 0 <= i < es.len() ==> float_free(#[trigger] es[i]),
{
    lemma_elems_prefix(JsonV::Array(es), es.len());
}

proof fn lemma_elems_prefix(v: JsonV, n: nat)
    requires
        v is Array,
        n <= v->Array_0.len(),
    ensures
        elems_float_free(v, n) <==> forall|i: int| 0 <= i < n ==> float_free(#[trigger] v->Array_0[i]),
    decreases n,
{
    if n > 0 {
        lemma_elems_prefix(v, (n - 1) as nat);
    }
}

/// `float_free` of an object, member by member.
pub proof fn lemma_float_free_object(ms: Seq<(Seq<char>, JsonV)>)
    ensures
        float_free(JsonV::Object(ms)) <==> forall|i: int| 0 <= i < ms.len() ==> float_free(#[trigger] ms[i].1),
{
    lemma_members_prefix(JsonV::Object(ms), ms.len());
}

proof fn lemma_members_prefix(v: JsonV, n: nat)
    requires
        v is Object,
        n <= v->Object_0.len(),
    ensures
        members_float_free(v, n) <==> forall|i: int| 0 <= i < n ==> float_free(#[trigger] v->Object_0[i].1),
    decreases n,
{
    if n > 0 {
        lemma_members_prefix(v, (n - 1) as nat);
    }
}

/// Reading a member keeps values free of numbers with fractions.
pub proof fn lemma_ff_get(v: JsonV, k: Seq<char>)
    requires
        float_free(v),
    ensures
        float_free(jget(v, k)),
{
    if let JsonV::Object(ms) = v {
        lemma_float_free_object(ms);
        lemma_pos_of(ms, k);
    }
}

/// Setting a member keeps values free of numbers with fractions.
pub proof fn lemma_ff_set(v: JsonV, k: Seq<char>, x: JsonV)
    requires
        float_free(v),
        float_free(x),
    ensures
        float_free(jset(v, k, x)),
{
    match v {
        JsonV::Object(ms) => {
            lemma_float_free_object(ms);
            lemma_pos_of(ms, k);
            let ms2 = put(ms, k, x);
            assert forall|i: int| 0 <= i < ms2.len() implies float_free(#[trigger] ms2[i].1) by {
                if pos_of(ms, k) < 0 && i == ms.len() {
                } else if i != pos_of(ms, k) {
                    assert(ms2[i] == ms[i]);
                }
            }
            lemma_float_free_object(ms2);
        },
        _ => {
            let ms2 = seq![(k, x)];
            assert forall|i: int| 0 <= i < ms2.len() implies float_free(#[trigger] ms2[i].1) by {}
            lemma_float_free_object(ms2);
        },
    }
}

/// Strings only.
proof fn lemma_ff_strs(names: Seq<Seq<char>>)
    ensures
        float_free(JsonV::Array(str_values(names))),
{
    let es = str_values(names);
    assert forall|i: int| 0 <= i < es.len() implies float_free(#[trigger] es[i]) by {}
    lemma_float_free_array(es);
}

/// The strings of the counts are strings.
proof fn lemma_ff_enum_def(cs: CountsV)
    ensures
        float_free(enum_def(cs)),
{
    let f = |e: (JsonV, nat)| e.0 is Str;
    let filtered = cs.filter(f);
    let es = string_values(cs);
    assert forall|i: int| 0 <= i < es.len() implies float_free(#[trigger] es[i]) by {
        cs.lemma_filter_pred(f, i);
        assert(es[i] == filtered[i].0);
    }
    lemma_float_free_array(es);
    let ms = enum_def(cs)->Object_0;
    assert forall|i: int| 0 <= i < ms.len() implies float_free(#[trigger] ms[i].1) by {}
    lemma_float_free_object(ms);
}

/// Keeping some members keeps values free of numbers with fractions.
proof fn lemma_ff_keep(ps: Seq<(Seq<char>, JsonV)>, cs: CountsV)
    requires
        float_free(JsonV::Object(ps)),
    ensures
        float_free(JsonV::Object(keep_static(ps, cs))),
{
    let f = |m: (Seq<char>, JsonV)| is_static_key(cs, m.0);
    lemma_float_free_object(ps);
    let kept = ps.filter(f);
    assert forall|i: int| 0 <= i < kept.len() implies float_free(#[trigger] kept[i].1) by {
        assert(kept.contains(kept[i]));
        ps.lemma_filter_contains_rev(f, kept[i]);
        let j = choose|j: int| 0 <= j < ps.len() && ps[j] == kept[i];
        assert(float_free(ps[j].1));
    }
    lemma_float_free_object(kept);
}

/// The node of a path stays free of numbers with fractions.
pub proof fn lemma_ff_leaf(node: JsonV, path: Seq<char>, cs: CountsV)
    requires
        float_free(node),
    ensures
        float_free(leaf(node, path, cs)),
{
    let ts = type_names(cs);
    if ts.len() == 1 {
        lemma_ff_set(node, crate::schema::kw_type(), JsonV::Str(ts[0]));
    } else if ts.len() > 1 {
        lemma_ff_strs(ts);
        lemma_ff_set(node, crate::schema::kw_type(), JsonV::Array(str_values(ts)));
    }
    let n0 = with_type(node, cs);
    if crate::schema::has_type(cs, crate::schema::FieldType::Object) && crate::objects::has_dynamic_keys(cs) && n0 is Object {
        lemma_ff_get(n0, crate::schema::kw_properties());
        let n1 = match jget(n0, crate::schema::kw_properties()) {
            JsonV::Object(ps) => {
                lemma_ff_keep(ps, cs);
                lemma_ff_set(n0, crate::schema::kw_properties(), JsonV::Object(keep_static(ps, cs)));
                jset(n0, crate::schema::kw_properties(), JsonV::Object(keep_static(ps, cs)))
            },
            _ => n0,
        };
        lemma_ff_set(n1, crate::schema::kw_additional(), JsonV::Bool(true));
    }
    let n = with_dynamic(n0, cs);
    lemma_ff_set(n, crate::schema::kw_ref(), JsonV::Str(crate::schema::enum_ref(path)));
}

proof fn lemma_ff_array_node()
    ensures
        float_free(array_node()),
        float_free(object_node()),
        float_free(JsonV::Object(seq![])),
        float_free(basic_schema()),
{
    let o = object_node()->Object_0;
    assert forall|i: int| 0 <= i < o.len() implies float_free(#[trigger] o[i].1) by {}
    lemma_float_free_object(o);
    let a = array_node()->Object_0;
    assert forall|i: int| 0 <= i < a.len() implies float_free(#[trigger] a[i].1) by {}
    lemma_float_free_object(a);
    lemma_float_free_object(seq![]);
    let b = basic_schema()->Object_0;
    assert forall|i: int| 0 <= i < b.len() implies float_free(#[trigger] b[i].1) by {}
    lemma_float_free_object(b);
}

/// Walking down and updating keeps values free of numbers with fractions.
pub proof fn lemma_ff_nav(node: JsonV, parts: Seq<Seq<char>>, path: Seq<char>, cs: CountsV)
    requires
        float_free(node),
    ensures
        float_free(nav(node, parts, path, cs)),
    decreases parts.len(),
{
    lemma_ff_array_node();
    if parts.len() == 0 {
        lemma_ff_leaf(node, path, cs);
    } else {
        let pk = crate::schema::kw_properties();
        let node1 = if !crate::json::is_object(jget(node, pk)) {
            lemma_ff_set(node, pk, JsonV::Object(seq![]));
            jset(node, pk, JsonV::Object(seq![]))
        } else {
            node
        };
        lemma_ff_get(node1, pk);
        let props = jget(node1, pk);
        let part = parts[0];
        if crate::schema::ends_brackets(part) {
            let base = crate::schema::trim_brackets(part);
            let props1 = if !crate::json::is_object(jget(props, base)) {
                lemma_ff_set(props, base, array_node());
                jset(props, base, array_node())
            } else {
                props
            };
            lemma_ff_get(props1, base);
            let arr = jget(props1, base);
            lemma_ff_get(arr, crate::schema::kw_items());
            lemma_ff_nav(jget(arr, crate::schema::kw_items()), parts.drop_first(), path, cs);
            let items = nav(jget(arr, crate::schema::kw_items()), parts.drop_first(), path, cs);
            lemma_ff_set(arr, crate::schema::kw_items(), items);
            lemma_ff_set(props1, base, jset(arr, crate::schema::kw_items(), items));
            lemma_ff_set(node1, pk, jset(props1, base, jset(arr, crate::schema::kw_items(), items)));
        } else {
            let props1 = if !crate::json::is_object(jget(props, part)) {
                lemma_ff_set(props, part, object_node());
                jset(props, part, object_node())
            } else {
                props
            };
            lemma_ff_get(props1, part);
            lemma_ff_nav(jget(props1, part), parts.drop_first(), path, cs);
            let child = nav(jget(props1, part), parts.drop_first(), path, cs);
            lemma_ff_set(props1, part, child);
            lemma_ff_set(node1, pk, jset(props1, part, child));
        }
    }
}

proof fn lemma_ff_level(st: (JsonV, JsonV), es: StoreV, d: nat, n: nat)
    requires
        float_free(st.0),
        float_free(st.1),
    ensures
        float_free(level(st, es, d, n).0),
        float_free(level(st, es, d, n).1),
    decreases n,
{
    if n > 0 && n <= es.len() {
        lemma_ff_level(st, es, d, (n - 1) as nat);
        let st1 = level(st, es, d, (n - 1) as nat);
        let e = es[n - 1];
        lemma_ff_nav(st1.0, split_dot(e.0), e.0, e.1);
        lemma_ff_enum_def(e.1);
        lemma_ff_set(st1.1, crate::schema::enum_name(e.0), enum_def(e.1));
    }
}

proof fn lemma_ff_sweep(st: (JsonV, JsonV), es: StoreV, d: nat)
    requires
        float_free(st.0),
        float_free(st.1),
    ensures
        float_free(sweep(st, es, d).0),
        float_free(sweep(st, es, d).1),
    decreases d,
{
    if d > 0 {
        lemma_ff_level(st, es, d, es.len());
        lemma_ff_sweep(level(st, es, d, es.len()), es, (d - 1) as nat);
    }
}

/// An inferred schema holds no number with a fraction or an exponent.
pub proof fn lemma_inferred_float_free(es: StoreV)
    ensures
        float_free(inferred_schema(es)),
{
    lemma_ff_array_node();
    let st = sweep((basic_schema(), JsonV::Object(seq![])), es, crate::schema::max_depth(es));
    lemma_ff_sweep((basic_schema(), JsonV::Object(seq![])), es, crate::schema::max_depth(es));
    if has_defs(st.1) {
        lemma_ff_set(st.0, crate::schema::kw_defs(), st.1);
    }
}

} // verus!
