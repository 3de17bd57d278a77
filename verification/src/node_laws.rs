//! What the inferred schema says at the node of each path: its type, its
//! reference to an enumeration, and how it treats objects whose keys vary.
use vstd::prelude::*;

use crate::json::{jget, jset, lemma_jget_jset, lemma_jget_jset_other, lemma_pos_of_at, lemma_pos_of_none, JsonNumber, JsonV};
use crate::objects::{has_dynamic_keys, is_static_key};
use crate::schema::{
    array_node, basic_schema, depth, ends_brackets, enum_name, enum_ref, enum_rule, field_type, field_type_name, has_defs,
    has_type, inferred_schema, keep_static, kw_additional, kw_defs, kw_items, kw_properties,
    kw_ref, kw_type, leaf, level, max_depth, nav, object_node, split_dot, str_values, sweep,
    trim_brackets, type_if, type_names, with_dynamic, with_type, FieldType,
};
use crate::sniffer::{store_wf, CountsV, StoreV};

verus! {

/// The node reached from `node` along the parts of a path: a part `k` goes
/// to the property `k`, a part `k[]` to the items of the property `k`.
pub open spec fn walk(node: JsonV, parts: Seq<Seq<char>>) -> JsonV
    decreases parts.len(),
{
    if parts.len() == 0 {
        node
    } else {
        let part = parts[0];
        let props = jget(node, kw_properties());
        if ends_brackets(part) {
            walk(jget(jget(props, trim_brackets(part)), kw_items()), parts.drop_first())
        } else {
            walk(jget(props, part), parts.drop_first())
        }
    }
}

/// Two parts of paths lead the same way.
pub open spec fn same_step(a: Seq<char>, b: Seq<char>) -> bool {
    ends_brackets(a) == ends_brackets(b) && trim_brackets(a) == trim_brackets(b)
}

/// Two paths lead to the same node.
pub open spec fn same_node(q: Seq<Seq<char>>, p: Seq<Seq<char>>) -> bool {
    q.len() == p.len() && forall|k: int| 0 <= k < q.len() ==> same_step(#[trigger] q[k], p[k])
}

/// The node of path `q` is a proper ancestor of that of `p`, through
/// properties and items.
pub open spec fn leads_to(q: Seq<Seq<char>>, p: Seq<Seq<char>>) -> bool {
    q.len() < p.len() && forall|k: int| 0 <= k < q.len() ==> same_step(#[trigger] q[k], p[k])
}

/// Objects were seen whose keys vary: the node keeps only the static keys.
pub open spec fn prunes(cs: CountsV) -> bool {
    has_type(cs, FieldType::Object) && has_dynamic_keys(cs)
}

/// A node with no reference and no `additionalProperties`.
pub open spec fn fresh(v: JsonV) -> bool {
    jget(v, kw_ref()) == JsonV::Null && jget(v, kw_additional()) == JsonV::Null
}

/// What the schema of the values at `path`, counted in `cs`, says once they
/// are taken in: it is an object, typed by the types of the values (one name,
/// or the sorted list of names); it refers to the enumeration of the path
/// exactly when the strings make one; and where the objects seen have keys
/// that vary it allows other properties and keeps only static ones, while
/// otherwise it says nothing of other properties.
pub open spec fn node_describes(n: JsonV, path: Seq<char>, cs: CountsV) -> bool {
    let ts = type_names(cs);
    &&& n is Object
    &&& ts.len() == 1 ==> jget(n, kw_type()) == JsonV::Str(ts[0])
    &&& ts.len() > 1 ==> jget(n, kw_type()) == JsonV::Array(str_values(ts))
    &&& jget(n, kw_ref()) == (if enum_rule(cs) {
        JsonV::Str(enum_ref(path))
    } else {
        JsonV::Null
    })
    &&& jget(n, kw_additional()) == (if prunes(cs) {
        JsonV::Bool(true)
    } else {
        JsonV::Null
    })
    &&& prunes(cs) ==> (jget(n, kw_properties()) matches JsonV::Object(ps) ==> forall|k: int|
        0 <= k < ps.len() ==> is_static_key(cs, #[trigger] ps[k].0))
}

/// The keywords a node is read by differ.
proof fn lemma_node_keywords()
    ensures
        kw_type() != kw_properties(),
        kw_ref() != kw_properties(),
        kw_type() != kw_items(),
        kw_ref() != kw_items(),
        kw_type() != kw_ref(),
        kw_additional() != kw_type(),
        kw_additional() != kw_ref(),
        kw_additional() != kw_properties(),
        kw_additional() != kw_items(),
        kw_properties() != kw_items(),
        kw_defs() != kw_properties(),
{
    reveal_strlit("type");
    reveal_strlit("$ref");
    reveal_strlit("properties");
    reveal_strlit("items");
    reveal_strlit("additionalProperties");
    reveal_strlit("$defs");
    assert(kw_type().len() != kw_properties().len());
    assert(kw_ref().len() != kw_properties().len());
    assert(kw_type().len() != kw_items().len());
    assert(kw_ref().len() != kw_items().len());
    assert(kw_type()[0] != kw_ref()[0]);
    assert(kw_additional().len() != kw_type().len());
    assert(kw_additional().len() != kw_ref().len());
    assert(kw_additional().len() != kw_properties().len());
    assert(kw_additional().len() != kw_items().len());
    assert(kw_properties().len() != kw_items().len());
    assert(kw_defs().len() != kw_properties().len());
}

/// Setting a member of any value leaves the other members as they were (a
/// value that is no object has none).
proof fn lemma_jget_jset_any(v: JsonV, k: Seq<char>, x: JsonV, k2: Seq<char>)
    requires
        k2 != k,
    ensures
        jget(jset(v, k, x), k2) == jget(v, k2),
        jset(v, k, x) is Object,
{
    if v is Object {
        lemma_jget_jset_other(v, k, x, k2);
    } else {
        lemma_pos_of_none(seq![(k, x)], k2);
    }
}

/// What new object and array schemas hold.
proof fn lemma_new_nodes()
    ensures
        jget(object_node(), kw_ref()) == JsonV::Null,
        jget(object_node(), kw_additional()) == JsonV::Null,
        jget(object_node(), kw_properties()) == JsonV::Null,
        jget(object_node(), kw_items()) == JsonV::Null,
        jget(array_node(), kw_ref()) == JsonV::Null,
        jget(array_node(), kw_additional()) == JsonV::Null,
        jget(array_node(), kw_properties()) == JsonV::Null,
        jget(array_node(), kw_items()) == object_node(),
{
    lemma_node_keywords();
    let om = object_node()->Object_0;
    let am = array_node()->Object_0;
    lemma_pos_of_none(om, kw_ref());
    lemma_pos_of_none(om, kw_additional());
    lemma_pos_of_none(om, kw_properties());
    lemma_pos_of_none(om, kw_items());
    lemma_pos_of_none(am, kw_ref());
    lemma_pos_of_none(am, kw_additional());
    lemma_pos_of_none(am, kw_properties());
    lemma_pos_of_at(am, kw_items(), 1);
}

/// Nothing is reached from what is no node.
proof fn lemma_walk_null(ps: Seq<Seq<char>>)
    ensures
        walk(JsonV::Null, ps) == JsonV::Null,
    decreases ps.len(),
{
    if ps.len() > 0 {
        lemma_walk_null(ps.drop_first());
    }
}

/// Below a node, only its properties matter.
proof fn lemma_walk_props(a: JsonV, b: JsonV, ps: Seq<Seq<char>>)
    requires
        ps.len() > 0,
        jget(a, kw_properties()) == jget(b, kw_properties()),
    ensures
        walk(a, ps) == walk(b, ps),
{
}

/// Nothing is reached below a node without properties.
proof fn lemma_walk_no_props(v: JsonV, ps: Seq<Seq<char>>)
    requires
        ps.len() > 0,
        jget(v, kw_properties()) == JsonV::Null,
    ensures
        walk(v, ps) == JsonV::Null,
{
    lemma_walk_null(ps.drop_first());
}

/// Nothing reached from what is no node holds a reference.
proof fn lemma_walk_fresh_new(v: JsonV, ps: Seq<Seq<char>>)
    requires
        fresh(v),
        ps.len() > 0 ==> jget(v, kw_properties()) == JsonV::Null,
    ensures
        fresh(walk(v, ps)),
{
    if ps.len() > 0 {
        lemma_walk_no_props(v, ps);
    }
}

/// Walking down from a node changes only its properties.
proof fn lemma_nav_keeps(node: JsonV, parts: Seq<Seq<char>>, path: Seq<char>, cs: CountsV, k: Seq<char>)
    requires
        parts.len() >= 1,
        k != kw_properties(),
    ensures
        jget(nav(node, parts, path, cs), k) == jget(node, k),
        nav(node, parts, path, cs) is Object,
{
    let pk = kw_properties();
    let node1 = if !crate::json::is_object(jget(node, pk)) {
        jset(node, pk, JsonV::Object(seq![]))
    } else {
        node
    };
    if !crate::json::is_object(jget(node, pk)) {
        lemma_jget_jset_any(node, pk, JsonV::Object(seq![]), k);
    }
    let props = jget(node1, pk);
    let part = parts[0];
    if ends_brackets(part) {
        let base = trim_brackets(part);
        let props1 = if !crate::json::is_object(jget(props, base)) {
            jset(props, base, array_node())
        } else {
            props
        };
        let arr = jget(props1, base);
        let items = nav(jget(arr, kw_items()), parts.drop_first(), path, cs);
        lemma_jget_jset_any(node1, pk, jset(props1, base, jset(arr, kw_items(), items)), k);
    } else {
        let props1 = if !crate::json::is_object(jget(props, part)) {
            jset(props, part, object_node())
        } else {
            props
        };
        let child = nav(jget(props1, part), parts.drop_first(), path, cs);
        lemma_jget_jset_any(node1, pk, jset(props1, part, child), k);
    }
}

/// Taking in the values at a node changes only its type, reference,
/// `additionalProperties`, and its properties where keys vary.
proof fn lemma_leaf_other(c: JsonV, path: Seq<char>, cs: CountsV, k: Seq<char>)
    requires
        k != kw_type(),
        k != kw_ref(),
        k != kw_additional(),
        k == kw_properties() ==> !prunes(cs),
    ensures
        jget(leaf(c, path, cs), k) == jget(c, k),
{
    lemma_node_keywords();
    let ts = type_names(cs);
    let n0 = with_type(c, cs);
    if ts.len() == 1 {
        lemma_jget_jset_any(c, kw_type(), JsonV::Str(ts[0]), k);
    } else if ts.len() > 1 {
        lemma_jget_jset_any(c, kw_type(), JsonV::Array(str_values(ts)), k);
    }
    let n = with_dynamic(n0, cs);
    if has_type(cs, FieldType::Object) && has_dynamic_keys(cs) && n0 is Object {
        let n1 = match jget(n0, kw_properties()) {
            JsonV::Object(ps) => jset(n0, kw_properties(), JsonV::Object(keep_static(ps, cs))),
            _ => n0,
        };
        match jget(n0, kw_properties()) {
            JsonV::Object(ps) => {
                lemma_jget_jset_any(n0, kw_properties(), JsonV::Object(keep_static(ps, cs)), k);
            },
            _ => {},
        }
        lemma_jget_jset_any(n1, kw_additional(), JsonV::Bool(true), k);
    }
    if enum_rule(cs) {
        lemma_jget_jset_any(n, kw_ref(), JsonV::Str(enum_ref(path)), k);
    }
}

/// Taking in the values at a fresh node describes it.
proof fn lemma_leaf_describes(c: JsonV, path: Seq<char>, cs: CountsV)
    requires
        fresh(c),
        type_names(cs).len() >= 1,
    ensures
        node_describes(leaf(c, path, cs), path, cs),
{
    lemma_node_keywords();
    let ts = type_names(cs);
    let tv = if ts.len() == 1 {
        JsonV::Str(ts[0])
    } else {
        JsonV::Array(str_values(ts))
    };
    let n0 = with_type(c, cs);
    assert(n0 == jset(c, kw_type(), tv));
    lemma_jget_jset(c, kw_type(), tv);
    lemma_jget_jset_any(c, kw_type(), tv, kw_ref());
    lemma_jget_jset_any(c, kw_type(), tv, kw_additional());
    let n = with_dynamic(n0, cs);
    if prunes(cs) {
        let n1 = match jget(n0, kw_properties()) {
            JsonV::Object(ps) => jset(n0, kw_properties(), JsonV::Object(keep_static(ps, cs))),
            _ => n0,
        };
        match jget(n0, kw_properties()) {
            JsonV::Object(ps) => {
                let kept = keep_static(ps, cs);
                lemma_jget_jset(n0, kw_properties(), JsonV::Object(kept));
                lemma_jget_jset_any(n0, kw_properties(), JsonV::Object(kept), kw_type());
                lemma_jget_jset_any(n0, kw_properties(), JsonV::Object(kept), kw_ref());
                let f = |m: (Seq<char>, JsonV)| is_static_key(cs, m.0);
                assert forall|k: int| 0 <= k < kept.len() implies is_static_key(cs, #[trigger] kept[k].0) by {
                    ps.lemma_filter_pred(f, k);
                }
            },
            _ => {},
        }
        assert(n == jset(n1, kw_additional(), JsonV::Bool(true)));
        lemma_jget_jset(n1, kw_additional(), JsonV::Bool(true));
        lemma_jget_jset_any(n1, kw_additional(), JsonV::Bool(true), kw_type());
        lemma_jget_jset_any(n1, kw_additional(), JsonV::Bool(true), kw_ref());
        lemma_jget_jset_any(n1, kw_additional(), JsonV::Bool(true), kw_properties());
    } else {
        assert(n == n0);
    }
    if enum_rule(cs) {
        lemma_jget_jset(n, kw_ref(), JsonV::Str(enum_ref(path)));
        lemma_jget_jset_any(n, kw_ref(), JsonV::Str(enum_ref(path)), kw_type());
        lemma_jget_jset_any(n, kw_ref(), JsonV::Str(enum_ref(path)), kw_additional());
        lemma_jget_jset_any(n, kw_ref(), JsonV::Str(enum_ref(path)), kw_properties());
    }
}

/// Some value was counted, so some type is named.
proof fn lemma_type_names_nonempty(cs: CountsV)
    requires
        cs.len() > 0,
    ensures
        type_names(cs).len() >= 1,
{
    let t = field_type(cs[0].0);
    assert(has_type(cs, t));
    assert(type_if(cs, t).len() == 1);
}

/// Whether two paths share a node, or one leads to the other, is decided
/// past a first part they share.
proof fn lemma_same_rest(qs: Seq<Seq<char>>, ps: Seq<Seq<char>>)
    requires
        qs.len() > 0,
        ps.len() > 0,
        same_step(qs[0], ps[0]),
    ensures
        same_node(qs.drop_first(), ps.drop_first()) == same_node(qs, ps),
        leads_to(qs.drop_first(), ps.drop_first()) == leads_to(qs, ps),
        leads_to(ps.drop_first(), qs.drop_first()) == leads_to(ps, qs),
{
    let qr = qs.drop_first();
    let pr = ps.drop_first();
    if same_node(qr, pr) {
        assert forall|k: int| 0 <= k < qs.len() implies same_step(#[trigger] qs[k], ps[k]) by {
            if k > 0 {
                assert(qr[k - 1] == qs[k] && pr[k - 1] == ps[k]);
            }
        }
    }
    if same_node(qs, ps) {
        assert forall|k: int| 0 <= k < qr.len() implies same_step(#[trigger] qr[k], pr[k]) by {
            assert(qs[k + 1] == qr[k] && ps[k + 1] == pr[k]);
        }
    }
    if leads_to(qr, pr) {
        assert forall|k: int| 0 <= k < qs.len() implies same_step(#[trigger] qs[k], ps[k]) by {
            if k > 0 {
                assert(qr[k - 1] == qs[k] && pr[k - 1] == ps[k]);
            }
        }
    }
    if leads_to(qs, ps) {
        assert forall|k: int| 0 <= k < qr.len() implies same_step(#[trigger] qr[k], pr[k]) by {
            assert(qs[k + 1] == qr[k] && ps[k + 1] == pr[k]);
        }
    }
    if leads_to(pr, qr) {
        assert forall|k: int| 0 <= k < ps.len() implies same_step(#[trigger] ps[k], qs[k]) by {
            if k > 0 {
                assert(qr[k - 1] == qs[k] && pr[k - 1] == ps[k]);
            }
        }
    }
    if leads_to(ps, qs) {
        assert forall|k: int| 0 <= k < pr.len() implies same_step(#[trigger] pr[k], qr[k]) by {
            assert(qs[k + 1] == qr[k] && ps[k + 1] == pr[k]);
        }
    }
}

/// A part without `[]` at its end is its own key.
proof fn lemma_trim_plain(part: Seq<char>)
    requires
        !ends_brackets(part),
    ensures
        trim_brackets(part) == part,
{
}

/// The node `node1` and properties `props` a walk down from `node` starts
/// from: the properties are made an object where they were not.
proof fn lemma_start(node: JsonV, key: Seq<char>)
    ensures
        ({
            let pk = kw_properties();
            let node1 = if !crate::json::is_object(jget(node, pk)) {
                jset(node, pk, JsonV::Object(seq![]))
            } else {
                node
            };
            &&& jget(node1, pk) is Object
            &&& jget(jget(node1, pk), key) == jget(jget(node, pk), key)
        }),
{
    let pk = kw_properties();
    if !crate::json::is_object(jget(node, pk)) {
        lemma_jget_jset(node, pk, JsonV::Object(seq![]));
        lemma_pos_of_none(Seq::<(Seq<char>, JsonV)>::empty(), key);
    }
}

/// A walk down along path `qs` keeps what the node of another path `ps`
/// holds under `k` (the items of a node aside), and keeps it fresh: so long
/// as no node on the way to it drops keys that vary, and, for its
/// properties, `qs` does not go through it.
proof fn lemma_nav_walk(node: JsonV, qs: Seq<Seq<char>>, path: Seq<char>, cs: CountsV, ps: Seq<Seq<char>>, k: Seq<char>)
    requires
        !same_node(qs, ps),
        leads_to(qs, ps) ==> !prunes(cs),
        k != kw_items(),
        k == kw_properties() ==> !leads_to(ps, qs),
    ensures
        walk(node, ps) is Object ==> walk(nav(node, qs, path, cs), ps) is Object
            && jget(walk(nav(node, qs, path, cs), ps), k) == jget(walk(node, ps), k),
        fresh(walk(node, ps)) ==> fresh(walk(nav(node, qs, path, cs), ps)),
    decreases qs.len(),
{
    lemma_node_keywords();
    lemma_new_nodes();
    let pk = kw_properties();
    let r = nav(node, qs, path, cs);
    if qs.len() == 0 {
        assert(ps.len() > 0);
        assert(leads_to(qs, ps));
        lemma_leaf_other(node, path, cs, pk);
        lemma_walk_props(r, node, ps);
    } else if ps.len() == 0 {
        assert(leads_to(ps, qs));
        lemma_nav_keeps(node, qs, path, cs, k);
        lemma_nav_keeps(node, qs, path, cs, kw_ref());
        lemma_nav_keeps(node, qs, path, cs, kw_additional());
    } else {
        let q0 = qs[0];
        let p0 = ps[0];
        let qr = qs.drop_first();
        let pr = ps.drop_first();
        let node1 = if !crate::json::is_object(jget(node, pk)) {
            jset(node, pk, JsonV::Object(seq![]))
        } else {
            node
        };
        let props = jget(node1, pk);
        let big_p = jget(node, pk);
        let keyp = if ends_brackets(p0) { trim_brackets(p0) } else { p0 };
        lemma_start(node, keyp);
        if ends_brackets(q0) {
            let bq = trim_brackets(q0);
            lemma_start(node, bq);
            let props1 = if !crate::json::is_object(jget(props, bq)) {
                jset(props, bq, array_node())
            } else {
                props
            };
            let arr = jget(props1, bq);
            let y = nav(jget(arr, kw_items()), qr, path, cs);
            let v = jset(arr, kw_items(), y);
            let props2 = jset(props1, bq, v);
            assert(r == jset(node1, pk, props2));
            lemma_jget_jset(node1, pk, props2);
            if !crate::json::is_object(jget(props, bq)) {
                lemma_jget_jset(props, bq, array_node());
            }
            if keyp != bq {
                lemma_jget_jset_any(props1, bq, v, keyp);
                if !crate::json::is_object(jget(props, bq)) {
                    lemma_jget_jset_any(props, bq, array_node(), keyp);
                }
                assert(jget(props2, keyp) == jget(big_p, keyp));
                assert(walk(r, ps) == walk(node, ps));
            } else {
                lemma_jget_jset(props1, bq, v);
                assert(jget(props2, bq) == v);
                if ends_brackets(p0) {
                    assert(same_step(q0, p0));
                    lemma_same_rest(qs, ps);
                    lemma_jget_jset(arr, kw_items(), y);
                    assert(walk(r, ps) == walk(y, pr));
                    assert(walk(node, ps) == walk(jget(jget(big_p, bq), kw_items()), pr));
                    lemma_nav_walk(jget(arr, kw_items()), qr, path, cs, pr, k);
                    if !crate::json::is_object(jget(big_p, bq)) {
                        lemma_walk_null(pr);
                        lemma_walk_fresh_new(object_node(), pr);
                    }
                } else {
                    assert(walk(r, ps) == walk(v, pr));
                    assert(walk(node, ps) == walk(jget(big_p, bq), pr));
                    lemma_jget_jset_any(arr, kw_items(), y, k);
                    lemma_jget_jset_any(arr, kw_items(), y, kw_ref());
                    lemma_jget_jset_any(arr, kw_items(), y, kw_additional());
                    lemma_jget_jset_any(arr, kw_items(), y, pk);
                    if pr.len() > 0 {
                        lemma_walk_props(v, jget(big_p, bq), pr);
                    }
                }
            }
        } else {
            lemma_start(node, q0);
            lemma_trim_plain(q0);
            let props1 = if !crate::json::is_object(jget(props, q0)) {
                jset(props, q0, object_node())
            } else {
                props
            };
            let child = jget(props1, q0);
            let z = nav(child, qr, path, cs);
            let props2 = jset(props1, q0, z);
            assert(r == jset(node1, pk, props2));
            lemma_jget_jset(node1, pk, props2);
            if !crate::json::is_object(jget(props, q0)) {
                lemma_jget_jset(props, q0, object_node());
            }
            if keyp != q0 {
                lemma_jget_jset_any(props1, q0, z, keyp);
                if !crate::json::is_object(jget(props, q0)) {
                    lemma_jget_jset_any(props, q0, object_node(), keyp);
                }
                assert(jget(props2, keyp) == jget(big_p, keyp));
                assert(walk(r, ps) == walk(node, ps));
            } else {
                lemma_jget_jset(props1, q0, z);
                assert(jget(props2, q0) == z);
                if !ends_brackets(p0) {
                    lemma_trim_plain(p0);
                    assert(same_step(q0, p0));
                    lemma_same_rest(qs, ps);
                    assert(walk(r, ps) == walk(z, pr));
                    assert(walk(node, ps) == walk(jget(big_p, q0), pr));
                    lemma_nav_walk(child, qr, path, cs, pr, k);
                    if !crate::json::is_object(jget(big_p, q0)) {
                        if pr.len() > 0 {
                            lemma_walk_no_props(jget(big_p, q0), pr);
                        }
                        lemma_walk_fresh_new(object_node(), pr);
                    }
                } else {
                    assert(walk(r, ps) == walk(jget(z, kw_items()), pr));
                    assert(walk(node, ps) == walk(jget(jget(big_p, q0), kw_items()), pr));
                    if qr.len() > 0 {
                        lemma_nav_keeps(child, qr, path, cs, kw_items());
                    } else {
                        lemma_leaf_other(child, path, cs, kw_items());
                    }
                    assert(jget(z, kw_items()) == jget(jget(big_p, q0), kw_items()));
                }
            }
        }
    }
}

/// Taking in the values at the node of `ps` itself, where it is fresh,
/// describes it.
proof fn lemma_nav_self(node: JsonV, ps: Seq<Seq<char>>, path: Seq<char>, cs: CountsV)
    requires
        fresh(walk(node, ps)),
        type_names(cs).len() >= 1,
    ensures
        node_describes(walk(nav(node, ps, path, cs), ps), path, cs),
    decreases ps.len(),
{
    lemma_node_keywords();
    lemma_new_nodes();
    let pk = kw_properties();
    let r = nav(node, ps, path, cs);
    if ps.len() == 0 {
        lemma_leaf_describes(node, path, cs);
    } else {
        let p0 = ps[0];
        let pr = ps.drop_first();
        let node1 = if !crate::json::is_object(jget(node, pk)) {
            jset(node, pk, JsonV::Object(seq![]))
        } else {
            node
        };
        let props = jget(node1, pk);
        let big_p = jget(node, pk);
        if ends_brackets(p0) {
            let b = trim_brackets(p0);
            lemma_start(node, b);
            let props1 = if !crate::json::is_object(jget(props, b)) {
                jset(props, b, array_node())
            } else {
                props
            };
            let arr = jget(props1, b);
            let y = nav(jget(arr, kw_items()), pr, path, cs);
            let v = jset(arr, kw_items(), y);
            let props2 = jset(props1, b, v);
            assert(r == jset(node1, pk, props2));
            lemma_jget_jset(node1, pk, props2);
            lemma_jget_jset(props1, b, v);
            lemma_jget_jset(arr, kw_items(), y);
            if !crate::json::is_object(jget(props, b)) {
                lemma_jget_jset(props, b, array_node());
                lemma_walk_fresh_new(object_node(), pr);
            }
            assert(walk(r, ps) == walk(y, pr));
            lemma_nav_self(jget(arr, kw_items()), pr, path, cs);
        } else {
            lemma_start(node, p0);
            let props1 = if !crate::json::is_object(jget(props, p0)) {
                jset(props, p0, object_node())
            } else {
                props
            };
            let child = jget(props1, p0);
            let z = nav(child, pr, path, cs);
            let props2 = jset(props1, p0, z);
            assert(r == jset(node1, pk, props2));
            lemma_jget_jset(node1, pk, props2);
            lemma_jget_jset(props1, p0, z);
            if !crate::json::is_object(jget(props, p0)) {
                lemma_jget_jset(props, p0, object_node());
                lemma_walk_fresh_new(object_node(), pr);
            }
            assert(walk(r, ps) == walk(z, pr));
            lemma_nav_self(child, pr, path, cs);
        }
    }
}

/// The other paths of the store lead to other nodes than that of path `i`,
/// and none whose node is an ancestor of it drops keys that vary.
pub open spec fn node_apart(es: StoreV, i: int) -> bool {
    &&& forall|j: int|
        0 <= j < es.len() && j != i ==> !same_node(split_dot(#[trigger] es[j].0), split_dot(es[i].0))
    &&& forall|j: int|
        0 <= j < es.len() && leads_to(split_dot(#[trigger] es[j].0), split_dot(es[i].0))
            ==> !prunes(es[j].1)
}

/// Two nodes that agree on what a description reads are described alike.
proof fn lemma_describes_same(a: JsonV, b: JsonV, path: Seq<char>, cs: CountsV)
    requires
        node_describes(a, path, cs),
        b is Object,
        jget(b, kw_type()) == jget(a, kw_type()),
        jget(b, kw_ref()) == jget(a, kw_ref()),
        jget(b, kw_additional()) == jget(a, kw_additional()),
        jget(b, kw_properties()) == jget(a, kw_properties()),
    ensures
        node_describes(b, path, cs),
{
}

/// One step for path `j`, not `i`, keeps the node of `i` fresh.
proof fn lemma_step_fresh(node: JsonV, es: StoreV, i: int, j: int)
    requires
        node_apart(es, i),
        0 <= i < es.len(),
        0 <= j < es.len(),
        j != i,
        fresh(walk(node, split_dot(es[i].0))),
    ensures
        fresh(walk(nav(node, split_dot(es[j].0), es[j].0, es[j].1), split_dot(es[i].0))),
{
    lemma_node_keywords();
    lemma_nav_walk(node, split_dot(es[j].0), es[j].0, es[j].1, split_dot(es[i].0), kw_type());
}

/// One step for path `j`, not `i` and no deeper, keeps the description of
/// the node of `i`.
proof fn lemma_step_describes(node: JsonV, es: StoreV, i: int, j: int)
    requires
        node_apart(es, i),
        0 <= i < es.len(),
        0 <= j < es.len(),
        j != i,
        depth(es[j].0) <= depth(es[i].0),
        node_describes(walk(node, split_dot(es[i].0)), es[i].0, es[i].1),
    ensures
        node_describes(
            walk(nav(node, split_dot(es[j].0), es[j].0, es[j].1), split_dot(es[i].0)),
            es[i].0,
            es[i].1,
        ),
{
    lemma_node_keywords();
    let qs = split_dot(es[j].0);
    let ps = split_dot(es[i].0);
    let n = walk(node, ps);
    let n2 = walk(nav(node, qs, es[j].0, es[j].1), ps);
    assert(!leads_to(ps, qs));
    lemma_nav_walk(node, qs, es[j].0, es[j].1, ps, kw_type());
    lemma_nav_walk(node, qs, es[j].0, es[j].1, ps, kw_ref());
    lemma_nav_walk(node, qs, es[j].0, es[j].1, ps, kw_additional());
    lemma_nav_walk(node, qs, es[j].0, es[j].1, ps, kw_properties());
    lemma_describes_same(n, n2, es[i].0, es[i].1);
}

/// The first `n` paths of one depth, none of them `i`, keep the node of `i`
/// fresh.
proof fn lemma_level_fresh(st: (JsonV, JsonV), es: StoreV, d: nat, n: nat, i: int)
    requires
        node_apart(es, i),
        0 <= i < es.len(),
        fresh(walk(st.0, split_dot(es[i].0))),
        forall|j: int| 0 <= j < n && j < es.len() && depth(es[j].0) == d ==> j != i,
    ensures
        fresh(walk(level(st, es, d, n).0, split_dot(es[i].0))),
    decreases n,
{
    if n > 0 && n <= es.len() {
        lemma_level_fresh(st, es, d, (n - 1) as nat, i);
        if depth(es[n - 1].0) == d {
            lemma_step_fresh(level(st, es, d, (n - 1) as nat).0, es, i, n - 1);
        }
    }
}

/// The paths of one depth from `from` to `n`, none of them `i` and none
/// deeper than it, keep the description of the node of `i`.
proof fn lemma_level_describes(st: (JsonV, JsonV), es: StoreV, d: nat, n: nat, from: nat, i: int)
    requires
        node_apart(es, i),
        0 <= i < es.len(),
        from <= n <= es.len(),
        d <= depth(es[i].0),
        node_describes(walk(level(st, es, d, from).0, split_dot(es[i].0)), es[i].0, es[i].1),
        forall|j: int| from <= j < n && depth(es[j].0) == d ==> j != i,
    ensures
        node_describes(walk(level(st, es, d, n).0, split_dot(es[i].0)), es[i].0, es[i].1),
    decreases n,
{
    if n > from {
        lemma_level_describes(st, es, d, (n - 1) as nat, from, i);
        if depth(es[n - 1].0) == d {
            lemma_step_describes(level(st, es, d, (n - 1) as nat).0, es, i, n - 1);
        }
    }
}

/// The level of the depth of path `i` describes its node.
proof fn lemma_level_sets(st: (JsonV, JsonV), es: StoreV, i: int)
    requires
        store_wf(es),
        node_apart(es, i),
        0 <= i < es.len(),
        fresh(walk(st.0, split_dot(es[i].0))),
    ensures
        node_describes(
            walk(level(st, es, depth(es[i].0), es.len()).0, split_dot(es[i].0)),
            es[i].0,
            es[i].1,
        ),
{
    let d = depth(es[i].0);
    lemma_level_fresh(st, es, d, i as nat, i);
    let st1 = level(st, es, d, i as nat);
    lemma_type_names_nonempty(es[i].1);
    lemma_nav_self(st1.0, split_dot(es[i].0), es[i].0, es[i].1);
    assert(level(st, es, d, (i + 1) as nat) == crate::schema::step(st1, es[i].0, es[i].1));
    lemma_level_describes(st, es, d, es.len(), (i + 1) as nat, i);
}

/// Sweeping the levels shallower than path `i` keeps the description of its
/// node.
proof fn lemma_sweep_describes(st: (JsonV, JsonV), es: StoreV, d: nat, i: int)
    requires
        node_apart(es, i),
        0 <= i < es.len(),
        d < depth(es[i].0),
        node_describes(walk(st.0, split_dot(es[i].0)), es[i].0, es[i].1),
    ensures
        node_describes(walk(sweep(st, es, d).0, split_dot(es[i].0)), es[i].0, es[i].1),
    decreases d,
{
    if d > 0 {
        assert(level(st, es, d, 0) == st);
        lemma_level_describes(st, es, d, es.len(), 0, i);
        lemma_sweep_describes(level(st, es, d, es.len()), es, (d - 1) as nat, i);
    }
}

/// Sweeping from a depth at least that of path `i` describes its node.
proof fn lemma_sweep_sets(st: (JsonV, JsonV), es: StoreV, d: nat, i: int)
    requires
        store_wf(es),
        node_apart(es, i),
        0 <= i < es.len(),
        depth(es[i].0) <= d,
        fresh(walk(st.0, split_dot(es[i].0))),
    ensures
        node_describes(walk(sweep(st, es, d).0, split_dot(es[i].0)), es[i].0, es[i].1),
    decreases d,
{
    crate::laws::lemma_split_nonempty(es[i].0);
    let st1 = level(st, es, d, es.len());
    if d == depth(es[i].0) {
        lemma_level_sets(st, es, i);
        lemma_sweep_describes(st1, es, (d - 1) as nat, i);
    } else {
        lemma_level_fresh(st, es, d, es.len(), i);
        lemma_sweep_sets(st1, es, (d - 1) as nat, i);
    }
}

/// The node of each recorded path (reached through `properties`, and
/// `items` for a part ending in `[]`) describes the values seen there: it is
/// typed by their types, refers to the path's enumeration exactly when the
/// strings make one, and, where the objects seen have keys that vary, allows
/// other properties and keeps only static ones (and otherwise has no
/// `additionalProperties`). This holds where no other path leads to the same
/// node and no path whose node is an ancestor of it drops keys that vary.
pub proof fn law_node_at_path(es: StoreV, i: int)
    requires
        store_wf(es),
        0 <= i < es.len(),
        node_apart(es, i),
    ensures
        node_describes(walk(inferred_schema(es), split_dot(es[i].0)), es[i].0, es[i].1),
{
    lemma_node_keywords();
    let ps = split_dot(es[i].0);
    crate::laws::lemma_split_nonempty(es[i].0);
    crate::laws::lemma_max_depth(es, i);
    let st0 = (basic_schema(), JsonV::Object(seq![]));
    assert(fresh(walk(st0.0, ps))) by {
        crate::laws::lemma_basic_properties();
        let key = if ends_brackets(ps[0]) { trim_brackets(ps[0]) } else { ps[0] };
        lemma_pos_of_none(Seq::<(Seq<char>, JsonV)>::empty(), key);
        lemma_walk_null(ps.drop_first());
    }
    lemma_sweep_sets(st0, es, max_depth(es), i);
    let st = sweep(st0, es, max_depth(es));
    if has_defs(st.1) {
        lemma_jget_jset_any(st.0, kw_defs(), st.1, kw_properties());
        lemma_walk_props(jset(st.0, kw_defs(), st.1), st.0, ps);
    }
}

/// A value is a number with a fraction or an exponent.
pub open spec fn is_fraction(v: JsonV) -> bool {
    v matches JsonV::Number(JsonNumber::Float(_))
}

/// A value is an integer.
pub open spec fn is_whole(v: JsonV) -> bool {
    v matches JsonV::Number(JsonNumber::PosInt(_)) || v matches JsonV::Number(JsonNumber::NegInt(_))
}

/// Each type has a name of its own.
proof fn lemma_type_names_differ(t: FieldType, u: FieldType)
    requires
        t != u,
    ensures
        field_type_name(t) != field_type_name(u),
{
    reveal_strlit("boolean");
    reveal_strlit("integer");
    reveal_strlit("null");
    reveal_strlit("number");
    reveal_strlit("object");
    reveal_strlit("string");
    let a = field_type_name(t);
    let b = field_type_name(u);
    if a.len() == b.len() {
        if a.len() == 7 {
            assert(a[0] != b[0]);
        } else if a.len() == 6 {
            assert(a[0] != b[0]);
        }
    }
}

/// Every name listed as a type is that of a type some value counted has.
proof fn lemma_type_names_elem(cs: CountsV, k: int)
    requires
        0 <= k < type_names(cs).len(),
    ensures
        exists|t: FieldType| has_type(cs, t) && type_names(cs)[k] == field_type_name(t),
{
    let a = type_if(cs, FieldType::Boolean);
    let b = type_if(cs, FieldType::Integer);
    let c = type_if(cs, FieldType::Null);
    let d = type_if(cs, FieldType::Number);
    let e = type_if(cs, FieldType::Object);
    let f = type_if(cs, FieldType::String);
    let ts = type_names(cs);
    assert(ts == a + b + c + d + e + f);
    if k < a.len() {
        assert(ts[k] == a[k]);
        assert(has_type(cs, FieldType::Boolean) && ts[k] == field_type_name(FieldType::Boolean));
    } else if k < a.len() + b.len() {
        assert(ts[k] == b[k - a.len()]);
        assert(has_type(cs, FieldType::Integer) && ts[k] == field_type_name(FieldType::Integer));
    } else if k < a.len() + b.len() + c.len() {
        assert(ts[k] == c[k - a.len() - b.len()]);
        assert(has_type(cs, FieldType::Null) && ts[k] == field_type_name(FieldType::Null));
    } else if k < a.len() + b.len() + c.len() + d.len() {
        assert(ts[k] == d[k - a.len() - b.len() - c.len()]);
        assert(has_type(cs, FieldType::Number) && ts[k] == field_type_name(FieldType::Number));
    } else if k < a.len() + b.len() + c.len() + d.len() + e.len() {
        assert(ts[k] == e[k - a.len() - b.len() - c.len() - d.len()]);
        assert(has_type(cs, FieldType::Object) && ts[k] == field_type_name(FieldType::Object));
    } else {
        assert(ts[k] == f[k - a.len() - b.len() - c.len() - d.len() - e.len()]);
        assert(has_type(cs, FieldType::String) && ts[k] == field_type_name(FieldType::String));
    }
}

/// The names listed are exactly those of the types the values counted have.
proof fn lemma_type_names_contains(cs: CountsV, t: FieldType)
    ensures
        type_names(cs).contains(field_type_name(t)) <==> has_type(cs, t),
{
    let a = type_if(cs, FieldType::Boolean);
    let b = type_if(cs, FieldType::Integer);
    let c = type_if(cs, FieldType::Null);
    let d = type_if(cs, FieldType::Number);
    let e = type_if(cs, FieldType::Object);
    let f = type_if(cs, FieldType::String);
    let ts = type_names(cs);
    assert(ts == a + b + c + d + e + f);
    if ts.contains(field_type_name(t)) {
        let k = choose|k: int| 0 <= k < ts.len() && ts[k] == field_type_name(t);
        lemma_type_names_elem(cs, k);
        let u = choose|u: FieldType| has_type(cs, u) && ts[k] == field_type_name(u);
        if u != t {
            lemma_type_names_differ(t, u);
        }
    }
    if has_type(cs, t) {
        let k: int = match t {
            FieldType::Boolean => 0,
            FieldType::Integer => a.len() as int,
            FieldType::Null => (a.len() + b.len()) as int,
            FieldType::Number => (a.len() + b.len() + c.len()) as int,
            FieldType::Object => (a.len() + b.len() + c.len() + d.len()) as int,
            FieldType::String => (a.len() + b.len() + c.len() + d.len() + e.len()) as int,
        };
        assert(ts[k] == field_type_name(t));
    }
}

/// A path's type names `number` exactly when a number with a fraction or an
/// exponent was seen there, and `integer` exactly when an integer was, of
/// either sign.
pub proof fn law_number_types(cs: CountsV)
    ensures
        type_names(cs).contains("number"@) <==> exists|i: int|
            0 <= i < cs.len() && is_fraction(#[trigger] cs[i].0),
        type_names(cs).contains("integer"@) <==> exists|i: int|
            0 <= i < cs.len() && is_whole(#[trigger] cs[i].0),
{
    lemma_type_names_contains(cs, FieldType::Number);
    lemma_type_names_contains(cs, FieldType::Integer);
    if has_type(cs, FieldType::Number) {
        let i = choose|i: int| 0 <= i < cs.len() && field_type(#[trigger] cs[i].0) == FieldType::Number;
        assert(is_fraction(cs[i].0));
    }
    if exists|i: int| 0 <= i < cs.len() && is_fraction(#[trigger] cs[i].0) {
        let i = choose|i: int| 0 <= i < cs.len() && is_fraction(#[trigger] cs[i].0);
        assert(field_type(cs[i].0) == FieldType::Number);
    }
    if has_type(cs, FieldType::Integer) {
        let i = choose|i: int| 0 <= i < cs.len() && field_type(#[trigger] cs[i].0) == FieldType::Integer;
        assert(is_whole(cs[i].0));
    }
    if exists|i: int| 0 <= i < cs.len() && is_whole(#[trigger] cs[i].0) {
        let i = choose|i: int| 0 <= i < cs.len() && is_whole(#[trigger] cs[i].0);
        assert(field_type(cs[i].0) == FieldType::Integer);
    }
}

/// The reference at the node of a path whose strings make an enumeration is
/// `#/$defs/` followed by a name that `$defs` defines: the one made from the
/// path.
pub proof fn law_ref_resolves(es: StoreV, i: int)
    requires
        store_wf(es),
        0 <= i < es.len(),
        node_apart(es, i),
        enum_rule(es[i].1),
    ensures
        jget(walk(inferred_schema(es), split_dot(es[i].0)), kw_ref()) == JsonV::Str(
            "#/$defs/"@ + enum_name(es[i].0),
        ),
        crate::laws::defines(jget(inferred_schema(es), kw_defs()), enum_name(es[i].0)),
{
    law_node_at_path(es, i);
    crate::laws::law_enums_defined(es, i);
}

/// A new array schema says only that it is an array and that its items are
/// objects: it has no other member, and its items none but their type.
pub proof fn law_new_array_schema()
    ensures
        jget(array_node(), kw_type()) == JsonV::Str("array"@),
        jget(jget(array_node(), kw_items()), kw_type()) == JsonV::Str("object"@),
        forall|k: Seq<char>| k != kw_type() && k != kw_items() ==> #[trigger] jget(array_node(), k) == JsonV::Null,
        forall|k: Seq<char>| k != kw_type() ==> #[trigger] jget(jget(array_node(), kw_items()), k) == JsonV::Null,
        forall|k: Seq<char>| k != kw_type() ==> #[trigger] jget(object_node(), k) == JsonV::Null,
{
    lemma_node_keywords();
    lemma_new_nodes();
    let am = array_node()->Object_0;
    let om = object_node()->Object_0;
    lemma_pos_of_at(am, kw_type(), 0);
    lemma_pos_of_at(om, kw_type(), 0);
    assert forall|k: Seq<char>| k != kw_type() && k != kw_items() implies #[trigger] jget(array_node(), k) == JsonV::Null by {
        lemma_pos_of_none(am, k);
    }
    assert forall|k: Seq<char>| k != kw_type() implies #[trigger] jget(object_node(), k) == JsonV::Null by {
        lemma_pos_of_none(om, k);
    }
}

/// Where the objects at a node have keys that vary, its properties keep
/// every member whose key is static and only such members (as they were),
/// and it allows other properties.
pub proof fn law_varying_keys_keep_static(node: JsonV, cs: CountsV, ps: Seq<(Seq<char>, JsonV)>)
    requires
        prunes(cs),
        node is Object,
        jget(node, kw_properties()) == JsonV::Object(ps),
    ensures
        jget(with_dynamic(node, cs), kw_additional()) == JsonV::Bool(true),
        jget(with_dynamic(node, cs), kw_properties()) matches JsonV::Object(kept) && (forall|j: int|
            0 <= j < ps.len() && is_static_key(cs, ps[j].0) ==> kept.contains(#[trigger] ps[j]))
            && (forall|x: (Seq<char>, JsonV)| #[trigger] kept.contains(x) ==> ps.contains(x)
            && is_static_key(cs, x.0)),
{
    lemma_node_keywords();
    let kept = keep_static(ps, cs);
    let n1 = jset(node, kw_properties(), JsonV::Object(kept));
    assert(with_dynamic(node, cs) == jset(n1, kw_additional(), JsonV::Bool(true)));
    lemma_jget_jset(n1, kw_additional(), JsonV::Bool(true));
    lemma_jget_jset_any(n1, kw_additional(), JsonV::Bool(true), kw_properties());
    lemma_jget_jset(node, kw_properties(), JsonV::Object(kept));
    let f = |m: (Seq<char>, JsonV)| is_static_key(cs, m.0);
    assert(kept == ps.filter(f));
    assert forall|j: int| 0 <= j < ps.len() && is_static_key(cs, ps[j].0) implies kept.contains(#[trigger] ps[j]) by {
        ps.lemma_filter_contains(f, j);
    }
    assert forall|x: (Seq<char>, JsonV)| #[trigger] kept.contains(x) implies ps.contains(x) && is_static_key(cs, x.0) by {
        ps.lemma_filter_contains_rev(f, x);
        let k = choose|k: int| 0 <= k < kept.len() && kept[k] == x;
        ps.lemma_filter_pred(f, k);
    }
}

} // verus!
