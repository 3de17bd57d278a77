//! Properties of the sniffer that hold across calls.
use vstd::prelude::*;

use crate::objects::{has_dynamic_keys, is_static_key, key_count, key_seen, obj_has_key};
use crate::json::{jget, jset, lemma_jget_jset, lemma_jget_jset_other, lemma_pos_of, lemma_pos_of_at, lemma_pos_of_none, pos_of, put, JsonV};
use crate::schema::{
    defs_step, depth, enum_def, enum_name, enum_rule, string_values, basic_schema, draft_uri, has_defs, inferred_schema, kw_defs, kw_id, kw_properties,
    kw_schema, kw_type, level, max_depth, nav, schema_id, split_dot, sweep,
};
use crate::sniffer::{
    acc, acc_elems, acc_members, add_record, bump, count_of, counts_total, items_path, join_key, keys_distinct, store_wf,
    CountsV, StoreV,
};

verus! {

/// How many times recording `v` at `path` sees `x` at `p`.
pub open spec fn occ(path: Seq<char>, v: JsonV, top: bool, p: Seq<char>, x: JsonV) -> nat
    decreases v, 1nat, 0nat,
{
    match v {
        JsonV::Object(ms) => (if !top && path == p && v == x {
            1nat
        } else {
            0nat
        }) + occ_members(path, v, ms.len(), p, x),
        JsonV::Array(es) => occ_elems(items_path(path), v, es.len(), p, x),
        _ => if path == p && v == x {
            1
        } else {
            0
        },
    }
}

/// `occ` for the first `n` members of the object `v`.
pub open spec fn occ_members(path: Seq<char>, v: JsonV, n: nat, p: Seq<char>, x: JsonV) -> nat
    decreases v, 0nat, n,
{
    match v {
        JsonV::Object(ms) => if n == 0 || n > ms.len() {
            0
        } else {
            occ_members(path, v, (n - 1) as nat, p, x) + occ(join_key(path, ms[n - 1].0), ms[n - 1].1, false, p, x)
        },
        _ => 0,
    }
}

/// `occ` for the first `n` elements of the array `v`, seen at `ipath`.
pub open spec fn occ_elems(ipath: Seq<char>, v: JsonV, n: nat, p: Seq<char>, x: JsonV) -> nat
    decreases v, 0nat, n,
{
    match v {
        JsonV::Array(es) => if n == 0 || n > es.len() {
            0
        } else {
            occ_elems(ipath, v, (n - 1) as nat, p, x) + occ(ipath, es[n - 1], false, p, x)
        },
        _ => 0,
    }
}

/// One more sighting of `w` changes only the count of `w`.
proof fn lemma_bump_count(cs: CountsV, w: JsonV, x: JsonV)
    ensures
        ({
            let j = pos_of(bump(cs, w), x);
            let c2 = if j < 0 { 0 } else { bump(cs, w)[j].1 };
            let j0 = pos_of(cs, x);
            let c1 = if j0 < 0 { 0 } else { cs[j0].1 };
            c2 == c1 + if w == x { 1nat } else { 0nat }
        }),
{
    lemma_pos_of(cs, w);
    lemma_pos_of(cs, x);
    let b = bump(cs, w);
    let jw = pos_of(cs, w);
    let jx = pos_of(cs, x);
    if jx >= 0 {
        assert forall|t: int| 0 <= t < jx implies b[t].0 != x by {
            if t == jw {
                assert(b[t].0 == w);
                assert(cs[t].0 == w);
            } else {
                assert(b[t] == cs[t]);
            }
        }
        lemma_pos_of_at(b, x, jx);
    } else if w == x {
        lemma_pos_of_at(b, x, cs.len() as int);
    } else {
        assert forall|t: int| 0 <= t < b.len() implies b[t].0 != x by {
            if t < cs.len() && t != jw {
                assert(b[t] == cs[t]);
            }
        }
        lemma_pos_of_none(b, x);
    }
}

/// One sighting of `w` at `q` changes only that count.
pub proof fn lemma_add_record_count(s: StoreV, q: Seq<char>, w: JsonV, p: Seq<char>, x: JsonV)
    ensures
        count_of(add_record(s, q, w), p, x) == count_of(s, p, x) + if q == p && w == x {
            1nat
        } else {
            0nat
        },
{
    lemma_pos_of(s, q);
    lemma_pos_of(s, p);
    let s2 = add_record(s, q, w);
    let iq = pos_of(s, q);
    let ip = pos_of(s, p);
    if ip >= 0 {
        assert forall|t: int| 0 <= t < ip implies s2[t].0 != p by {
            if t == iq {
                assert(s2[t].0 == q);
                assert(s[t].0 == q);
            } else {
                assert(s2[t] == s[t]);
            }
        }
        lemma_pos_of_at(s2, p, ip);
        if ip == iq {
            lemma_bump_count(s[ip].1, w, x);
        } else {
            assert(s2[ip] == s[ip]);
        }
    } else if q == p {
        lemma_pos_of_at(s2, p, s.len() as int);
        let one = seq![(w, 1nat)];
        if w == x {
            lemma_pos_of_at(one, x, 0);
        } else {
            lemma_pos_of_none(one, x);
        }
    } else {
        assert forall|t: int| 0 <= t < s2.len() implies s2[t].0 != p by {
            if t < s.len() && t != iq {
                assert(s2[t] == s[t]);
            }
        }
        lemma_pos_of_none(s2, p);
    }
}

/// Recording `v` adds `occ` to every count.
pub proof fn lemma_acc_count(s: StoreV, path: Seq<char>, v: JsonV, top: bool, p: Seq<char>, x: JsonV)
    ensures
        count_of(acc(s, path, v, top), p, x) == count_of(s, p, x) + occ(path, v, top, p, x),
    decreases v, 1nat, 0nat,
{
    match v {
        JsonV::Object(ms) => {
            let s1 = if top {
                s
            } else {
                add_record(s, path, v)
            };
            if !top {
                lemma_add_record_count(s, path, v, p, x);
            }
            lemma_acc_members_count(s1, path, v, ms.len(), p, x);
        },
        JsonV::Array(es) => {
            lemma_acc_elems_count(s, items_path(path), v, es.len(), p, x);
        },
        _ => {
            lemma_add_record_count(s, path, v, p, x);
        },
    }
}

/// `lemma_acc_count` for the first `n` members of an object.
proof fn lemma_acc_members_count(s: StoreV, path: Seq<char>, v: JsonV, n: nat, p: Seq<char>, x: JsonV)
    ensures
        count_of(acc_members(s, path, v, n), p, x) == count_of(s, p, x) + occ_members(path, v, n, p, x),
    decreases v, 0nat, n,
{
    match v {
        JsonV::Object(ms) => {
            if n > 0 && n <= ms.len() {
                lemma_acc_members_count(s, path, v, (n - 1) as nat, p, x);
                lemma_acc_count(
                    acc_members(s, path, v, (n - 1) as nat),
                    join_key(path, ms[n - 1].0),
                    ms[n - 1].1,
                    false,
                    p,
                    x,
                );
            }
        },
        _ => {},
    }
}

/// `lemma_acc_count` for the first `n` elements of an array.
proof fn lemma_acc_elems_count(s: StoreV, ipath: Seq<char>, v: JsonV, n: nat, p: Seq<char>, x: JsonV)
    ensures
        count_of(acc_elems(s, ipath, v, n), p, x) == count_of(s, p, x) + occ_elems(ipath, v, n, p, x),
    decreases v, 0nat, n,
{
    match v {
        JsonV::Array(es) => {
            if n > 0 && n <= es.len() {
                lemma_acc_elems_count(s, ipath, v, (n - 1) as nat, p, x);
                lemma_acc_count(acc_elems(s, ipath, v, (n - 1) as nat), ipath, es[n - 1], false, p, x);
            }
        },
        _ => {},
    }
}

/// Adding two values in either order leaves every count the same: what the
/// sniffer has seen does not depend on the order the values came in.
pub proof fn law_add_order_irrelevant(s: StoreV, a: JsonV, b: JsonV, p: Seq<char>, x: JsonV)
    ensures
        count_of(acc(acc(s, Seq::empty(), a, true), Seq::empty(), b, true), p, x) == count_of(
            acc(acc(s, Seq::empty(), b, true), Seq::empty(), a, true),
            p,
            x,
        ),
{
    lemma_acc_count(s, Seq::empty(), a, true, p, x);
    lemma_acc_count(acc(s, Seq::empty(), a, true), Seq::empty(), b, true, p, x);
    lemma_acc_count(s, Seq::empty(), b, true, p, x);
    lemma_acc_count(acc(s, Seq::empty(), b, true), Seq::empty(), a, true, p, x);
}

/// Adding a value counts each of its leaves (and nested objects) once more
/// at its path.
pub proof fn law_add_counts(s: StoreV, v: JsonV, p: Seq<char>, x: JsonV)
    ensures
        count_of(acc(s, Seq::empty(), v, true), p, x) == count_of(s, p, x) + occ(Seq::empty(), v, true, p, x),
{
    lemma_acc_count(s, Seq::empty(), v, true, p, x);
}

/// A path has at least one part.
pub(crate) proof fn lemma_split_nonempty(p: Seq<char>)
    ensures
        split_dot(p).len() >= 1,
    decreases p.len(),
{
    if p.len() > 0 {
        lemma_split_nonempty(p.drop_last());
    }
}

/// The header of a schema: its dialect, identifier and root type.
pub open spec fn has_header(v: JsonV) -> bool {
    &&& v is Object
    &&& jget(v, kw_schema()) == JsonV::Str(draft_uri())
    &&& jget(v, kw_id()) == JsonV::Str(schema_id())
    &&& jget(v, kw_type()) == JsonV::Str("object"@)
    &&& jget(v, kw_properties()) is Object
    &&& jget(v, kw_defs()) is Object
}

pub(crate) proof fn lemma_keywords_differ()
    ensures
        kw_properties() != kw_schema(),
        kw_properties() != kw_id(),
        kw_properties() != kw_type(),
        kw_defs() != kw_schema(),
        kw_defs() != kw_id(),
        kw_defs() != kw_type(),
        kw_defs() != kw_properties(),
{
    reveal_strlit("properties");
    reveal_strlit("$schema");
    reveal_strlit("$id");
    reveal_strlit("type");
    reveal_strlit("$defs");
    assert(kw_properties().len() != kw_schema().len());
    assert(kw_properties().len() != kw_id().len());
    assert(kw_properties().len() != kw_type().len());
    assert(kw_defs()[1] != kw_schema()[1]);
    assert(kw_defs().len() != kw_id().len());
    assert(kw_defs()[0] != kw_type()[0]);
    assert(kw_defs()[0] != kw_properties()[0]);
}

/// Setting a member other than the dialect, identifier and type keeps the
/// header, so long as `properties` and `$defs` stay objects.
proof fn lemma_header_set(v: JsonV, k: Seq<char>, x: JsonV)
    requires
        has_header(v),
        k != kw_schema(),
        k != kw_id(),
        k != kw_type(),
        k == kw_properties() || k == kw_defs() ==> x is Object,
    ensures
        has_header(jset(v, k, x)),
{
    lemma_keywords_differ();
    lemma_jget_jset_other(v, k, x, kw_schema());
    lemma_jget_jset_other(v, k, x, kw_id());
    lemma_jget_jset_other(v, k, x, kw_type());
    lemma_jget_jset(v, k, x);
    if k != kw_properties() {
        lemma_jget_jset_other(v, k, x, kw_properties());
    }
    if k != kw_defs() {
        lemma_jget_jset_other(v, k, x, kw_defs());
    }
}

/// Walking down from the root touches only its properties.
proof fn lemma_header_nav(node: JsonV, parts: Seq<Seq<char>>, path: Seq<char>, cs: CountsV)
    requires
        has_header(node),
        parts.len() >= 1,
    ensures
        has_header(nav(node, parts, path, cs)),
{
    lemma_keywords_differ();
    let pk = kw_properties();
    let node1 = if !crate::json::is_object(jget(node, pk)) {
        lemma_header_set(node, pk, JsonV::Object(seq![]));
        jset(node, pk, JsonV::Object(seq![]))
    } else {
        node
    };
    let r = nav(node, parts, path, cs);
    assert(r == jset(node1, pk, jget(r, pk)) && jget(r, pk) is Object) by {
        crate::json::lemma_jget_jset(node1, pk, jget(r, pk));
        let part = parts[0];
        let props = jget(node1, pk);
        if crate::schema::ends_brackets(part) {
            let base = crate::schema::trim_brackets(part);
            let props1 = if !crate::json::is_object(jget(props, base)) {
                jset(props, base, crate::schema::array_node())
            } else {
                props
            };
            let arr = jget(props1, base);
            let items = nav(jget(arr, crate::schema::kw_items()), parts.drop_first(), path, cs);
            crate::json::lemma_jget_jset(node1, pk, jset(props1, base, jset(arr, crate::schema::kw_items(), items)));
        } else {
            let props1 = if !crate::json::is_object(jget(props, part)) {
                jset(props, part, crate::schema::object_node())
            } else {
                props
            };
            let child = nav(jget(props1, part), parts.drop_first(), path, cs);
            crate::json::lemma_jget_jset(node1, pk, jset(props1, part, child));
        }
    }
    lemma_header_set(node1, pk, jget(r, pk));
}

proof fn lemma_header_level(st: (JsonV, JsonV), es: StoreV, d: nat, n: nat)
    requires
        has_header(st.0),
    ensures
        has_header(level(st, es, d, n).0),
    decreases n,
{
    if n > 0 && n <= es.len() {
        lemma_header_level(st, es, d, (n - 1) as nat);
        let st1 = level(st, es, d, (n - 1) as nat);
        lemma_split_nonempty(es[n - 1].0);
        lemma_header_nav(st1.0, split_dot(es[n - 1].0), es[n - 1].0, es[n - 1].1);
    }
}

pub(crate) proof fn lemma_header_sweep(st: (JsonV, JsonV), es: StoreV, d: nat)
    requires
        has_header(st.0),
    ensures
        has_header(sweep(st, es, d).0),
    decreases d,
{
    if d > 0 {
        lemma_header_level(st, es, d, es.len());
        lemma_header_sweep(level(st, es, d, es.len()), es, (d - 1) as nat);
    }
}

/// The basic schema's properties are an empty object.
pub(crate) proof fn lemma_basic_properties()
    ensures
        jget(basic_schema(), kw_properties()) == JsonV::Object(seq![]),
{
    let bm = basic_schema()->Object_0;
    lemma_keywords_differ();
    reveal_strlit("$defs");
    reveal_strlit("properties");
    reveal_strlit("$schema");
    reveal_strlit("$id");
    reveal_strlit("type");
    assert(bm[0].0 != kw_properties() && bm[1].0 != kw_properties());
    assert(bm[2].0 != kw_properties() && bm[3].0 != kw_properties());
    lemma_pos_of_at(bm, kw_properties(), 4);
}

/// The basic schema has the header.
pub(crate) proof fn lemma_basic_header()
    ensures
        has_header(basic_schema()),
{
    let b = basic_schema();
    let bm = b->Object_0;
    lemma_pos_of_at(bm, kw_schema(), 0);
    reveal_strlit("$schema");
    reveal_strlit("$id");
    reveal_strlit("type");
    assert(kw_schema().len() != kw_id().len());
    assert(kw_schema().len() != kw_type().len());
    assert(kw_id().len() != kw_type().len());
    assert(bm[0].0 != kw_id());
    assert(bm[1].0 == kw_id());
    lemma_pos_of_at(bm, kw_id(), 1);
    assert(bm[0].0 != kw_type());
    assert(bm[1].0 != kw_type());
    lemma_pos_of_at(bm, kw_type(), 2);
    lemma_keywords_differ();
    reveal_strlit("$defs");
    reveal_strlit("properties");
    assert(bm[0].0 != kw_defs() && bm[1].0 != kw_defs() && bm[2].0 != kw_defs());
    assert(bm[3].0 == kw_defs());
    lemma_pos_of_at(bm, kw_defs(), 3);
    lemma_basic_properties();
}

/// Every schema inferred declares the JSON Schema draft 2020-12 dialect, the
/// identifier, and the type `object` at its root, and its `properties` and
/// `$defs` are objects, whatever values were seen.
pub proof fn law_schema_header(es: StoreV)
    ensures
        has_header(inferred_schema(es)),
{
    let b = basic_schema();
    lemma_basic_header();
    lemma_header_sweep((b, JsonV::Object(seq![])), es, max_depth(es));
    let st = sweep((b, JsonV::Object(seq![])), es, max_depth(es));
    if has_defs(st.1) {
        lemma_keywords_differ();
        lemma_header_set(st.0, kw_defs(), st.1);
    }
}

/// The strings counted at a path, after one more entry: the entry's value
/// joins them when it is a string.
proof fn lemma_string_values_push(cs: CountsV)
    requires
        cs.len() > 0,
    ensures
        string_values(cs) == string_values(cs.drop_last()) + (if cs.last().0 is Str {
            seq![cs.last().0]
        } else {
            Seq::<JsonV>::empty()
        }),
{
    reveal(Seq::filter);
    let f = |e: (JsonV, nat)| e.0 is Str;
    let g = |e: (JsonV, nat)| e.0;
    let before = cs.drop_last().filter(f);
    if f(cs.last()) {
        assert(cs.filter(f) == before.push(cs.last()));
        assert(before.push(cs.last()).map_values(g) =~= before.map_values(g) + seq![cs.last().0]);
    } else {
        assert(cs.filter(f) == before);
        assert(before.map_values(g) =~= before.map_values(g) + Seq::<JsonV>::empty());
    }
}

/// The enumeration of the strings counted in `cs` (whose values are
/// distinct) lists each of them once, and nothing else.
proof fn lemma_string_values(cs: CountsV)
    requires
        keys_distinct(cs),
    ensures
        string_values(cs).no_duplicates(),
        forall|x: JsonV|
            string_values(cs).contains(x) <==> (x is Str && exists|j: int|
                0 <= j < cs.len() && #[trigger] cs[j].0 == x),
    decreases cs.len(),
{
    reveal(Seq::filter);
    if cs.len() == 0 {
        assert(string_values(cs) =~= Seq::<JsonV>::empty());
    } else {
        let rest = cs.drop_last();
        assert forall|i: int, j: int| 0 <= i < j < rest.len() implies rest[i].0 != rest[j].0 by {
            assert(rest[i] == cs[i] && rest[j] == cs[j]);
        }
        lemma_string_values(rest);
        lemma_string_values_push(cs);
        let sv0 = string_values(rest);
        let e = cs.last();
        assert forall|x: JsonV|
            string_values(cs).contains(x) <==> (x is Str && exists|j: int|
                0 <= j < cs.len() && #[trigger] cs[j].0 == x) by {
            if string_values(cs).contains(x) {
                let k = choose|k: int| 0 <= k < string_values(cs).len() && string_values(cs)[k] == x;
                if k < sv0.len() {
                    assert(sv0[k] == x);
                    assert(sv0.contains(x));
                    let j = choose|j: int| 0 <= j < rest.len() && #[trigger] rest[j].0 == x;
                    assert(cs[j] == rest[j]);
                } else {
                    assert(x == e.0);
                    assert(cs[cs.len() - 1].0 == x);
                }
            }
            if x is Str && exists|j: int| 0 <= j < cs.len() && #[trigger] cs[j].0 == x {
                let j = choose|j: int| 0 <= j < cs.len() && #[trigger] cs[j].0 == x;
                if j < cs.len() - 1 {
                    assert(rest[j].0 == x);
                    assert(sv0.contains(x));
                    let k = choose|k: int| 0 <= k < sv0.len() && sv0[k] == x;
                    assert(string_values(cs)[k] == x);
                } else {
                    assert(string_values(cs)[string_values(cs).len() - 1] == x);
                }
            }
        }
        if e.0 is Str {
            assert(!sv0.contains(e.0)) by {
                if sv0.contains(e.0) {
                    let j = choose|j: int| 0 <= j < rest.len() && #[trigger] rest[j].0 == e.0;
                    assert(cs[j].0 == cs[cs.len() - 1].0);
                }
            }
            assert forall|a: int, b: int|
                0 <= a < string_values(cs).len() && 0 <= b < string_values(cs).len() && a != b
                implies string_values(cs)[a] != string_values(cs)[b] by {
                if a < sv0.len() && b < sv0.len() {
                    assert(string_values(cs)[a] == sv0[a]);
                    assert(string_values(cs)[b] == sv0[b]);
                } else if a < sv0.len() {
                    assert(string_values(cs)[a] == sv0[a]);
                    assert(sv0.contains(sv0[a]));
                } else {
                    assert(string_values(cs)[b] == sv0[b]);
                    assert(sv0.contains(sv0[b]));
                }
            }
        } else {
            assert(string_values(cs) =~= sv0);
        }
    }
}

/// The enumeration defined for the strings seen at a path (its `enum` list is
/// `string_values` of the path's counts, see `enum_def`) names every distinct
/// string seen there exactly once, and nothing else.
pub proof fn law_enum_lists_strings_seen(s: StoreV, i: int)
    requires
        store_wf(s),
        0 <= i < s.len(),
    ensures
        string_values(s[i].1).no_duplicates(),
        forall|x: JsonV|
            string_values(s[i].1).contains(x) <==> (x is Str && exists|j: int|
                0 <= j < s[i].1.len() && #[trigger] s[i].1[j].0 == x),
{
    lemma_string_values(s[i].1);
}

/// `d` is an object with a member named `k`.
pub open spec fn defines(d: JsonV, k: Seq<char>) -> bool {
    match d {
        JsonV::Object(ms) => exists|j: int| 0 <= j < ms.len() && #[trigger] ms[j].0 == k,
        _ => false,
    }
}

/// Setting a member keeps every member name and adds the one set.
proof fn lemma_jset_defines(d: JsonV, k: Seq<char>, x: JsonV, k2: Seq<char>)
    ensures
        defines(jset(d, k, x), k),
        defines(d, k2) ==> defines(jset(d, k, x), k2),
{
    match d {
        JsonV::Object(ms) => {
            lemma_pos_of(ms, k);
            let p = pos_of(ms, k);
            let ms1 = put(ms, k, x);
            assert(jset(d, k, x) == JsonV::Object(ms1));
            let w = if p >= 0 { p } else { ms.len() as int };
            assert(0 <= w < ms1.len() && ms1[w].0 == k);
            assert(jset(d, k, x)->Object_0[w].0 == k);
            if defines(d, k2) {
                let j = choose|j: int| 0 <= j < ms.len() && #[trigger] ms[j].0 == k2;
                if p >= 0 && j == p {
                    assert(ms1[j].0 == k2);
                } else {
                    assert(ms1[j] == ms[j]);
                    assert(ms1[j].0 == k2);
                }
                assert(jset(d, k, x)->Object_0[j].0 == k2);
            }
        },
        _ => {
            assert(jset(d, k, x)->Object_0[0].0 == k);
        },
    }
}

/// Taking in paths of one depth keeps the definitions made before.
proof fn lemma_level_keeps(st: (JsonV, JsonV), es: StoreV, d: nat, n: nat, k: Seq<char>)
    requires
        defines(st.1, k),
    ensures
        defines(level(st, es, d, n).1, k),
    decreases n,
{
    if n != 0 && n <= es.len() {
        lemma_level_keeps(st, es, d, (n - 1) as nat, k);
        let st1 = level(st, es, d, (n - 1) as nat);
        if depth(es[n - 1].0) == d && enum_rule(es[n - 1].1) {
            lemma_jset_defines(st1.1, enum_name(es[n - 1].0), enum_def(es[n - 1].1), k);
        }
    }
}

/// Taking in the paths of one depth defines the enumeration of each of them
/// whose strings make one.
proof fn lemma_level_defines(st: (JsonV, JsonV), es: StoreV, d: nat, n: nat, i: int)
    requires
        0 <= i < n <= es.len(),
        depth(es[i].0) == d,
        enum_rule(es[i].1),
    ensures
        defines(level(st, es, d, n).1, enum_name(es[i].0)),
    decreases n,
{
    let st1 = level(st, es, d, (n - 1) as nat);
    if i == n - 1 {
        lemma_jset_defines(st1.1, enum_name(es[i].0), enum_def(es[i].1), enum_name(es[i].0));
    } else {
        lemma_level_defines(st, es, d, (n - 1) as nat, i);
        if depth(es[n - 1].0) == d && enum_rule(es[n - 1].1) {
            lemma_jset_defines(st1.1, enum_name(es[n - 1].0), enum_def(es[n - 1].1), enum_name(es[i].0));
        }
    }
}

/// Sweeping keeps the definitions made before.
proof fn lemma_sweep_keeps(st: (JsonV, JsonV), es: StoreV, d: nat, k: Seq<char>)
    requires
        defines(st.1, k),
    ensures
        defines(sweep(st, es, d).1, k),
    decreases d,
{
    if d > 0 {
        lemma_level_keeps(st, es, d, es.len(), k);
        lemma_sweep_keeps(level(st, es, d, es.len()), es, (d - 1) as nat, k);
    }
}

/// Sweeping from depth `d` defines the enumeration of each path no deeper
/// whose strings make one.
proof fn lemma_sweep_defines(st: (JsonV, JsonV), es: StoreV, d: nat, i: int)
    requires
        0 <= i < es.len(),
        1 <= depth(es[i].0) <= d,
        enum_rule(es[i].1),
    ensures
        defines(sweep(st, es, d).1, enum_name(es[i].0)),
    decreases d,
{
    let st1 = level(st, es, d, es.len());
    if depth(es[i].0) == d {
        lemma_level_defines(st, es, d, es.len(), i);
        lemma_sweep_keeps(st1, es, (d - 1) as nat, enum_name(es[i].0));
    } else {
        lemma_sweep_defines(st1, es, (d - 1) as nat, i);
    }
}

/// No path of a store is deeper than its deepest.
pub(crate) proof fn lemma_max_depth(es: StoreV, i: int)
    requires
        0 <= i < es.len(),
    ensures
        depth(es[i].0) <= max_depth(es),
    decreases es.len(),
{
    if i < es.len() - 1 {
        lemma_max_depth(es.drop_last(), i);
        assert(es.drop_last()[i] == es[i]);
    }
}

/// Every enumeration that the strings at some path make is defined in the
/// schema's `$defs`, under the name made from that path.
pub proof fn law_enums_defined(es: StoreV, i: int)
    requires
        0 <= i < es.len(),
        enum_rule(es[i].1),
    ensures
        defines(jget(inferred_schema(es), kw_defs()), enum_name(es[i].0)),
{
    lemma_split_nonempty(es[i].0);
    lemma_max_depth(es, i);
    let st0 = (basic_schema(), JsonV::Object(seq![]));
    lemma_sweep_defines(st0, es, max_depth(es), i);
    let st = sweep(st0, es, max_depth(es));
    assert(has_defs(st.1));
    lemma_jget_jset(st.0, kw_defs(), st.1);
}

/// Every path of `es` whose strings make an enumeration named `name` makes
/// the definition `val`.
pub open spec fn name_defines(es: StoreV, name: Seq<char>, val: JsonV) -> bool {
    forall|j: int|
        0 <= j < es.len() && enum_rule(#[trigger] es[j].1) && enum_name(es[j].0) == name
            ==> enum_def(es[j].1) == val
}

/// One step keeps the definitions an object, and keeps the definition under
/// `name` when every path that could set it sets the same.
proof fn lemma_defs_step_value(defs: JsonV, p: Seq<char>, cs: CountsV, name: Seq<char>, val: JsonV)
    requires
        defs is Object,
        jget(defs, name) == val,
        enum_rule(cs) && enum_name(p) == name ==> enum_def(cs) == val,
    ensures
        defs_step(defs, p, cs) is Object,
        jget(defs_step(defs, p, cs), name) == val,
{
    if enum_rule(cs) {
        if enum_name(p) == name {
            lemma_jget_jset(defs, name, enum_def(cs));
        } else {
            lemma_jget_jset_other(defs, enum_name(p), enum_def(cs), name);
        }
    }
}

/// Taking in paths of one depth keeps the definitions an object.
proof fn lemma_level_defs_object(st: (JsonV, JsonV), es: StoreV, d: nat, n: nat)
    requires
        st.1 is Object,
    ensures
        level(st, es, d, n).1 is Object,
    decreases n,
{
    if n != 0 && n <= es.len() {
        lemma_level_defs_object(st, es, d, (n - 1) as nat);
    }
}

/// Taking in paths of one depth keeps a definition that they all agree on.
proof fn lemma_level_value_keeps(st: (JsonV, JsonV), es: StoreV, d: nat, n: nat, name: Seq<char>, val: JsonV)
    requires
        st.1 is Object,
        jget(st.1, name) == val,
        name_defines(es, name, val),
    ensures
        level(st, es, d, n).1 is Object,
        jget(level(st, es, d, n).1, name) == val,
    decreases n,
{
    if n != 0 && n <= es.len() {
        lemma_level_value_keeps(st, es, d, (n - 1) as nat, name, val);
        let st1 = level(st, es, d, (n - 1) as nat);
        if depth(es[n - 1].0) == d {
            assert(enum_rule(es[n - 1].1) && enum_name(es[n - 1].0) == name ==> enum_def(es[n - 1].1) == val);
            lemma_defs_step_value(st1.1, es[n - 1].0, es[n - 1].1, name, val);
        }
    }
}

/// Taking in the paths of one depth sets the definition of each of them whose
/// strings make an enumeration that no other path names alike.
proof fn lemma_level_value_sets(st: (JsonV, JsonV), es: StoreV, d: nat, n: nat, i: int)
    requires
        st.1 is Object,
        0 <= i < n <= es.len(),
        depth(es[i].0) == d,
        enum_rule(es[i].1),
        name_defines(es, enum_name(es[i].0), enum_def(es[i].1)),
    ensures
        jget(level(st, es, d, n).1, enum_name(es[i].0)) == enum_def(es[i].1),
    decreases n,
{
    let name = enum_name(es[i].0);
    let val = enum_def(es[i].1);
    let st1 = level(st, es, d, (n - 1) as nat);
    lemma_level_defs_object(st, es, d, (n - 1) as nat);
    if i == n - 1 {
        lemma_jget_jset(st1.1, name, val);
    } else {
        lemma_level_value_sets(st, es, d, (n - 1) as nat, i);
        if depth(es[n - 1].0) == d {
            assert(enum_rule(es[n - 1].1) && enum_name(es[n - 1].0) == name ==> enum_def(es[n - 1].1) == val);
            lemma_defs_step_value(st1.1, es[n - 1].0, es[n - 1].1, name, val);
        }
    }
}

/// Sweeping keeps a definition that all paths agree on.
proof fn lemma_sweep_value_keeps(st: (JsonV, JsonV), es: StoreV, d: nat, name: Seq<char>, val: JsonV)
    requires
        st.1 is Object,
        jget(st.1, name) == val,
        name_defines(es, name, val),
    ensures
        jget(sweep(st, es, d).1, name) == val,
    decreases d,
{
    if d > 0 {
        lemma_level_value_keeps(st, es, d, es.len(), name, val);
        lemma_sweep_value_keeps(level(st, es, d, es.len()), es, (d - 1) as nat, name, val);
    }
}

/// Sweeping from depth `d` sets the definition of each path no deeper whose
/// strings make an enumeration that no other path names alike.
proof fn lemma_sweep_value_sets(st: (JsonV, JsonV), es: StoreV, d: nat, i: int)
    requires
        st.1 is Object,
        0 <= i < es.len(),
        1 <= depth(es[i].0) <= d,
        enum_rule(es[i].1),
        name_defines(es, enum_name(es[i].0), enum_def(es[i].1)),
    ensures
        jget(sweep(st, es, d).1, enum_name(es[i].0)) == enum_def(es[i].1),
    decreases d,
{
    let st1 = level(st, es, d, es.len());
    lemma_level_defs_object(st, es, d, es.len());
    if depth(es[i].0) == d {
        lemma_level_value_sets(st, es, d, es.len(), i);
        lemma_sweep_value_keeps(st1, es, (d - 1) as nat, enum_name(es[i].0), enum_def(es[i].1));
    } else {
        lemma_sweep_value_sets(st1, es, (d - 1) as nat, i);
    }
}

/// Where no other path's enumeration takes the same name, the schema's
/// `$defs` defines the enumeration of the strings at a path as exactly
/// `enum_def` of that path's counts: a string schema listing each distinct
/// string seen there.
pub proof fn law_enum_definition(es: StoreV, i: int)
    requires
        0 <= i < es.len(),
        enum_rule(es[i].1),
        forall|j: int|
            0 <= j < es.len() && j != i && enum_rule(#[trigger] es[j].1) ==> enum_name(es[j].0)
                != enum_name(es[i].0),
    ensures
        jget(jget(inferred_schema(es), kw_defs()), enum_name(es[i].0)) == enum_def(es[i].1),
{
    lemma_split_nonempty(es[i].0);
    lemma_max_depth(es, i);
    let st0 = (basic_schema(), JsonV::Object(seq![]));
    lemma_sweep_value_sets(st0, es, max_depth(es), i);
    let st = sweep(st0, es, max_depth(es));
    lemma_sweep_defines(st0, es, max_depth(es), i);
    assert(has_defs(st.1));
    lemma_jget_jset(st.0, kw_defs(), st.1);
}

/// Every count of `cs` multiplied by `m`.
pub open spec fn scale_counts(cs: CountsV, m: nat) -> CountsV {
    cs.map_values(|e: (JsonV, nat)| (e.0, e.1 * m))
}

/// Scaling the counts scales the number of values and each key's count.
proof fn lemma_scale_counts(cs: CountsV, m: nat, k: Seq<char>)
    ensures
        counts_total(scale_counts(cs, m)) == counts_total(cs) * m,
        key_count(scale_counts(cs, m), k) == key_count(cs, k) * m,
    decreases cs.len(),
{
    if cs.len() > 0 {
        let rest = cs.drop_last();
        let sc = scale_counts(cs, m);
        assert(sc.drop_last() =~= scale_counts(rest, m));
        assert(sc.last() == (cs.last().0, cs.last().1 * m));
        assert(sc.len() > 0);
        lemma_scale_counts(rest, m, k);
        let t = counts_total(rest);
        let c = key_count(rest, k);
        let x = cs.last().1;
        assert((t + x) * m == t * m + x * m) by (nonlinear_arith);
        assert((c + x) * m == c * m + x * m) by (nonlinear_arith);
        assert(counts_total(sc) == counts_total(scale_counts(rest, m)) + x * m);
        assert(counts_total(cs) == t + x);
        assert(counts_total(sc) == t * m + x * m);
        assert(counts_total(sc) == counts_total(cs) * m);
        if obj_has_key(cs.last().0, k) {
            assert(key_count(cs, k) == c + x);
            assert(key_count(sc, k) == c * m + x * m);
        } else {
            assert(key_count(cs, k) == c);
            assert(key_count(sc, k) == c * m);
        }
    } else {
        assert(scale_counts(cs, m).len() == 0);
        assert(counts_total(scale_counts(cs, m)) == 0);
        assert(counts_total(cs) == 0);
        assert(0 * m == 0);
    }
}

/// Only the proportions of the values seen matter to the analysis of object
/// keys: multiplying every count by the same `m >= 1` changes neither whether
/// keys vary nor which keys are static.
pub proof fn law_analysis_scale_free(cs: CountsV, m: nat)
    requires
        m >= 1,
    ensures
        has_dynamic_keys(scale_counts(cs, m)) == has_dynamic_keys(cs),
        forall|k: Seq<char>| #[trigger] is_static_key(scale_counts(cs, m), k) == is_static_key(cs, k),
{
    let sc = scale_counts(cs, m);
    assert forall|k: Seq<char>| key_seen(sc, k) == key_seen(cs, k) by {
        if key_seen(cs, k) {
            let i = choose|i: int| 0 <= i < cs.len() && obj_has_key(#[trigger] cs[i].0, k);
            assert(sc[i].0 == cs[i].0);
        }
        if key_seen(sc, k) {
            let i = choose|i: int| 0 <= i < sc.len() && obj_has_key(#[trigger] sc[i].0, k);
            assert(sc[i].0 == cs[i].0);
        }
    }
    assert forall|k: Seq<char>|
        (key_count(sc, k) < counts_total(sc)) == (key_count(cs, k) < counts_total(cs))
        && #[trigger] is_static_key(sc, k) == is_static_key(cs, k) by {
        lemma_scale_counts(cs, m, k);
        let t = counts_total(cs);
        let c = key_count(cs, k);
        assert((c * m < t * m) == (c < t)) by (nonlinear_arith)
            requires
                m >= 1,
        ;
        assert((t * m > 0) == (t > 0)) by (nonlinear_arith)
            requires
                m >= 1,
        ;
    }
    if has_dynamic_keys(cs) {
        let k = choose|k: Seq<char>| key_seen(cs, k) && key_count(cs, k) < counts_total(cs);
        assert(is_static_key(sc, k) == is_static_key(cs, k));
        assert(key_seen(sc, k));
    }
    if has_dynamic_keys(sc) {
        let k = choose|k: Seq<char>| key_seen(sc, k) && key_count(sc, k) < counts_total(sc);
        assert(is_static_key(sc, k) == is_static_key(cs, k));
        assert(key_seen(cs, k));
    }
}

} // verus!
