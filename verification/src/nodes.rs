//! Building the schema node of one path: its type, what is kept of its
//! properties when its objects vary, and the enumeration of its strings.
use vstd::prelude::*;

use crate::json::{
    copy_json, jget, jset, lemma_jset_jset, lemma_members_model_index, member_is_object,
    set_member, take_member, JsonValue, JsonNumber, JsonV,
};
use crate::objects::{is_static_key, string_seq};
use crate::schema::{
    all_labels, is_label, label_char, array_node, basic_schema, defs_step, enum_def, enum_name, enum_ref, enum_rule, field_type,
    field_type_name, has_type, keep_static, kw_additional, kw_defs, kw_enum, kw_id, kw_items,
    kw_properties, kw_ref, kw_schema, kw_type, leaf, object_node, str_values, string_count,
    string_values, type_if, type_names, with_dynamic, with_type, FieldType, draft_uri, schema_id,
    nav, ends_brackets, trim_brackets, split_dot, step, level, sweep, depth, max_depth, inferred_schema, has_defs,
};
use crate::sniffer::{counts_model, counts_total, lemma_path_total_le, store_model, store_wf, PathCounts, SchemaSniffer, StoreV};
use crate::text_ops::{chars_of, ends_with_brackets, enum_name_chars, split_path, strings_model, trim_trailing_brackets};

verus! {

/// `"properties"`.
pub fn s_properties() -> (r: String)
    ensures
        r@ == kw_properties(),
{
    String::from_str("properties")
}

/// `"items"`.
pub fn s_items() -> (r: String)
    ensures
        r@ == kw_items(),
{
    String::from_str("items")
}

/// `"type"`.
pub fn s_type() -> (r: String)
    ensures
        r@ == kw_type(),
{
    String::from_str("type")
}

/// The type of a value.
pub fn field_type_of(v: &JsonValue) -> (r: FieldType)
    ensures
        r == field_type(v.model()),
{
    match v {
        JsonValue::Null => FieldType::Null,
        JsonValue::Bool(_) => FieldType::Boolean,
        JsonValue::Number(n) => match n {
            JsonNumber::Float(_) => FieldType::Number,
            _ => FieldType::Integer,
        },
        JsonValue::String(_) => FieldType::String,
        _ => FieldType::Object,
    }
}

/// Whether some value counted has type `t`.
pub fn has_field_type(counts: &Vec<(JsonValue, usize)>, t: FieldType) -> (r: bool)
    ensures
        r == has_type(counts_model(*counts), t),
{
    let ghost cm = counts_model(*counts);
    let mut i: usize = 0;
    while i < counts.len()
        invariant
            i <= counts.len(),
            cm == counts_model(*counts),
            forall|j: int| 0 <= j < i ==> field_type(#[trigger] cm[j].0) != t,
        decreases counts.len() - i,
    {
        if field_type_of(&counts[i].0) == t {
            assert(field_type(cm[i as int].0) == t);
            return true;
        }
        i = i + 1;
    }
    false
}

/// The name of a field type.
pub fn field_type_name_of(t: FieldType) -> (r: String)
    ensures
        r@ == field_type_name(t),
{
    match t {
        FieldType::Boolean => String::from_str("boolean"),
        FieldType::Integer => String::from_str("integer"),
        FieldType::Null => String::from_str("null"),
        FieldType::Number => String::from_str("number"),
        FieldType::Object => String::from_str("object"),
        FieldType::String => String::from_str("string"),
    }
}

/// Appends the name of `t` when some value counted has type `t`.
fn push_type_if(names: &mut Vec<String>, counts: &Vec<(JsonValue, usize)>, t: FieldType)
    ensures
        strings_model(*final(names)) == strings_model(*old(names)) + type_if(counts_model(*counts), t),
{
    if has_field_type(counts, t) {
        let ghost before = strings_model(*names);
        names.push(field_type_name_of(t));
        assert(strings_model(*names) =~= before + type_if(counts_model(*counts), t));
    } else {
        assert(strings_model(*names) =~= strings_model(*names) + type_if(counts_model(*counts), t));
    }
}

/// The names of the types of the values counted, sorted.
pub fn type_names_of(counts: &Vec<(JsonValue, usize)>) -> (r: Vec<String>)
    ensures
        strings_model(r) == type_names(counts_model(*counts)),
{
    let mut names: Vec<String> = Vec::new();
    assert(strings_model(names) =~= Seq::<Seq<char>>::empty());
    push_type_if(&mut names, counts, FieldType::Boolean);
    push_type_if(&mut names, counts, FieldType::Integer);
    push_type_if(&mut names, counts, FieldType::Null);
    push_type_if(&mut names, counts, FieldType::Number);
    push_type_if(&mut names, counts, FieldType::Object);
    push_type_if(&mut names, counts, FieldType::String);
    let ghost cm = counts_model(*counts);
    assert(strings_model(names) =~= type_names(cm));
    names
}

/// Strings as JSON values.
pub fn string_jsons(names: &Vec<String>) -> (r: Vec<JsonValue>)
    ensures
        JsonValue::elems_model(r) == str_values(strings_model(*names)),
{
    let mut out: Vec<JsonValue> = Vec::new();
    let mut i: usize = 0;
    while i < names.len()
        invariant
            i <= names.len(),
            out.len() == i,
            forall|j: int| 0 <= j < i ==> #[trigger] out[j].model() == JsonV::Str(names[j]@),
        decreases names.len() - i,
    {
        out.push(JsonValue::String(names[i].clone()));
        i = i + 1;
    }
    assert forall|j: int| 0 <= j < names.len() implies JsonValue::elems_model(out)[j] == str_values(
        strings_model(*names),
    )[j] by {
        assert(out[j].model() == JsonV::Str(names[j]@));
    }
    assert(JsonValue::elems_model(out) =~= str_values(strings_model(*names)));
    out
}

/// Sets the type of a schema node.
pub fn with_type_exec(node: JsonValue, counts: &Vec<(JsonValue, usize)>) -> (r: JsonValue)
    ensures
        r.model() == with_type(node.model(), counts_model(*counts)),
{
    let names = type_names_of(counts);
    if names.len() == 1 {
        set_member(node, s_type(), JsonValue::String(names[0].clone()))
    } else if names.len() > 1 {
        let arr = string_jsons(&names);
        set_member(node, s_type(), JsonValue::Array(arr))
    } else {
        node
    }
}

/// Whether `k` is one of `keys`.
pub fn contains_key(keys: &Vec<String>, k: &String) -> (r: bool)
    ensures
        r == string_seq(*keys).contains(k@),
{
    let mut i: usize = 0;
    while i < keys.len()
        invariant
            i <= keys.len(),
            forall|j: int| 0 <= j < i ==> #[trigger] keys[j]@ != k@,
        decreases keys.len() - i,
    {
        if keys[i] == *k {
            assert(string_seq(*keys)[i as int] == k@);
            return true;
        }
        i = i + 1;
    }
    assert forall|j: int| 0 <= j < string_seq(*keys).len() implies string_seq(*keys)[j] != k@ by {
        assert(keys[j]@ != k@);
    }
    false
}

/// The members of `ps` whose keys are listed in `statics`.
fn keep_listed(ps: Vec<(String, JsonValue)>, statics: &Vec<String>, Ghost(cs): Ghost<Seq<(JsonV, nat)>>) -> (r: Vec<(String, JsonValue)>)
    requires
        forall|k: Seq<char>| #[trigger] string_seq(*statics).contains(k) <==> is_static_key(cs, k),
    ensures
        JsonValue::members_model(r) == keep_static(JsonValue::members_model(ps), cs),
{
    let ghost orig = JsonValue::members_model(ps);
    let mut rest = ps;
    let mut out: Vec<(String, JsonValue)> = Vec::new();
    let ghost mut i: int = 0;
    assert(orig.take(0) =~= Seq::<(Seq<char>, JsonV)>::empty());
    assert(JsonValue::members_model(out) =~= Seq::<(Seq<char>, JsonV)>::empty());
    assert(JsonValue::members_model(rest) =~= orig.skip(0));
    while rest.len() > 0
        invariant
            0 <= i <= orig.len(),
            JsonValue::members_model(rest) == orig.skip(i),
            JsonValue::members_model(out) == keep_static(orig.take(i), cs),
            forall|k: Seq<char>| #[trigger] string_seq(*statics).contains(k) <==> is_static_key(cs, k),
        decreases rest.len(),
    {
        let ghost rm = JsonValue::members_model(rest);
        assert(rm.len() == rest.len());
        assert(rm[0] == orig[i]);
        let ghost rv = rest@;
        let m = rest.remove(0);
        assert(rest@ =~= rv.subrange(1, rv.len() as int));
        assert forall|j: int| 0 <= j < rest.len() implies JsonValue::members_model(rest)[j] == orig.skip(i + 1)[j] by {
            assert(rest[j] == rv[j + 1]);
            assert(rm[j + 1] == orig.skip(i)[j + 1]);
        }
        assert(JsonValue::members_model(rest) =~= orig.skip(i + 1));
        assert(orig.take(i + 1).drop_last() =~= orig.take(i));
        assert(orig.take(i + 1).last() == orig[i]);
        assert(m.0@ == orig[i].0);
        assert(m.1.model() == orig[i].1);
        let ghost kp = keep_static(orig.take(i), cs);
        proof {
            reveal(Seq::filter);
        }
        assert(keep_static(orig.take(i + 1), cs) == if is_static_key(cs, orig[i].0) {
            kp.push(orig[i])
        } else {
            kp
        });
        if contains_key(statics, &m.0) {
            let ghost before = JsonValue::members_model(out);
            out.push(m);
            assert(JsonValue::members_model(out) =~= before.push(orig[i]));
        }
        proof {
            i = i + 1;
        }
    }
    assert(orig.take(i) =~= orig);
    out
}

/// Where objects were seen with keys that vary, keeps only the static
/// properties of the node and allows any others.
pub fn with_dynamic_exec(node: JsonValue, counts: &Vec<(JsonValue, usize)>) -> (r: JsonValue)
    requires
        counts_total(counts_model(*counts)) <= usize::MAX,
    ensures
        r.model() == with_dynamic(node.model(), counts_model(*counts)),
{
    let ghost cm = counts_model(*counts);
    if !has_field_type(counts, FieldType::Object) {
        return node;
    }
    let (dynamic, statics) = SchemaSniffer::analyze_object_properties(counts);
    if !dynamic {
        return node;
    }
    let is_obj = match &node {
        JsonValue::Object(_) => true,
        _ => false,
    };
    if !is_obj {
        return node;
    }
    let ghost nm = node.model();
    let pk = s_properties();
    let n1 = if member_is_object(&node, &pk) {
        let (n, p) = take_member(node, &pk);
        match p {
            JsonValue::Object(ps) => {
                let kept = keep_listed(ps, &statics, Ghost(cm));
                proof {
                    lemma_jset_jset(nm, kw_properties(), JsonV::Null, JsonV::Object(JsonValue::members_model(kept)));
                }
                set_member(n, s_properties(), JsonValue::Object(kept))
            },
            _ => n,
        }
    } else {
        node
    };
    set_member(n1, String::from_str("additionalProperties"), JsonValue::Bool(true))
}

/// The sum of the counts.
pub fn counts_sum(counts: &Vec<(JsonValue, usize)>) -> (r: usize)
    requires
        counts_total(counts_model(*counts)) <= usize::MAX,
    ensures
        r == counts_total(counts_model(*counts)),
{
    let ghost cm = counts_model(*counts);
    let mut total: usize = 0;
    let mut i: usize = 0;
    while i < counts.len()
        invariant
            i <= counts.len(),
            cm == counts_model(*counts),
            counts_total(cm) <= usize::MAX,
            total == counts_total(cm.take(i as int)),
        decreases counts.len() - i,
    {
        proof {
            crate::objects::lemma_key_count_step(cm, i as int, Seq::empty());
            crate::objects::lemma_counts_total_prefix(cm, i as int + 1);
        }
        total = total + counts[i].1;
        i = i + 1;
    }
    assert(cm.take(counts.len() as int) =~= cm);
    total
}

/// The number of distinct strings counted.
pub fn count_strings(counts: &Vec<(JsonValue, usize)>) -> (r: usize)
    ensures
        r == string_count(counts_model(*counts)),
{
    let ghost cm = counts_model(*counts);
    let mut n: usize = 0;
    let mut i: usize = 0;
    while i < counts.len()
        invariant
            i <= counts.len(),
            cm == counts_model(*counts),
            n <= i,
            n == string_count(cm.take(i as int)),
        decreases counts.len() - i,
    {
        assert(cm.take(i as int + 1).drop_last() =~= cm.take(i as int));
        let is_str = match &counts[i].0 {
            JsonValue::String(_) => true,
            _ => false,
        };
        if is_str {
            n = n + 1;
        }
        i = i + 1;
    }
    assert(cm.take(counts.len() as int) =~= cm);
    n
}

/// Copies of the distinct strings counted, in order.
pub fn string_values_of(counts: &Vec<(JsonValue, usize)>) -> (r: Vec<JsonValue>)
    ensures
        JsonValue::elems_model(r) == string_values(counts_model(*counts)),
{
    let ghost cm = counts_model(*counts);
    let mut out: Vec<JsonValue> = Vec::new();
    let mut i: usize = 0;
    proof {
        reveal(Seq::filter);
    }
    assert(JsonValue::elems_model(out) =~= string_values(cm.take(0)));
    while i < counts.len()
        invariant
            i <= counts.len(),
            cm == counts_model(*counts),
            JsonValue::elems_model(out) == string_values(cm.take(i as int)),
        decreases counts.len() - i,
    {
        proof {
            reveal(Seq::filter);
        }
        let ghost before = JsonValue::elems_model(out);
        assert(cm.take(i as int + 1).drop_last() =~= cm.take(i as int));
        assert(cm.take(i as int + 1).last() == cm[i as int]);
        let is_str = match &counts[i].0 {
            JsonValue::String(_) => true,
            _ => false,
        };
        if is_str {
            out.push(copy_json(&counts[i].0));
            assert(JsonValue::elems_model(out) =~= before.push(cm[i as int].0));
        }
        i = i + 1;
    }
    assert(cm.take(counts.len() as int) =~= cm);
    out
}

/// Whether the strings counted make an enumeration.
pub fn enum_rule_holds(counts: &Vec<(JsonValue, usize)>) -> (r: bool)
    requires
        counts_total(counts_model(*counts)) <= usize::MAX,
    ensures
        r == enum_rule(counts_model(*counts)),
{
    if !has_field_type(counts, FieldType::String) {
        return false;
    }
    let unique = count_strings(counts);
    if unique >= 100 {
        return false;
    }
    let total = counts_sum(counts);
    total >= unique * 10 || labels_only(counts)
}

/// Whether `s` is a label.
pub fn is_label_exec(s: &String) -> (r: bool)
    ensures
        r == is_label(s@),
{
    let cs = chars_of(s);
    if cs.len() == 0 {
        return false;
    }
    let mut i: usize = 0;
    while i < cs.len()
        invariant
            i <= cs.len(),
            cs@ == s@,
            forall|j: int| 0 <= j < i ==> label_char(#[trigger] s@[j]),
        decreases cs.len() - i,
    {
        let c = cs[i];
        if !(('a' <= c && c <= 'z') || c == '-' || c == '_') {
            assert(!label_char(s@[i as int]));
            return false;
        }
        i = i + 1;
    }
    true
}

/// Whether every string counted is a label.
pub fn labels_only(counts: &Vec<(JsonValue, usize)>) -> (r: bool)
    ensures
        r == all_labels(counts_model(*counts)),
{
    let ghost cm = counts_model(*counts);
    let mut i: usize = 0;
    while i < counts.len()
        invariant
            i <= counts.len(),
            cm == counts_model(*counts),
            forall|j: int| 0 <= j < i ==> (#[trigger] cm[j].0 matches JsonV::Str(t) ==> is_label(t)),
        decreases counts.len() - i,
    {
        match &counts[i].0 {
            JsonValue::String(t) => {
                if !is_label_exec(t) {
                    assert(cm[i as int].0 == JsonV::Str(t@));
                    return false;
                }
            },
            _ => {},
        }
        i = i + 1;
    }
    true
}

/// The name of the enumeration of the strings at `path`.
pub fn enum_name_of(path: &String) -> (r: String)
    ensures
        r@ == enum_name(path@),
{
    let mut n = enum_name_chars(path);
    n.append("Enum");
    n
}

/// The reference to the enumeration of the strings at `path`.
pub fn enum_ref_of(path: &String) -> (r: String)
    ensures
        r@ == enum_ref(path@),
{
    let mut r = String::from_str("#/$defs/");
    let n = enum_name_of(path);
    r.append(n.as_str());
    r
}

/// The definition of the enumeration of the strings counted.
pub fn enum_def_of(counts: &Vec<(JsonValue, usize)>) -> (r: JsonValue)
    ensures
        r.model() == enum_def(counts_model(*counts)),
{
    let values = string_values_of(counts);
    let ghost vm = JsonValue::elems_model(values);
    let ms = vec![(s_type(), JsonValue::String(String::from_str("string"))), (String::from_str("enum"), JsonValue::Array(values))];
    assert(JsonValue::members_model(ms) =~= seq![(kw_type(), JsonV::Str("string"@)), (kw_enum(), JsonV::Array(vm))]);
    JsonValue::Object(ms)
}

/// The schema node of the values at `path`, given its previous contents.
pub fn leaf_exec(node: JsonValue, path: &String, counts: &Vec<(JsonValue, usize)>) -> (r: JsonValue)
    requires
        counts_total(counts_model(*counts)) <= usize::MAX,
    ensures
        r.model() == leaf(node.model(), path@, counts_model(*counts)),
{
    let n1 = with_type_exec(node, counts);
    let n2 = with_dynamic_exec(n1, counts);
    if enum_rule_holds(counts) {
        set_member(n2, String::from_str("$ref"), JsonValue::String(enum_ref_of(path)))
    } else {
        n2
    }
}

/// Defines the enumeration of the strings at `path`, when the rule holds.
pub fn defs_step_exec(defs: JsonValue, path: &String, counts: &Vec<(JsonValue, usize)>) -> (r: JsonValue)
    requires
        counts_total(counts_model(*counts)) <= usize::MAX,
    ensures
        r.model() == defs_step(defs.model(), path@, counts_model(*counts)),
{
    if enum_rule_holds(counts) {
        set_member(defs, enum_name_of(path), enum_def_of(counts))
    } else {
        defs
    }
}

/// The schema of a new array: objects as items.
pub fn array_node_exec() -> (r: JsonValue)
    ensures
        r.model() == array_node(),
{
    let inner = vec![(s_type(), JsonValue::String(String::from_str("object")))];
    assert(JsonValue::members_model(inner) =~= seq![(kw_type(), JsonV::Str("object"@))]);
    let ghost im = JsonValue::members_model(inner);
    let ms = vec![(s_type(), JsonValue::String(String::from_str("array"))), (s_items(), JsonValue::Object(inner))];
    assert(JsonValue::members_model(ms) =~= seq![(kw_type(), JsonV::Str("array"@)), (kw_items(), JsonV::Object(im))]);
    JsonValue::Object(ms)
}

/// The schema of a new object.
pub fn object_node_exec() -> (r: JsonValue)
    ensures
        r.model() == object_node(),
{
    let ms = vec![(s_type(), JsonValue::String(String::from_str("object")))];
    assert(JsonValue::members_model(ms) =~= seq![(kw_type(), JsonV::Str("object"@))]);
    JsonValue::Object(ms)
}

/// An empty object.
pub fn empty_object() -> (r: JsonValue)
    ensures
        r.model() == JsonV::Object(seq![]),
{
    let ms: Vec<(String, JsonValue)> = Vec::new();
    assert(JsonValue::members_model(ms) =~= Seq::<(Seq<char>, JsonV)>::empty());
    JsonValue::Object(ms)
}

/// The schema every inference starts from.
pub fn basic_schema_exec() -> (r: JsonValue)
    ensures
        r.model() == basic_schema(),
{
    let ms = vec![
        (String::from_str("$schema"), JsonValue::String(String::from_str("https://json-schema.org/draft/2020-12/schema"))),
        (String::from_str("$id"), JsonValue::String(String::from_str("https://example.com/my-schema"))),
        (s_type(), JsonValue::String(String::from_str("object"))),
        (String::from_str("$defs"), empty_object()),
        (s_properties(), empty_object()),
    ];
    assert(JsonValue::members_model(ms) =~= basic_schema()->Object_0);
    JsonValue::Object(ms)
}

/// Walks down `node` along `parts[i..]` and updates the node reached with
/// the values at `path` (see `nav`).
pub fn nav_exec(node: JsonValue, parts: &Vec<String>, i: usize, path: &String, counts: &Vec<(JsonValue, usize)>) -> (r: JsonValue)
    requires
        i <= parts.len(),
        counts_total(counts_model(*counts)) <= usize::MAX,
    ensures
        r.model() == nav(node.model(), strings_model(*parts).skip(i as int), path@, counts_model(*counts)),
    decreases parts.len() - i,
{
    let ghost ps = strings_model(*parts).skip(i as int);
    let ghost cm = counts_model(*counts);
    if i == parts.len() {
        assert(ps.len() == 0);
        return leaf_exec(node, path, counts);
    }
    assert(ps[0] == parts[i as int]@);
    assert(ps.drop_first() =~= strings_model(*parts).skip(i as int + 1));
    let pk = s_properties();
    let node1 = if !member_is_object(&node, &pk) {
        set_member(node, s_properties(), empty_object())
    } else {
        node
    };
    let ghost n1 = node1.model();
    let (node2, props) = take_member(node1, &pk);
    let part = &parts[i];
    let new_props = if ends_with_brackets(part) {
        let base = trim_trailing_brackets(part);
        let props1 = if !member_is_object(&props, &base) {
            set_member(props, base.clone(), array_node_exec())
        } else {
            props
        };
        let ghost p1 = props1.model();
        let (props2, arr) = take_member(props1, &base);
        let ghost am = arr.model();
        let ik = s_items();
        let (arr2, items) = take_member(arr, &ik);
        let items2 = nav_exec(items, parts, i + 1, path, counts);
        proof {
            lemma_jset_jset(am, kw_items(), JsonV::Null, items2.model());
        }
        let arr3 = set_member(arr2, s_items(), items2);
        proof {
            lemma_jset_jset(p1, base@, JsonV::Null, arr3.model());
        }
        set_member(props2, base, arr3)
    } else {
        let props1 = if !member_is_object(&props, part) {
            set_member(props, part.clone(), object_node_exec())
        } else {
            props
        };
        let ghost p1 = props1.model();
        let (props2, child) = take_member(props1, part);
        let child2 = nav_exec(child, parts, i + 1, path, counts);
        proof {
            lemma_jset_jset(p1, part@, JsonV::Null, child2.model());
        }
        set_member(props2, part.clone(), child2)
    };
    proof {
        lemma_jset_jset(n1, kw_properties(), JsonV::Null, new_props.model());
    }
    set_member(node2, s_properties(), new_props)
}

/// The schema inferred from a well-formed store.
pub fn infer_from_store(es: &Vec<PathCounts>) -> (r: JsonValue)
    requires
        store_wf(store_model(*es)),
    ensures
        r.model() == inferred_schema(store_model(*es)),
{
    let ghost em = store_model(*es);
    let mut all_parts: Vec<Vec<String>> = Vec::new();
    let mut maxd: usize = 0;
    let mut n: usize = 0;
    assert(em.take(0) =~= StoreV::empty());
    while n < es.len()
        invariant
            n <= es.len(),
            em == store_model(*es),
            all_parts.len() == n,
            forall|j: int| 0 <= j < n ==> #[trigger] strings_model(all_parts[j]) == split_dot(em[j].0),
            maxd == max_depth(em.take(n as int)),
        decreases es.len() - n,
    {
        let parts = split_path(&es[n].path);
        assert(em.take(n as int + 1).drop_last() =~= em.take(n as int));
        assert(em.take(n as int + 1).last() == em[n as int]);
        assert(strings_model(parts).len() == parts.len());
        if parts.len() > maxd {
            maxd = parts.len();
        }
        all_parts.push(parts);
        n = n + 1;
    }
    assert(em.take(es.len() as int) =~= em);
    let mut schema = basic_schema_exec();
    let mut defs = empty_object();
    let ghost start = (basic_schema(), JsonV::Object(seq![]));
    let mut d: usize = maxd;
    while d > 0
        invariant
            em == store_model(*es),
            store_wf(em),
            all_parts.len() == es.len(),
            forall|j: int| 0 <= j < es.len() ==> #[trigger] strings_model(all_parts[j]) == split_dot(em[j].0),
            sweep((schema.model(), defs.model()), em, d as nat) == sweep(start, em, maxd as nat),
        decreases d,
    {
        let ghost st0 = (schema.model(), defs.model());
        let mut n: usize = 0;
        while n < es.len()
            invariant
                n <= es.len(),
                em == store_model(*es),
                store_wf(em),
                all_parts.len() == es.len(),
                forall|j: int| 0 <= j < es.len() ==> #[trigger] strings_model(all_parts[j]) == split_dot(em[j].0),
                (schema.model(), defs.model()) == level(st0, em, d as nat, n as nat),
            decreases es.len() - n,
        {
            let ghost parts_m = strings_model(all_parts[n as int]);
            assert(parts_m.len() == all_parts[n as int].len());
            assert(em[n as int].0 == es[n as int].path@);
            assert(em[n as int].1 == counts_model(es[n as int].counts));
            if all_parts[n].len() == d {
                proof {
                    lemma_path_total_le(em, n as int);
                    assert(strings_model(all_parts[n as int]).skip(0) =~= split_dot(em[n as int].0));
                }
                schema = nav_exec(schema, &all_parts[n], 0, &es[n].path, &es[n].counts);
                defs = defs_step_exec(defs, &es[n].path, &es[n].counts);
            }
            n = n + 1;
        }
        d = d - 1;
    }
    if match &defs {
        JsonValue::Object(ms) => ms.len() > 0,
        _ => false,
    } {
        set_member(schema, String::from_str("$defs"), defs)
    } else {
        schema
    }
}

} // verus!
