//! The schema inferred from a sniffer's store: what it is (as spec functions
//! over the store's model) and how it is built.
use vstd::prelude::*;

use crate::json::{is_object, jget, jset, put, JsonNumber, JsonV};
use crate::objects::{has_dynamic_keys, is_static_key};
use crate::sniffer::{counts_total, CountsV, StoreV};

verus! {

/// The keyword of the nested properties of an object schema.
pub open spec fn kw_properties() -> Seq<char> {
    "properties"@
}

/// The keyword of the schema of an array's items.
pub open spec fn kw_items() -> Seq<char> {
    "items"@
}

/// The keyword of a schema's type.
pub open spec fn kw_type() -> Seq<char> {
    "type"@
}

/// The keyword of a reference to a definition.
pub open spec fn kw_ref() -> Seq<char> {
    "$ref"@
}

/// The keyword of the definitions of a schema.
pub open spec fn kw_defs() -> Seq<char> {
    "$defs"@
}

/// The keyword that allows members other than those listed.
pub open spec fn kw_additional() -> Seq<char> {
    "additionalProperties"@
}

/// The keyword of the values an enumeration allows.
pub open spec fn kw_enum() -> Seq<char> {
    "enum"@
}

/// The keyword naming the dialect of a schema.
pub open spec fn kw_schema() -> Seq<char> {
    "$schema"@
}

/// The keyword of a schema's identifier.
pub open spec fn kw_id() -> Seq<char> {
    "$id"@
}

/// The JSON Schema dialect of the schemas inferred.
pub open spec fn draft_uri() -> Seq<char> {
    "https://json-schema.org/draft/2020-12/schema"@
}

/// The identifier of the schemas inferred.
pub open spec fn schema_id() -> Seq<char> {
    "https://example.com/my-schema"@
}

/// The kind of a value, as a schema's type names it.
#[derive(Clone, Copy, Debug, PartialEq, Eq, Structural)]
pub enum FieldType {
    Boolean,
    Integer,
    Null,
    Number,
    Object,
    String,
}

/// The name of a field type.
pub open spec fn field_type_name(t: FieldType) -> Seq<char> {
    match t {
        FieldType::Boolean => "boolean"@,
        FieldType::Integer => "integer"@,
        FieldType::Null => "null"@,
        FieldType::Number => "number"@,
        FieldType::Object => "object"@,
        FieldType::String => "string"@,
    }
}

/// The type of a value: integers (of either sign) are `integer`, other
/// numbers `number`, and arrays as well as objects `object`.
pub open spec fn field_type(v: JsonV) -> FieldType {
    match v {
        JsonV::Null => FieldType::Null,
        JsonV::Bool(_) => FieldType::Boolean,
        JsonV::Number(n) => match n {
            JsonNumber::Float(_) => FieldType::Number,
            _ => FieldType::Integer,
        },
        JsonV::Str(_) => FieldType::String,
        _ => FieldType::Object,
    }
}

/// Some value counted in `cs` has type `t`.
pub open spec fn has_type(cs: CountsV, t: FieldType) -> bool {
    exists|i: int| 0 <= i < cs.len() && field_type(#[trigger] cs[i].0) == t
}

/// `[name of t]` when some value has type `t`, else nothing.
pub open spec fn type_if(cs: CountsV, t: FieldType) -> Seq<Seq<char>> {
    if has_type(cs, t) {
        seq![field_type_name(t)]
    } else {
        seq![]
    }
}

/// The names of the types of the values counted, each once, sorted.
pub open spec fn type_names(cs: CountsV) -> Seq<Seq<char>> {
    type_if(cs, FieldType::Boolean) + type_if(cs, FieldType::Integer) + type_if(cs, FieldType::Null)
        + type_if(cs, FieldType::Number) + type_if(cs, FieldType::Object) + type_if(
        cs,
        FieldType::String,
    )
}

/// Strings as JSON values.
pub open spec fn str_values(names: Seq<Seq<char>>) -> Seq<JsonV> {
    names.map_values(|n: Seq<char>| JsonV::Str(n))
}

/// Sets the type of a schema node: one name, or a list of names.
pub open spec fn with_type(node: JsonV, cs: CountsV) -> JsonV {
    let ts = type_names(cs);
    if ts.len() == 1 {
        jset(node, kw_type(), JsonV::Str(ts[0]))
    } else if ts.len() > 1 {
        jset(node, kw_type(), JsonV::Array(str_values(ts)))
    } else {
        node
    }
}

/// The members of `ps` whose keys are static in `cs`.
pub open spec fn keep_static(ps: Seq<(Seq<char>, JsonV)>, cs: CountsV) -> Seq<(Seq<char>, JsonV)> {
    ps.filter(|m: (Seq<char>, JsonV)| is_static_key(cs, m.0))
}

/// Where objects were seen with keys that vary, keeps only the static
/// properties and allows any others.
pub open spec fn with_dynamic(node: JsonV, cs: CountsV) -> JsonV {
    if has_type(cs, FieldType::Object) && has_dynamic_keys(cs) && node is Object {
        let n1 = match jget(node, kw_properties()) {
            JsonV::Object(ps) => jset(node, kw_properties(), JsonV::Object(keep_static(ps, cs))),
            _ => node,
        };
        jset(n1, kw_additional(), JsonV::Bool(true))
    } else {
        node
    }
}

/// The number of distinct strings counted.
pub open spec fn string_count(cs: CountsV) -> nat
    decreases cs.len(),
{
    if cs.len() == 0 {
        0
    } else {
        string_count(cs.drop_last()) + if cs.last().0 is Str {
            1nat
        } else {
            0
        }
    }
}

/// The distinct strings counted, in order.
pub open spec fn string_values(cs: CountsV) -> Seq<JsonV> {
    cs.filter(|e: (JsonV, nat)| e.0 is Str).map_values(|e: (JsonV, nat)| e.0)
}

/// A character of a label: a lowercase ASCII letter, `-` or `_`.
pub open spec fn label_char(c: char) -> bool {
    ('a' <= c && c <= 'z') || c == '-' || c == '_'
}

/// A label: a non-empty word of lowercase letters, such as a status or a
/// colour (`active`, `in_progress`), unlike a name (`Alice`) or a code
/// (`1d6`).
pub open spec fn is_label(s: Seq<char>) -> bool {
    s.len() > 0 && forall|i: int| 0 <= i < s.len() ==> label_char(#[trigger] s[i])
}

/// Every string counted is a label.
pub open spec fn all_labels(cs: CountsV) -> bool {
    forall|i: int| 0 <= i < cs.len() ==> (#[trigger] cs[i].0 matches JsonV::Str(t) ==> is_label(t))
}

/// The strings seen make an enumeration: strings were seen, fewer than a
/// hundred distinct ones, and either they are all labels (three statuses
/// seen once each make one) or there are at least ten values (of any type)
/// for each distinct string.
pub open spec fn enum_rule(cs: CountsV) -> bool {
    &&& has_type(cs, FieldType::String)
    &&& string_count(cs) < 100
    &&& (counts_total(cs) >= string_count(cs) * 10 || all_labels(cs))
}

/// The characters of a path as they appear in an enumeration's name: `.`
/// becomes `_`, and `[` and `]` are dropped.
pub open spec fn name_chars(p: Seq<char>) -> Seq<char>
    decreases p.len(),
{
    if p.len() == 0 {
        seq![]
    } else {
        name_chars(p.drop_last()) + if p.last() == '.' {
            seq!['_']
        } else if p.last() == '[' || p.last() == ']' {
            seq![]
        } else {
            seq![p.last()]
        }
    }
}

/// The name of the enumeration defined for the strings at a path.
pub open spec fn enum_name(path: Seq<char>) -> Seq<char> {
    name_chars(path) + "Enum"@
}

/// The reference to the enumeration defined for the strings at a path.
pub open spec fn enum_ref(path: Seq<char>) -> Seq<char> {
    "#/$defs/"@ + enum_name(path)
}

/// The definition of the enumeration of the strings counted.
pub open spec fn enum_def(cs: CountsV) -> JsonV {
    JsonV::Object(
        seq![(kw_type(), JsonV::Str("string"@)), (kw_enum(), JsonV::Array(string_values(cs)))],
    )
}

/// The schema node of the values at `path`, counted in `cs`, given the
/// node's previous contents.
pub open spec fn leaf(node: JsonV, path: Seq<char>, cs: CountsV) -> JsonV {
    let n = with_dynamic(with_type(node, cs), cs);
    if enum_rule(cs) {
        jset(n, kw_ref(), JsonV::Str(enum_ref(path)))
    } else {
        n
    }
}

/// The schema of a new array: objects as items.
pub open spec fn array_node() -> JsonV {
    JsonV::Object(
        seq![(kw_type(), JsonV::Str("array"@)), (kw_items(), JsonV::Object(seq![(kw_type(), JsonV::Str("object"@))]))],
    )
}

/// The schema of a new object.
pub open spec fn object_node() -> JsonV {
    JsonV::Object(seq![(kw_type(), JsonV::Str("object"@))])
}

/// The schema every inference starts from.
pub open spec fn basic_schema() -> JsonV {
    JsonV::Object(
        seq![
            (kw_schema(), JsonV::Str(draft_uri())),
            (kw_id(), JsonV::Str(schema_id())),
            (kw_type(), JsonV::Str("object"@)),
            (kw_defs(), JsonV::Object(seq![])),
            (kw_properties(), JsonV::Object(seq![])),
        ],
    )
}

/// The part ends in `[]`.
pub open spec fn ends_brackets(part: Seq<char>) -> bool {
    part.len() >= 2 && part[part.len() - 2] == '[' && part[part.len() - 1] == ']'
}

/// The part without all its trailing `[]`.
pub open spec fn trim_brackets(part: Seq<char>) -> Seq<char>
    decreases part.len(),
{
    if ends_brackets(part) {
        trim_brackets(part.subrange(0, part.len() - 2))
    } else {
        part
    }
}

/// The parts of a path between its dots.
pub open spec fn split_dot(p: Seq<char>) -> Seq<Seq<char>>
    decreases p.len(),
{
    if p.len() == 0 {
        seq![seq![]]
    } else {
        let r = split_dot(p.drop_last());
        if p.last() == '.' {
            r.push(seq![])
        } else {
            r.update(r.len() - 1, r.last().push(p.last()))
        }
    }
}

/// Walks down `node` along `parts` (creating what is missing: `properties`,
/// an object schema for a part, an array schema for a part ending in `[]`,
/// whose `items` the walk enters) and updates the node reached with the
/// values at `path`.
pub open spec fn nav(node: JsonV, parts: Seq<Seq<char>>, path: Seq<char>, cs: CountsV) -> JsonV
    decreases parts.len(),
{
    if parts.len() == 0 {
        leaf(node, path, cs)
    } else {
        let node1 = if !is_object(jget(node, kw_properties())) {
            jset(node, kw_properties(), JsonV::Object(seq![]))
        } else {
            node
        };
        let props = jget(node1, kw_properties());
        let part = parts[0];
        if ends_brackets(part) {
            let base = trim_brackets(part);
            let props1 = if !is_object(jget(props, base)) {
                jset(props, base, array_node())
            } else {
                props
            };
            let arr = jget(props1, base);
            let items = nav(jget(arr, kw_items()), parts.drop_first(), path, cs);
            jset(node1, kw_properties(), jset(props1, base, jset(arr, kw_items(), items)))
        } else {
            let props1 = if !is_object(jget(props, part)) {
                jset(props, part, object_node())
            } else {
                props
            };
            let child = nav(jget(props1, part), parts.drop_first(), path, cs);
            jset(node1, kw_properties(), jset(props1, part, child))
        }
    }
}

/// Defines the enumeration of the strings at `path`, when the rule holds.
pub open spec fn defs_step(defs: JsonV, path: Seq<char>, cs: CountsV) -> JsonV {
    if enum_rule(cs) {
        jset(defs, enum_name(path), enum_def(cs))
    } else {
        defs
    }
}

/// The schema and definitions after the values at `path` are taken in.
pub open spec fn step(st: (JsonV, JsonV), path: Seq<char>, cs: CountsV) -> (JsonV, JsonV) {
    (nav(st.0, split_dot(path), path, cs), defs_step(st.1, path, cs))
}

/// The number of parts of a path.
pub open spec fn depth(path: Seq<char>) -> nat {
    split_dot(path).len()
}

/// Takes in the first `n` paths of the store that have `d` parts.
pub open spec fn level(st: (JsonV, JsonV), es: StoreV, d: nat, n: nat) -> (JsonV, JsonV)
    decreases n,
{
    if n == 0 || n > es.len() {
        st
    } else {
        let st1 = level(st, es, d, (n - 1) as nat);
        if depth(es[n - 1].0) == d {
            step(st1, es[n - 1].0, es[n - 1].1)
        } else {
            st1
        }
    }
}

/// Takes in the paths with `d` parts, then those with fewer, down to one:
/// deeper paths come first, so that what is kept of an object's properties
/// is decided after they are all known.
pub open spec fn sweep(st: (JsonV, JsonV), es: StoreV, d: nat) -> (JsonV, JsonV)
    decreases d,
{
    if d == 0 {
        st
    } else {
        sweep(level(st, es, d, es.len()), es, (d - 1) as nat)
    }
}

/// The most parts of any path of the store.
pub open spec fn max_depth(es: StoreV) -> nat
    decreases es.len(),
{
    if es.len() == 0 {
        0
    } else {
        let m = max_depth(es.drop_last());
        let d = depth(es.last().0);
        if d > m {
            d
        } else {
            m
        }
    }
}

/// The definitions hold something.
pub open spec fn has_defs(defs: JsonV) -> bool {
    defs matches JsonV::Object(ms) && ms.len() > 0
}

/// The schema inferred from a store.
pub open spec fn inferred_schema(es: StoreV) -> JsonV {
    let st = sweep((basic_schema(), JsonV::Object(seq![])), es, max_depth(es));
    if has_defs(st.1) {
        jset(st.0, kw_defs(), st.1)
    } else {
        st.0
    }
}

} // verus!
