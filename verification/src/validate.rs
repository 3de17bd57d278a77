//! A validator for the schema inferred from some values: the schema is
//! converted into a `serde_json` value and compiled by `jsonschema`.
use vstd::prelude::*;

use crate::float_free::{float_free, lemma_inferred_float_free};
use crate::json::{JsonNumber, JsonValue, JsonV};
use crate::schema::inferred_schema;
use crate::sniffer::{
    acc, lemma_acc, lemma_nrec_elems_mono, lemma_nrec_members_mono, nrec, nrec_elems,
    nrec_members, store_total, SchemaSniffer, StoreV,
};
use crate::json::lemma_members_model_index;

verus! {

/// A JSON value of `serde_json`.
#[verifier::external_type_specification]
#[verifier::external_body]
pub struct ExJsonValue(serde_json::Value);

/// An error of `jsonschema`.
#[verifier::external_type_specification]
#[verifier::external_body]
pub struct ExValidationError<'a>(jsonschema::ValidationError<'a>);

/// A compiled `jsonschema::Validator`, carried through as it is: what it
/// accepts is `jsonschema`'s to decide.
#[verifier::external_body]
pub struct CompiledSchema(pub jsonschema::Validator);

/// A validator, with the schema it was compiled from.
pub struct SchemaValidator {
    /// What `jsonschema::validator_for` gave for the schema.
    pub compiled: CompiledSchema,
    source: Ghost<JsonV>,
}

impl SchemaValidator {
    /// The schema this validator was compiled from.
    pub closed spec fn source(&self) -> JsonV {
        self.source@
    }
}

/// Whether `jsonschema::validator_for` accepts a schema (given as the
/// `serde_json` value with the same members, elements and scalars).
pub uninterp spec fn jsonschema_compiles(schema: JsonV) -> bool;

/// The `serde_json` value with the same members (in order), elements and
/// scalars as `v`. There is no number with a fraction in `v`, so the arm for
/// one is never taken.
#[verifier::external_body]
fn serde_value_of(v: &JsonValue) -> (r: serde_json::Value)
    requires
        float_free(v.model()),
{
    match v {
        JsonValue::Null => serde_json::Value::Null,
        JsonValue::Bool(b) => serde_json::Value::Bool(*b),
        JsonValue::Number(JsonNumber::PosInt(u)) => serde_json::Value::from(*u),
        JsonValue::Number(JsonNumber::NegInt(i)) => serde_json::Value::from(*i),
        JsonValue::Number(JsonNumber::Float(_)) => serde_json::Value::Null,
        JsonValue::String(s) => serde_json::Value::String(s.clone()),
        JsonValue::Array(es) => serde_json::Value::Array(es.iter().map(serde_value_of).collect()),
        JsonValue::Object(ms) => serde_json::Value::Object(
            ms.iter().map(|m| (m.0.clone(), serde_value_of(&m.1))).collect(),
        ),
    }
}

/// Compiles a schema with `jsonschema::validator_for`, given the `serde_json`
/// value of the schema. Whether that succeeds is a function of the schema
/// alone (no remote retrieval is built in); the validator returned carries the
/// schema it was compiled from. What it accepts is not stated.
#[verifier::external_body]
fn compile_schema(schema: &JsonValue) -> (r: Result<SchemaValidator, jsonschema::ValidationError<'static>>)
    requires
        float_free(schema.model()),
    ensures
        r is Ok == jsonschema_compiles(schema.model()),
        r matches Ok(v) ==> v.source() == schema.model(),
{
    let source = Ghost(schema.model());
    jsonschema::validator_for(&serde_value_of(schema))
        .map(|v| SchemaValidator { compiled: CompiledSchema(v), source })
}

/// The models of a list of values.
pub open spec fn values_model(v: Vec<JsonValue>) -> Seq<JsonV> {
    Seq::new(v.len() as nat, |i: int| v[i].model())
}

/// The store after the values are added in order to an empty sniffer.
pub open spec fn sniff_all(vs: Seq<JsonV>) -> StoreV
    decreases vs.len(),
{
    if vs.len() == 0 {
        Seq::empty()
    } else {
        acc(sniff_all(vs.drop_last()), Seq::empty(), vs.last(), true)
    }
}

/// The sightings that adding the values records.
pub open spec fn nrec_all(vs: Seq<JsonV>) -> nat
    decreases vs.len(),
{
    if vs.len() == 0 {
        0
    } else {
        nrec_all(vs.drop_last()) + nrec(vs.last(), true)
    }
}

/// The schema inferred from the values, added in order.
pub open spec fn schema_of_values(vs: Seq<JsonV>) -> JsonV {
    inferred_schema(sniff_all(vs))
}

/// The sightings recorded grow with the values.
proof fn lemma_nrec_all_prefix(vs: Seq<JsonV>, i: int)
    requires
        0 <= i <= vs.len(),
    ensures
        nrec_all(vs.take(i)) <= nrec_all(vs),
    decreases vs.len() - i,
{
    if i < vs.len() {
        assert(vs.take(i + 1).drop_last() =~= vs.take(i));
        lemma_nrec_all_prefix(vs, i + 1);
    } else {
        assert(vs.take(i) =~= vs);
    }
}

/// The result for the schema inferred: the validator with the schema, or the
/// error the compilation gave.
pub fn finish_validation(
    compiled: Result<SchemaValidator, jsonschema::ValidationError<'static>>,
    schema: JsonValue,
) -> (r: Result<(SchemaValidator, JsonValue), jsonschema::ValidationError<'static>>)
    ensures
        r == (match compiled {
            Ok(v) => Ok((v, schema)),
            Err(e) => Err(e),
        }),
{
    match compiled {
        Ok(v) => Ok((v, schema)),
        Err(e) => Err(e),
    }
}

/// Infers a schema from the values (added in order to a new sniffer) and
/// compiles it: gives the validator and the schema, or why `jsonschema` did
/// not accept the schema.
pub fn validate_with_inferred_schema(values: Vec<JsonValue>) -> (r: Result<(SchemaValidator, JsonValue), jsonschema::ValidationError<'static>>)
    requires
        nrec_all(values_model(values)) <= usize::MAX,
    ensures
        r is Ok <==> jsonschema_compiles(schema_of_values(values_model(values))),
        r matches Ok((v, s)) ==> s.model() == schema_of_values(values_model(values))
            && v.source() == s.model(),
{
    let ghost vm = values_model(values);
    let mut sniffer = SchemaSniffer::new();
    let mut i: usize = 0;
    assert(vm.take(0) =~= Seq::<JsonV>::empty());
    while i < values.len()
        invariant
            i <= values.len(),
            vm == values_model(values),
            nrec_all(vm) <= usize::MAX,
            sniffer@ == sniff_all(vm.take(i as int)),
            store_total(sniffer@) == nrec_all(vm.take(i as int)),
        decreases values.len() - i,
    {
        proof {
            assert(vm.take(i as int + 1).drop_last() =~= vm.take(i as int));
            assert(vm.take(i as int + 1).last() == values[i as int].model());
            lemma_nrec_all_prefix(vm, i as int + 1);
            lemma_acc(sniffer@, Seq::empty(), values[i as int].model(), true);
        }
        sniffer.add_value(&values[i]);
        i = i + 1;
    }
    assert(vm.take(values.len() as int) =~= vm);
    let schema = sniffer.infer_schema();
    proof {
        lemma_inferred_float_free(sniffer@);
    }
    let compiled = compile_schema(&schema);
    finish_validation(compiled, schema)
}

/// The sightings that recording `v` adds, or `None` when they exceed a `usize`.
#[verifier::loop_isolation(false)]
pub(crate) fn value_sightings(v: &JsonValue, top: bool) -> (r: Option<usize>)
    ensures
        r matches Some(n) ==> n == nrec(v.model(), top),
        r is None ==> nrec(v.model(), top) > usize::MAX,
    decreases v,
{
    let ghost vm = v.model();
    match v {
        JsonValue::Object(ms) => {
            let ghost mm = JsonValue::members_model(*ms);
            let mut n: usize = if top { 0 } else { 1 };
            let mut i: usize = 0;
            while i < ms.len()
                invariant
                    i <= ms.len(),
                    mm.len() == ms.len(),
                    n == (if top { 0nat } else { 1nat }) + nrec_members(vm, i as nat),
                decreases ms.len() - i,
            {
                proof {
                    lemma_members_model_index(*ms, i as int);
                    broadcast use vstd::std_specs::vec::axiom_vec_index_decreases;
                    assert(decreases_to!(*v => *ms));
                }
                match value_sightings(&ms[i].1, false) {
                    Some(k) => {
                        match n.checked_add(k) {
                            Some(t) => {
                                n = t;
                            },
                            None => {
                                proof {
                                    lemma_nrec_members_mono(vm, (i + 1) as nat, mm.len());
                                }
                                return None;
                            },
                        }
                    },
                    None => {
                        proof {
                            lemma_nrec_members_mono(vm, (i + 1) as nat, mm.len());
                        }
                        return None;
                    },
                }
                i = i + 1;
            }
            Some(n)
        },
        JsonValue::Array(es) => {
            let ghost em = JsonValue::elems_model(*es);
            let mut n: usize = 0;
            let mut i: usize = 0;
            while i < es.len()
                invariant
                    i <= es.len(),
                    em.len() == es.len(),
                    n == nrec_elems(vm, i as nat),
                decreases es.len() - i,
            {
                proof {
                    assert(em[i as int] == es[i as int].model());
                    broadcast use vstd::std_specs::vec::axiom_vec_index_decreases;
                    assert(decreases_to!(*v => *es));
                }
                match value_sightings(&es[i], false) {
                    Some(k) => {
                        match n.checked_add(k) {
                            Some(t) => {
                                n = t;
                            },
                            None => {
                                proof {
                                    lemma_nrec_elems_mono(vm, (i + 1) as nat, em.len());
                                }
                                return None;
                            },
                        }
                    },
                    None => {
                        proof {
                            lemma_nrec_elems_mono(vm, (i + 1) as nat, em.len());
                        }
                        return None;
                    },
                }
                i = i + 1;
            }
            Some(n)
        },
        _ => Some(1),
    }
}

/// The sightings that adding all the values records (the bound that
/// `validate_with_inferred_schema` asks for), or `None` when they exceed a
/// `usize`.
pub fn sightings(values: &Vec<JsonValue>) -> (r: Option<usize>)
    ensures
        r matches Some(n) ==> n == nrec_all(values_model(*values)),
        r is None ==> nrec_all(values_model(*values)) > usize::MAX,
{
    let ghost vm = values_model(*values);
    let mut n: usize = 0;
    let mut i: usize = 0;
    assert(vm.take(0) =~= Seq::<JsonV>::empty());
    while i < values.len()
        invariant
            i <= values.len(),
            vm == values_model(*values),
            n == nrec_all(vm.take(i as int)),
        decreases values.len() - i,
    {
        assert(vm.take(i as int + 1).drop_last() =~= vm.take(i as int));
        assert(vm.take(i as int + 1).last() == values[i as int].model());
        match value_sightings(&values[i], true) {
            Some(k) => match n.checked_add(k) {
                Some(t) => {
                    n = t;
                },
                None => {
                    proof {
                        lemma_nrec_all_prefix(vm, i as int + 1);
                    }
                    return None;
                },
            },
            None => {
                proof {
                    lemma_nrec_all_prefix(vm, i as int + 1);
                }
                return None;
            },
        }
        i = i + 1;
    }
    assert(vm.take(values.len() as int) =~= vm);
    Some(n)
}

} // verus!
