//! The sniffer's store: for each path into the values added, the distinct
//! leaf values (and nested objects) seen there, with the number of times each
//! was seen.
use vstd::prelude::*;

use crate::nodes::infer_from_store;
use crate::schema::inferred_schema;
use crate::json::{lemma_members_model_index, copy_json, json_equal, lemma_pos_of, lemma_pos_of_at, lemma_pos_of_none, pos_of, JsonValue, JsonV};

verus! {

/// The values seen at one path, each with the number of times it was seen.
pub type CountsV = Seq<(JsonV, nat)>;

/// The model of the sniffer's store: the paths in the order first seen, each
/// with its counts.
pub type StoreV = Seq<(Seq<char>, CountsV)>;

/// The values seen at one path, with their counts.
#[derive(Debug)]
pub struct PathCounts {
    pub path: String,
    pub counts: Vec<(JsonValue, usize)>,
}

/// Accumulates the values seen at each path of the JSON values added to it.
#[derive(Debug)]
pub struct SchemaSniffer {
    value_counts: Vec<PathCounts>,
}

/// The model of a list of counts.
pub open spec fn counts_model(c: Vec<(JsonValue, usize)>) -> CountsV {
    Seq::new(c.len() as nat, |i: int| (c[i].0.model(), c[i].1 as nat))
}

/// The model of a store.
pub open spec fn store_model(v: Vec<PathCounts>) -> StoreV {
    Seq::new(v.len() as nat, |i: int| (v[i].path@, counts_model(v[i].counts)))
}

/// The sum of the counts of one path.
pub open spec fn counts_total(cs: CountsV) -> nat
    decreases cs.len(),
{
    if cs.len() == 0 {
        0
    } else {
        counts_total(cs.drop_last()) + cs.last().1
    }
}

/// The sum of all counts of a store.
pub open spec fn store_total(s: StoreV) -> nat
    decreases s.len(),
{
    if s.len() == 0 {
        0
    } else {
        store_total(s.drop_last()) + counts_total(s.last().1)
    }
}

/// No key of `s` occurs twice.
pub open spec fn keys_distinct<K, V>(s: Seq<(K, V)>) -> bool {
    forall|i: int, j: int| 0 <= i < j < s.len() ==> s[i].0 != s[j].0
}

/// A well-formed store: no path occurs twice, every path has a value, no
/// value occurs twice at a path, every count is at least one, and the counts
/// sum to a `usize`.
pub open spec fn store_wf(s: StoreV) -> bool {
    &&& keys_distinct(s)
    &&& forall|i: int| 0 <= i < s.len() ==> #[trigger] s[i].1.len() > 0
    &&& forall|i: int| 0 <= i < s.len() ==> keys_distinct(#[trigger] s[i].1)
    &&& forall|i: int, j: int| 0 <= i < s.len() && 0 <= j < s[i].1.len() ==> s[i].1[j].1 >= 1
    &&& store_total(s) <= usize::MAX
}

/// How many times `x` was seen at path `p`.
pub open spec fn count_of(s: StoreV, p: Seq<char>, x: JsonV) -> nat {
    let i = pos_of(s, p);
    if i < 0 {
        0
    } else {
        let j = pos_of(s[i].1, x);
        if j < 0 {
            0
        } else {
            s[i].1[j].1
        }
    }
}

/// The sightings of the first paths are part of all of them.
pub proof fn lemma_store_total_prefix(s: StoreV, i: int)
    requires
        0 <= i <= s.len(),
    ensures
        store_total(s.take(i)) <= store_total(s),
    decreases s.len() - i,
{
    if i < s.len() {
        assert(s.take(i + 1).drop_last() =~= s.take(i));
        lemma_store_total_prefix(s, i + 1);
    } else {
        assert(s.take(i) =~= s);
    }
}

/// One more sighting of `v` in a list of counts.
pub open spec fn bump(cs: CountsV, v: JsonV) -> CountsV {
    let j = pos_of(cs, v);
    if j >= 0 {
        cs.update(j, (v, cs[j].1 + 1))
    } else {
        cs.push((v, 1))
    }
}

/// Records one sighting of `v` at path `p`.
pub open spec fn add_record(s: StoreV, p: Seq<char>, v: JsonV) -> StoreV {
    let i = pos_of(s, p);
    if i >= 0 {
        s.update(i, (p, bump(s[i].1, v)))
    } else {
        s.push((p, seq![(v, 1nat)]))
    }
}

/// The path of the member `key` under `path`.
pub open spec fn join_key(path: Seq<char>, key: Seq<char>) -> Seq<char> {
    if path.len() == 0 {
        key
    } else {
        path + seq!['.'] + key
    }
}

/// The path of the items of the array at `path`.
pub open spec fn items_path(path: Seq<char>) -> Seq<char> {
    path + seq!['[', ']']
}

/// Records every value in `v`, found at `path`: scalars, and objects other
/// than the top-level value; arrays are not recorded but their items are,
/// at `path[]`.
pub open spec fn acc(s: StoreV, path: Seq<char>, v: JsonV, top: bool) -> StoreV
    decreases v, 1nat, 0nat,
{
    match v {
        JsonV::Object(ms) => acc_members(
            if top {
                s
            } else {
                add_record(s, path, v)
            },
            path,
            v,
            ms.len(),
        ),
        JsonV::Array(es) => acc_elems(s, items_path(path), v, es.len()),
        _ => add_record(s, path, v),
    }
}

/// Records the first `n` members of the object `v`.
pub open spec fn acc_members(s: StoreV, path: Seq<char>, v: JsonV, n: nat) -> StoreV
    decreases v, 0nat, n,
{
    match v {
        JsonV::Object(ms) => if n == 0 || n > ms.len() {
            s
        } else {
            acc(
                acc_members(s, path, v, (n - 1) as nat),
                join_key(path, ms[n - 1].0),
                ms[n - 1].1,
                false,
            )
        },
        _ => s,
    }
}

/// Records the first `n` elements of the array `v`, all at `ipath`.
pub open spec fn acc_elems(s: StoreV, ipath: Seq<char>, v: JsonV, n: nat) -> StoreV
    decreases v, 0nat, n,
{
    match v {
        JsonV::Array(es) => if n == 0 || n > es.len() {
            s
        } else {
            acc(acc_elems(s, ipath, v, (n - 1) as nat), ipath, es[n - 1], false)
        },
        _ => s,
    }
}

/// The number of sightings that recording `v` adds.
pub open spec fn nrec(v: JsonV, top: bool) -> nat
    decreases v, 1nat, 0nat,
{
    match v {
        JsonV::Object(ms) => (if top {
            0nat
        } else {
            1nat
        }) + nrec_members(v, ms.len()),
        JsonV::Array(es) => nrec_elems(v, es.len()),
        _ => 1,
    }
}

/// The number of sightings that recording the first `n` members of `v` adds.
pub open spec fn nrec_members(v: JsonV, n: nat) -> nat
    decreases v, 0nat, n,
{
    match v {
        JsonV::Object(ms) => if n == 0 || n > ms.len() {
            0
        } else {
            nrec_members(v, (n - 1) as nat) + nrec(ms[n - 1].1, false)
        },
        _ => 0,
    }
}

/// The number of sightings that recording the first `n` elements of `v` adds.
pub open spec fn nrec_elems(v: JsonV, n: nat) -> nat
    decreases v, 0nat, n,
{
    match v {
        JsonV::Array(es) => if n == 0 || n > es.len() {
            0
        } else {
            nrec_elems(v, (n - 1) as nat) + nrec(es[n - 1], false)
        },
        _ => 0,
    }
}

/// The sum of the counts after one is replaced.
pub proof fn lemma_counts_total_update(cs: CountsV, j: int, e: (JsonV, nat))
    requires
        0 <= j < cs.len(),
    ensures
        counts_total(cs.update(j, e)) == counts_total(cs) - cs[j].1 + e.1,
    decreases cs.len(),
{
    let u = cs.update(j, e);
    if j == cs.len() - 1 {
        assert(u.drop_last() =~= cs.drop_last());
    } else {
        assert(u.drop_last() =~= cs.drop_last().update(j, e));
        lemma_counts_total_update(cs.drop_last(), j, e);
    }
}

/// The sum of the counts after one more is appended.
pub proof fn lemma_counts_total_push(cs: CountsV, e: (JsonV, nat))
    ensures
        counts_total(cs.push(e)) == counts_total(cs) + e.1,
{
    assert(cs.push(e).drop_last() =~= cs);
}

/// A count is at most the sum of the counts.
pub proof fn lemma_count_le_total(cs: CountsV, j: int)
    requires
        0 <= j < cs.len(),
    ensures
        cs[j].1 <= counts_total(cs),
    decreases cs.len(),
{
    if j < cs.len() - 1 {
        lemma_count_le_total(cs.drop_last(), j);
    }
}

/// The total of a store after the counts of one path are replaced.
pub proof fn lemma_store_total_update(s: StoreV, i: int, e: (Seq<char>, CountsV))
    requires
        0 <= i < s.len(),
    ensures
        store_total(s.update(i, e)) == store_total(s) - counts_total(s[i].1) + counts_total(e.1),
    decreases s.len(),
{
    let u = s.update(i, e);
    if i == s.len() - 1 {
        assert(u.drop_last() =~= s.drop_last());
    } else {
        assert(u.drop_last() =~= s.drop_last().update(i, e));
        lemma_store_total_update(s.drop_last(), i, e);
    }
}

/// The total of a store after a path is appended.
pub proof fn lemma_store_total_push(s: StoreV, e: (Seq<char>, CountsV))
    ensures
        store_total(s.push(e)) == store_total(s) + counts_total(e.1),
{
    assert(s.push(e).drop_last() =~= s);
}

/// The counts of one path sum to at most the store's total.
pub proof fn lemma_path_total_le(s: StoreV, i: int)
    requires
        0 <= i < s.len(),
    ensures
        counts_total(s[i].1) <= store_total(s),
    decreases s.len(),
{
    if i < s.len() - 1 {
        lemma_path_total_le(s.drop_last(), i);
    }
}

/// One sighting adds one to the total.
pub proof fn lemma_add_record_total(s: StoreV, p: Seq<char>, v: JsonV)
    ensures
        store_total(add_record(s, p, v)) == store_total(s) + 1,
{
    lemma_pos_of(s, p);
    let i = pos_of(s, p);
    if i >= 0 {
        let cs = s[i].1;
        lemma_pos_of(cs, v);
        let j = pos_of(cs, v);
        if j >= 0 {
            lemma_counts_total_update(cs, j, (v, cs[j].1 + 1));
        } else {
            lemma_counts_total_push(cs, (v, 1));
        }
        lemma_store_total_update(s, i, (p, bump(cs, v)));
    } else {
        lemma_store_total_push(s, (p, seq![(v, 1nat)]));
        let one = seq![(v, 1nat)];
        assert(one.drop_last() =~= Seq::<(JsonV, nat)>::empty());
        assert(counts_total(one.drop_last()) == 0);
        assert(one.last().1 == 1);
        assert(counts_total(one) == 1);
    }
}

/// Recording a sighting keeps a store well-formed, while its total fits.
pub proof fn lemma_add_record_wf(s: StoreV, p: Seq<char>, v: JsonV)
    requires
        store_wf(s),
        store_total(s) + 1 <= usize::MAX,
    ensures
        store_wf(add_record(s, p, v)),
{
    lemma_add_record_total(s, p, v);
    lemma_pos_of(s, p);
    let i = pos_of(s, p);
    let s2 = add_record(s, p, v);
    if i >= 0 {
        let cs = s[i].1;
        lemma_pos_of(cs, v);
        let cs2 = bump(cs, v);
        assert(keys_distinct(cs));
        assert forall|a: int, b: int| 0 <= a < b < cs2.len() implies cs2[a].0 != cs2[b].0 by {
            if pos_of(cs, v) < 0 && b == cs.len() {
                assert(cs[a].0 != v);
            }
        }
        assert forall|a: int| 0 <= a < s2.len() implies keys_distinct(#[trigger] s2[a].1) by {
            if a != i {
                assert(s2[a] == s[a]);
            }
        }
        assert forall|a: int, b: int| 0 <= a < s2.len() && 0 <= b < s2[a].1.len() implies s2[a].1[b].1 >= 1 by {
            if a != i {
                assert(s2[a] == s[a]);
            }
        }
        assert forall|a: int| 0 <= a < s2.len() implies #[trigger] s2[a].1.len() > 0 by {
            if a != i {
                assert(s2[a] == s[a]);
            }
        }
    } else {
        assert forall|a: int, b: int| 0 <= a < b < s2.len() implies s2[a].0 != s2[b].0 by {
            if b == s.len() {
                assert(s[a].0 != p);
            }
        }
        assert forall|a: int| 0 <= a < s2.len() implies keys_distinct(#[trigger] s2[a].1) by {
            if a < s.len() {
                assert(s2[a] == s[a]);
            }
        }
        assert forall|a: int, b: int| 0 <= a < s2.len() && 0 <= b < s2[a].1.len() implies s2[a].1[b].1 >= 1 by {
            if a < s.len() {
                assert(s2[a] == s[a]);
            }
        }
        assert forall|a: int| 0 <= a < s2.len() implies #[trigger] s2[a].1.len() > 0 by {
            if a < s.len() {
                assert(s2[a] == s[a]);
            }
        }
    }
}

/// Records one more sighting of `v` in a list of counts.
#[verifier::loop_isolation(false)]
fn bump_counts(counts: &mut Vec<(JsonValue, usize)>, v: &JsonValue)
    requires
        counts_total(counts_model(*old(counts))) + 1 <= usize::MAX,
    ensures
        counts_model(*final(counts)) == bump(counts_model(*old(counts)), v.model()),
{
    let ghost cm = counts_model(*counts);
    let mut j: usize = 0;
    while j < counts.len()
        invariant
            j <= counts.len(),
            cm == counts_model(*counts),
            forall|t: int| 0 <= t < j ==> cm[t].0 != v.model(),
        decreases counts.len() - j,
    {
        if json_equal(&counts[j].0, v) {
            proof {
                lemma_pos_of_at(cm, v.model(), j as int);
                lemma_count_le_total(cm, j as int);
            }
            let (x, c) = counts.remove(j);
            counts.insert(j, (x, c + 1));
            assert(counts_model(*counts) =~= cm.update(j as int, (v.model(), cm[j as int].1 + 1)));
            return;
        }
        j = j + 1;
    }
    proof {
        lemma_pos_of_none(cm, v.model());
    }
    counts.push((copy_json(v), 1));
    assert(counts_model(*counts) =~= cm.push((v.model(), 1)));
}

/// Records one sighting of `v` at `path`.
#[verifier::loop_isolation(false)]
fn record(store: &mut Vec<PathCounts>, path: &String, v: &JsonValue)
    requires
        store_total(store_model(*old(store))) + 1 <= usize::MAX,
    ensures
        store_model(*final(store)) == add_record(store_model(*old(store)), path@, v.model()),
{
    let ghost sm = store_model(*store);
    let mut i: usize = 0;
    while i < store.len()
        invariant
            i <= store.len(),
            sm == store_model(*store),
            forall|t: int| 0 <= t < i ==> sm[t].0 != path@,
        decreases store.len() - i,
    {
        if store[i].path == *path {
            proof {
                lemma_pos_of_at(sm, path@, i as int);
                lemma_path_total_le(sm, i as int);
            }
            let mut pc = store.remove(i);
            bump_counts(&mut pc.counts, v);
            store.insert(i, pc);
            assert(store_model(*store) =~= sm.update(i as int, (path@, bump(sm[i as int].1, v.model()))));
            return;
        }
        i = i + 1;
    }
    proof {
        lemma_pos_of_none(sm, path@);
    }
    let counts = vec![(copy_json(v), 1usize)];
    assert(counts_model(counts) =~= seq![(v.model(), 1nat)]);
    store.push(PathCounts { path: path.clone(), counts });
    assert(store_model(*store) =~= sm.push((path@, seq![(v.model(), 1nat)])));
}

/// Recording `v` adds `nrec(v, top)` to the total, and keeps a store
/// well-formed while the total fits.
pub proof fn lemma_acc(s: StoreV, path: Seq<char>, v: JsonV, top: bool)
    ensures
        store_total(acc(s, path, v, top)) == store_total(s) + nrec(v, top),
        store_wf(s) && store_total(s) + nrec(v, top) <= usize::MAX ==> store_wf(acc(s, path, v, top)),
    decreases v, 1nat, 0nat,
{
    match v {
        JsonV::Object(ms) => {
            let s1 = if top {
                s
            } else {
                add_record(s, path, v)
            };
            if !top {
                lemma_add_record_total(s, path, v);
                if store_wf(s) && store_total(s) + nrec(v, top) <= usize::MAX {
                    lemma_add_record_wf(s, path, v);
                }
            }
            lemma_acc_members(s1, path, v, ms.len());
        },
        JsonV::Array(es) => {
            lemma_acc_elems(s, items_path(path), v, es.len());
        },
        _ => {
            lemma_add_record_total(s, path, v);
            if store_wf(s) && store_total(s) + 1 <= usize::MAX {
                lemma_add_record_wf(s, path, v);
            }
        },
    }
}

/// `lemma_acc` for the first `n` members of an object.
pub proof fn lemma_acc_members(s: StoreV, path: Seq<char>, v: JsonV, n: nat)
    ensures
        store_total(acc_members(s, path, v, n)) == store_total(s) + nrec_members(v, n),
        store_wf(s) && store_total(s) + nrec_members(v, n) <= usize::MAX ==> store_wf(
            acc_members(s, path, v, n),
        ),
    decreases v, 0nat, n,
{
    match v {
        JsonV::Object(ms) => {
            if n > 0 && n <= ms.len() {
                lemma_acc_members(s, path, v, (n - 1) as nat);
                lemma_acc(
                    acc_members(s, path, v, (n - 1) as nat),
                    join_key(path, ms[n - 1].0),
                    ms[n - 1].1,
                    false,
                );
            }
        },
        _ => {},
    }
}

/// `lemma_acc` for the first `n` elements of an array.
pub proof fn lemma_acc_elems(s: StoreV, ipath: Seq<char>, v: JsonV, n: nat)
    ensures
        store_total(acc_elems(s, ipath, v, n)) == store_total(s) + nrec_elems(v, n),
        store_wf(s) && store_total(s) + nrec_elems(v, n) <= usize::MAX ==> store_wf(
            acc_elems(s, ipath, v, n),
        ),
    decreases v, 0nat, n,
{
    match v {
        JsonV::Array(es) => {
            if n > 0 && n <= es.len() {
                lemma_acc_elems(s, ipath, v, (n - 1) as nat);
                lemma_acc(acc_elems(s, ipath, v, (n - 1) as nat), ipath, es[n - 1], false);
            }
        },
        _ => {},
    }
}

/// The sightings of the first `n` members grow with `n`.
pub(crate) proof fn lemma_nrec_members_mono(v: JsonV, n: nat, m: nat)
    requires
        n <= m,
        v matches JsonV::Object(ms) && m <= ms.len(),
    ensures
        nrec_members(v, n) <= nrec_members(v, m),
    decreases m - n,
{
    if n < m {
        lemma_nrec_members_mono(v, n, (m - 1) as nat);
    }
}

/// The sightings of the first `n` elements grow with `n`.
pub(crate) proof fn lemma_nrec_elems_mono(v: JsonV, n: nat, m: nat)
    requires
        n <= m,
        v matches JsonV::Array(es) && m <= es.len(),
    ensures
        nrec_elems(v, n) <= nrec_elems(v, m),
    decreases m - n,
{
    if n < m {
        lemma_nrec_elems_mono(v, n, (m - 1) as nat);
    }
}

/// Records every value in `value`, found at `path` (see `acc`).
#[verifier::loop_isolation(false)]
fn accumulate_counts(store: &mut Vec<PathCounts>, path: &String, value: &JsonValue, top: bool)
    requires
        store_total(store_model(*old(store))) + nrec(value.model(), top) <= usize::MAX,
    ensures
        store_model(*final(store)) == acc(store_model(*old(store)), path@, value.model(), top),
    decreases value,
{
    let ghost s0 = store_model(*store);
    let ghost vm = value.model();
    match value {
        JsonValue::Object(ms) => {
            let ghost mm = JsonValue::members_model(*ms);
            if !top {
                proof {
                    lemma_add_record_total(s0, path@, vm);
                }
                record(store, path, value);
            }
            let ghost s1 = store_model(*store);
            proof {
                lemma_acc_members(s1, path@, vm, mm.len());
            }
            let mut i: usize = 0;
            while i < ms.len()
                invariant
                    i <= ms.len(),
                    mm.len() == ms.len(),
                    store_model(*store) == acc_members(s1, path@, vm, i as nat),
                decreases ms.len() - i,
            {
                proof {
                    lemma_members_model_index(*ms, i as int);
                    lemma_acc_members(s1, path@, vm, i as nat);
                    lemma_nrec_members_mono(vm, (i + 1) as nat, mm.len());
                    broadcast use vstd::std_specs::vec::axiom_vec_index_decreases;
                    assert(decreases_to!(*value => *ms));
                }
                let key = &ms[i].0;
                let np = if path.as_str().is_empty() {
                    key.clone()
                } else {
                    let mut p = path.clone();
                    p.append(".");
                    p.append(key.as_str());
                    proof {
                        reveal_strlit(".");
                    }
                    p
                };
                assert(np@ == join_key(path@, mm[i as int].0));
                accumulate_counts(store, &np, &ms[i].1, false);
                i = i + 1;
            }
        },
        JsonValue::Array(es) => {
            let ghost em = JsonValue::elems_model(*es);
            if es.len() > 0 {
                let mut np = path.clone();
                np.append("[]");
                proof {
                    reveal_strlit("[]");
                }
                assert(np@ == items_path(path@));
                let mut i: usize = 0;
                while i < es.len()
                    invariant
                        i <= es.len(),
                        em.len() == es.len(),
                        np@ == items_path(path@),
                        store_model(*store) == acc_elems(s0, items_path(path@), vm, i as nat),
                    decreases es.len() - i,
                {
                    proof {
                        lemma_acc_elems(s0, items_path(path@), vm, i as nat);
                        lemma_nrec_elems_mono(vm, (i + 1) as nat, em.len());
                        broadcast use vstd::std_specs::vec::axiom_vec_index_decreases;
                        assert(decreases_to!(*value => *es));
                        assert(em[i as int] == es[i as int].model());
                    }
                    accumulate_counts(store, &np, &es[i], false);
                    i = i + 1;
                }
            }
        },
        _ => {
            record(store, path, value);
        },
    }
}

impl Default for SchemaSniffer {
    /// A sniffer that has seen no value.
    fn default() -> (r: Self)
        ensures
            r@ == Seq::<(Seq<char>, CountsV)>::empty(),
    {
        SchemaSniffer::new()
    }
}

impl View for SchemaSniffer {
    type V = StoreV;

    closed spec fn view(&self) -> StoreV {
        store_model(self.value_counts)
    }
}

impl SchemaSniffer {
    /// The store is well-formed.
    #[verifier::type_invariant]
    spec fn inv(self) -> bool {
        store_wf(store_model(self.value_counts))
    }

    /// A sniffer that has seen no value.
    pub fn new() -> (r: Self)
        ensures
            r@ == Seq::<(Seq<char>, CountsV)>::empty(),
    {
        let r = SchemaSniffer { value_counts: Vec::new() };
        assert(store_model(r.value_counts) =~= Seq::<(Seq<char>, CountsV)>::empty());
        r
    }

    /// Records every scalar of `value`, and every object nested in it, at its
    /// path: member `k` of the value at path `p` is at `p.k` (or `k` at the
    /// top), the items of an array at `p` are at `p[]`.
    pub fn add_value(&mut self, value: &JsonValue)
        requires
            store_total(old(self)@) + nrec(value.model(), true) <= usize::MAX,
        ensures
            final(self)@ == acc(old(self)@, Seq::empty(), value.model(), true),
    {
        proof {
            use_type_invariant(&*self);
            lemma_acc(self@, Seq::empty(), value.model(), true);
        }
        let mut store: Vec<PathCounts> = Vec::new();
        std::mem::swap(&mut store, &mut self.value_counts);
        let path = String::new();
        accumulate_counts(&mut store, &path, value, true);
        self.value_counts = store;
    }

    /// The JSON Schema (draft 2020-12) inferred from the values added: each
    /// path gets a node typed by the types of the values seen there; strings
    /// that repeat enough become an enumeration in `$defs`; objects whose keys
    /// vary keep only the keys present in all of them and allow others.
    pub fn infer_schema(&self) -> (r: JsonValue)
        ensures
            r.model() == inferred_schema(self@),
    {
        proof {
            use_type_invariant(self);
        }
        infer_from_store(&self.value_counts)
    }

    /// The number of sightings recorded so far.
    pub fn total_sightings(&self) -> (r: usize)
        ensures
            r == store_total(self@),
    {
        proof {
            use_type_invariant(self);
        }
        let ghost sm = self@;
        let mut n: usize = 0;
        let mut i: usize = 0;
        assert(sm.take(0) =~= Seq::<(Seq<char>, CountsV)>::empty());
        while i < self.value_counts.len()
            invariant
                i <= self.value_counts.len(),
                sm == store_model(self.value_counts),
                store_wf(sm),
                n == store_total(sm.take(i as int)),
            decreases self.value_counts.len() - i,
        {
            proof {
                assert(sm.take(i as int + 1).drop_last() =~= sm.take(i as int));
                lemma_store_total_prefix(sm, i as int + 1);
                lemma_path_total_le(sm, i as int);
            }
            let c = crate::nodes::counts_sum(&self.value_counts[i].counts);
            n = n + c;
            i = i + 1;
        }
        assert(sm.take(self.value_counts.len() as int) =~= sm);
        n
    }

    /// Adds `value` (as `add_value` does) when the sightings it brings still
    /// fit a `usize`; otherwise leaves the sniffer as it was and says so.
    pub fn try_add_value(&mut self, value: &JsonValue) -> (r: bool)
        ensures
            r == (store_total(old(self)@) + nrec(value.model(), true) <= usize::MAX),
            r ==> final(self)@ == acc(old(self)@, Seq::empty(), value.model(), true),
            !r ==> final(self)@ == old(self)@,
    {
        let total = self.total_sightings();
        match crate::validate::value_sightings(value, true) {
            Some(k) => {
                match total.checked_add(k) {
                    Some(_) => {
                        self.add_value(value);
                        true
                    },
                    None => false,
                }
            },
            None => false,
        }
    }

    /// How many times `value` was seen at `path`.
    pub fn times_seen(&self, path: &str, value: &JsonValue) -> (r: usize)
        ensures
            r == count_of(self@, path@, value.model()),
    {
        proof {
            use_type_invariant(self);
        }
        let ghost sm = self@;
        let key: String = path.to_string();
        proof {
            broadcast use vstd::string::to_string_from_display_ensures_for_str;
        }
        assert(key@ == path@);
        let mut i: usize = 0;
        while i < self.value_counts.len()
            invariant
                i <= self.value_counts.len(),
                sm == store_model(self.value_counts),
                key@ == path@,
                forall|t: int| 0 <= t < i ==> sm[t].0 != path@,
            decreases self.value_counts.len() - i,
        {
            if self.value_counts[i].path == key {
                proof {
                    lemma_pos_of_at(sm, path@, i as int);
                }
                let counts = &self.value_counts[i].counts;
                let ghost cm = sm[i as int].1;
                assert(cm == counts_model(*counts));
                let mut j: usize = 0;
                while j < counts.len()
                    invariant
                        j <= counts.len(),
                        cm == counts_model(*counts),
                        i < sm.len(),
                        sm == self@,
                        pos_of(sm, path@) == i as int,
                        cm == sm[i as int].1,
                        forall|t: int| 0 <= t < j ==> cm[t].0 != value.model(),
                    decreases counts.len() - j,
                {
                    if json_equal(&counts[j].0, value) {
                        proof {
                            lemma_pos_of_at(cm, value.model(), j as int);
                        }
                        return counts[j].1;
                    }
                    j = j + 1;
                }
                proof {
                    lemma_pos_of_none(cm, value.model());
                }
                return 0;
            }
            i = i + 1;
        }
        proof {
            lemma_pos_of_none(sm, path@);
        }
        0
    }
}

} // verus!
