//! Static and dynamic object properties: a key is static when it is present
//! in every value seen at a path, and an object is dynamic when some key is
//! missing from some of them.
use vstd::prelude::*;

use crate::json::{find_member, lemma_members_model_index, lemma_pos_of, lemma_pos_of_at, lemma_pos_of_none, pos_of, JsonValue, JsonV};
use crate::sniffer::{counts_model, counts_total, CountsV, SchemaSniffer};

verus! {

/// `v` is an object with a member `k`.
pub open spec fn obj_has_key(v: JsonV, k: Seq<char>) -> bool {
    v matches JsonV::Object(ms) && pos_of(ms, k) >= 0
}

/// How many of the values counted in `cs` are objects with a member `k`.
pub open spec fn key_count(cs: CountsV, k: Seq<char>) -> nat
    decreases cs.len(),
{
    if cs.len() == 0 {
        0
    } else {
        key_count(cs.drop_last(), k) + if obj_has_key(cs.last().0, k) {
            cs.last().1
        } else {
            0
        }
    }
}

/// Some value counted in `cs` is an object with a member `k`.
pub open spec fn key_seen(cs: CountsV, k: Seq<char>) -> bool {
    exists|i: int| 0 <= i < cs.len() && obj_has_key(#[trigger] cs[i].0, k)
}

/// `k` is present in all the values counted in `cs`, and there are some.
pub open spec fn is_static_key(cs: CountsV, k: Seq<char>) -> bool {
    counts_total(cs) > 0 && key_count(cs, k) >= counts_total(cs)
}

/// Some key seen in an object of `cs` is missing from some value of `cs`.
pub open spec fn has_dynamic_keys(cs: CountsV) -> bool {
    exists|k: Seq<char>| key_seen(cs, k) && key_count(cs, k) < counts_total(cs)
}

/// The count of a key after one more entry.
pub proof fn lemma_key_count_step(cs: CountsV, i: int, k: Seq<char>)
    requires
        0 <= i < cs.len(),
    ensures
        key_count(cs.take(i + 1), k) == key_count(cs.take(i), k) + if obj_has_key(cs[i].0, k) {
            cs[i].1
        } else {
            0
        },
        counts_total(cs.take(i + 1)) == counts_total(cs.take(i)) + cs[i].1,
        key_seen(cs.take(i + 1), k) == (key_seen(cs.take(i), k) || obj_has_key(cs[i].0, k)),
{
    assert(cs.take(i + 1).drop_last() =~= cs.take(i));
    let a = cs.take(i + 1);
    let b = cs.take(i);
    if key_seen(a, k) {
        let t = choose|t: int| 0 <= t < a.len() && obj_has_key(#[trigger] a[t].0, k);
        if t < i {
            assert(b[t] == a[t]);
        }
    }
    if key_seen(b, k) {
        let t = choose|t: int| 0 <= t < b.len() && obj_has_key(#[trigger] b[t].0, k);
        assert(a[t] == b[t]);
    }
    if obj_has_key(cs[i].0, k) {
        assert(a[i] == cs[i]);
    }
}

/// The count of a key is at most the total, and positive only for a key seen.
pub proof fn lemma_key_count_bounds(cs: CountsV, k: Seq<char>)
    ensures
        key_count(cs, k) <= counts_total(cs),
        key_count(cs, k) > 0 ==> key_seen(cs, k),
    decreases cs.len(),
{
    if cs.len() > 0 {
        let t = cs.drop_last();
        lemma_key_count_bounds(t, k);
        if key_seen(t, k) {
            let j = choose|j: int| 0 <= j < t.len() && obj_has_key(#[trigger] t[j].0, k);
            assert(cs[j] == t[j]);
        }
        if obj_has_key(cs.last().0, k) {
            assert(obj_has_key(cs[cs.len() - 1].0, k));
        }
    }
}

/// The total of a prefix is at most the total.
pub proof fn lemma_counts_total_prefix(cs: CountsV, i: int)
    requires
        0 <= i <= cs.len(),
    ensures
        counts_total(cs.take(i)) <= counts_total(cs),
    decreases cs.len() - i,
{
    if i < cs.len() {
        lemma_key_count_step(cs, i, Seq::empty());
        lemma_counts_total_prefix(cs, i + 1);
    } else {
        assert(cs.take(i) =~= cs);
    }
}

/// The count of `k` in `ks`, a list of distinct keys with counts.
pub open spec fn count_in(ks: Seq<(Seq<char>, nat)>, k: Seq<char>) -> nat {
    let p = pos_of(ks, k);
    if p >= 0 {
        ks[p].1
    } else {
        0
    }
}

/// The model of a list of keys with counts.
pub open spec fn key_counts_model(v: Vec<(String, usize)>) -> Seq<(Seq<char>, nat)> {
    Seq::new(v.len() as nat, |i: int| (v[i].0@, v[i].1 as nat))
}

/// The keys of a list of strings.
pub open spec fn string_seq(v: Vec<String>) -> Seq<Seq<char>> {
    v@.map_values(|s: String| s@)
}

/// Adds `c` to the count of `k`, appending `k` when it is new.
#[verifier::loop_isolation(false)]
fn add_key_count(ks: &mut Vec<(String, usize)>, k: &String, c: usize)
    requires
        count_in(key_counts_model(*old(ks)), k@) + c <= usize::MAX,
    ensures
        forall|k2: Seq<char>|
            k2 != k@ ==> #[trigger] pos_of(key_counts_model(*final(ks)), k2) == pos_of(
                key_counts_model(*old(ks)),
                k2,
            ) && count_in(key_counts_model(*final(ks)), k2) == count_in(
                key_counts_model(*old(ks)),
                k2,
            ),
        pos_of(key_counts_model(*final(ks)), k@) >= 0,
        count_in(key_counts_model(*final(ks)), k@) == count_in(key_counts_model(*old(ks)), k@) + c,
        pos_of(key_counts_model(*old(ks)), k@) >= 0 ==> key_counts_model(*final(ks)).len()
            == key_counts_model(*old(ks)).len(),
        pos_of(key_counts_model(*old(ks)), k@) < 0 ==> key_counts_model(*final(ks)).len()
            == key_counts_model(*old(ks)).len() + 1,
        forall|t: int|
            0 <= t < key_counts_model(*old(ks)).len() ==> #[trigger] key_counts_model(
                *final(ks),
            )[t].0 == key_counts_model(*old(ks))[t].0,
        forall|t: int|
            key_counts_model(*old(ks)).len() <= t < key_counts_model(*final(ks)).len()
                ==> #[trigger] key_counts_model(*final(ks))[t].0 == k@,
{
    let ghost m0 = key_counts_model(*ks);
    proof {
        lemma_pos_of(m0, k@);
    }
    let mut i: usize = 0;
    while i < ks.len()
        invariant
            i <= ks.len(),
            m0 == key_counts_model(*ks),
            forall|t: int| 0 <= t < i ==> m0[t].0 != k@,
        decreases ks.len() - i,
    {
        if ks[i].0 == *k {
            proof {
                lemma_pos_of_at(m0, k@, i as int);
            }
            let (kk, old_c) = ks.remove(i);
            ks.insert(i, (kk, old_c + c));
            let ghost m1 = key_counts_model(*ks);
            assert(m1 =~= m0.update(i as int, (k@, (old_c + c) as nat)));
            proof {
                assert forall|t: int| 0 <= t < i implies m1[t].0 != k@ by {}
                lemma_pos_of_at(m1, k@, i as int);
                assert forall|k2: Seq<char>| k2 != k@ implies #[trigger] pos_of(m1, k2) == pos_of(m0, k2)
                    && count_in(m1, k2) == count_in(m0, k2) by {
                    lemma_pos_of(m0, k2);
                    lemma_pos_of(m1, k2);
                    let p = pos_of(m0, k2);
                    if p >= 0 {
                        assert forall|t: int| 0 <= t < p implies m1[t].0 != k2 by {}
                        lemma_pos_of_at(m1, k2, p);
                    } else {
                        assert forall|t: int| 0 <= t < m1.len() implies m1[t].0 != k2 by {}
                        lemma_pos_of_none(m1, k2);
                    }
                }
            }
            return;
        }
        i = i + 1;
    }
    proof {
        lemma_pos_of_none(m0, k@);
    }
    ks.push((k.clone(), c));
    let ghost m1 = key_counts_model(*ks);
    assert(m1 =~= m0.push((k@, c as nat)));
    proof {
        assert forall|t: int| 0 <= t < m0.len() implies m1[t].0 != k@ by {}
        lemma_pos_of_at(m1, k@, m0.len() as int);
        assert forall|k2: Seq<char>| k2 != k@ implies #[trigger] pos_of(m1, k2) == pos_of(m0, k2)
            && count_in(m1, k2) == count_in(m0, k2) by {
            lemma_pos_of(m0, k2);
            lemma_pos_of(m1, k2);
            let p = pos_of(m0, k2);
            if p >= 0 {
                assert forall|t: int| 0 <= t < p implies m1[t].0 != k2 by {}
                lemma_pos_of_at(m1, k2, p);
            } else {
                assert forall|t: int| 0 <= t < m1.len() implies m1[t].0 != k2 by {}
                lemma_pos_of_none(m1, k2);
            }
        }
    }
}

impl SchemaSniffer {
    /// Analyzes an object's properties to determine which are static (present
    /// in all objects) versus dynamic (varying between objects): gives whether
    /// some key seen is missing from some value, and the keys present in all
    /// values (each once).
    #[verifier::loop_isolation(false)]
    pub fn analyze_object_properties(values: &Vec<(JsonValue, usize)>) -> (r: (bool, Vec<String>))
        requires
            counts_total(counts_model(*values)) <= usize::MAX,
        ensures
            r.0 == has_dynamic_keys(counts_model(*values)),
            string_seq(r.1).no_duplicates(),
            forall|k: Seq<char>|
                #[trigger] string_seq(r.1).contains(k) <==> is_static_key(counts_model(*values), k),
    {
        let ghost cm = counts_model(*values);
        // the total number of values
        let mut total: usize = 0;
        let mut i: usize = 0;
        while i < values.len()
            invariant
                i <= values.len(),
                total == counts_total(cm.take(i as int)),
            decreases values.len() - i,
        {
            proof {
                lemma_key_count_step(cm, i as int, Seq::empty());
                lemma_counts_total_prefix(cm, i as int + 1);
            }
            total = total + values[i].1;
            i = i + 1;
        }
        assert(cm.take(values.len() as int) =~= cm);
        // how many values hold each key
        let mut ks: Vec<(String, usize)> = Vec::new();
        let mut i: usize = 0;
        while i < values.len()
            invariant
                i <= values.len(),
                total == counts_total(cm),
                keys_distinct_nat(key_counts_model(ks)),
                forall|k: Seq<char>|
                    #[trigger] pos_of(key_counts_model(ks), k) >= 0 <==> key_seen(cm.take(i as int), k),
                forall|k: Seq<char>|
                    #[trigger] count_in(key_counts_model(ks), k) == key_count(cm.take(i as int), k),
            decreases values.len() - i,
        {
            proof {
                lemma_counts_total_prefix(cm, i as int + 1);
            }
            let c = values[i].1;
            match &values[i].0 {
                JsonValue::Object(ms) => {
                    let ghost mm = JsonValue::members_model(*ms);
                    let ghost vm = values[i as int].0.model();
                    assert(vm == JsonV::Object(mm));
                    let mut j: usize = 0;
                    while j < ms.len()
                        invariant
                            j <= ms.len(),
                            mm.len() == ms.len(),
                            keys_distinct_nat(key_counts_model(ks)),
                            forall|k: Seq<char>|
                                #[trigger] pos_of(key_counts_model(ks), k) >= 0 <==> (key_seen(
                                    cm.take(i as int),
                                    k,
                                ) || key_in_prefix(mm, j as int, k)),
                            forall|k: Seq<char>|
                                #[trigger] count_in(key_counts_model(ks), k) == key_count(
                                    cm.take(i as int),
                                    k,
                                ) + if key_in_prefix(mm, j as int, k) {
                                    c as nat
                                } else {
                                    0
                                },
                        decreases ms.len() - j,
                    {
                        proof {
                            lemma_members_model_index(*ms, j as int);
                        }
                        let first = match find_member(ms, &ms[j].0) {
                            Some(t) => t == j,
                            None => false,
                        };
                        let ghost kj = mm[j as int].0;
                        proof {
                            lemma_pos_of(mm, kj);
                            lemma_key_count_step(cm, i as int, kj);
                            lemma_key_count_bounds(cm.take(i as int + 1), kj);
                            assert(obj_has_key(vm, kj));
                        }
                        if first {
                            assert(!key_in_prefix(mm, j as int, kj));
                            let ghost before = key_counts_model(ks);
                            add_key_count(&mut ks, &ms[j].0, c);
                            proof {
                                let after = key_counts_model(ks);
                                lemma_pos_of(before, kj);
                                assert forall|a: int, b: int| 0 <= a < b < after.len() implies after[a].0 != after[b].0 by {
                                    if b >= before.len() {
                                        assert(after[b].0 == kj);
                                        assert(after[a].0 == before[a].0);
                                    } else {
                                        assert(after[a].0 == before[a].0);
                                        assert(after[b].0 == before[b].0);
                                    }
                                }
                                assert forall|k: Seq<char>| #[trigger] pos_of(key_counts_model(ks), k) >= 0 <==> (key_seen(
                                    cm.take(i as int), k) || key_in_prefix(mm, j + 1, k)) by {
                                    if k != kj {
                                        if key_in_prefix(mm, j + 1, k) {
                                            let t = choose|t: int| 0 <= t < j + 1 && #[trigger] mm[t].0 == k;
                                            assert(t < j);
                                        }
                                    } else {
                                        assert(mm[j as int].0 == k);
                                    }
                                }
                                assert forall|k: Seq<char>| #[trigger] count_in(key_counts_model(ks), k) == key_count(
                                    cm.take(i as int), k) + if key_in_prefix(mm, j + 1, k) {
                                    c as nat
                                } else {
                                    0
                                } by {
                                    if k != kj {
                                        if key_in_prefix(mm, j + 1, k) {
                                            let t = choose|t: int| 0 <= t < j + 1 && #[trigger] mm[t].0 == k;
                                            assert(t < j);
                                        }
                                    } else {
                                        assert(mm[j as int].0 == k);
                                    }
                                }
                            }
                        } else {
                            let ghost p = pos_of(mm, kj);
                            assert(0 <= p < j);
                            assert(mm[p].0 == kj);
                            assert forall|k: Seq<char>| #[trigger] key_in_prefix(mm, j + 1, k) == key_in_prefix(mm, j as int, k) by {
                                if key_in_prefix(mm, j + 1, k) {
                                    let t = choose|t: int| 0 <= t < j + 1 && #[trigger] mm[t].0 == k;
                                    if t == j {
                                        assert(mm[p].0 == k);
                                    }
                                }
                            }
                        }
                        j = j + 1;
                    }
                    proof {
                        assert forall|k: Seq<char>| #[trigger] key_in_prefix(mm, ms.len() as int, k) == obj_has_key(vm, k) by {
                            lemma_pos_of(mm, k);
                            if key_in_prefix(mm, ms.len() as int, k) {
                                let t = choose|t: int| 0 <= t < ms.len() && #[trigger] mm[t].0 == k;
                            }
                        }
                        assert forall|k: Seq<char>| #[trigger] count_in(key_counts_model(ks), k) == key_count(cm.take(i as int + 1), k) by {
                            lemma_key_count_step(cm, i as int, k);
                        }
                        assert forall|k: Seq<char>| #[trigger] pos_of(key_counts_model(ks), k) >= 0 <==> key_seen(cm.take(i as int + 1), k) by {
                            lemma_key_count_step(cm, i as int, k);
                        }
                    }
                },
                _ => {
                    proof {
                        assert forall|k: Seq<char>| #[trigger] count_in(key_counts_model(ks), k) == key_count(cm.take(i as int + 1), k) by {
                            lemma_key_count_step(cm, i as int, k);
                        }
                        assert forall|k: Seq<char>| #[trigger] pos_of(key_counts_model(ks), k) >= 0 <==> key_seen(cm.take(i as int + 1), k) by {
                            lemma_key_count_step(cm, i as int, k);
                        }
                    }
                },
            }
            i = i + 1;
        }
        assert(cm.take(values.len() as int) =~= cm);
        // the verdicts
        let ghost km = key_counts_model(ks);
        let mut has_dynamic = false;
        let mut statics: Vec<String> = Vec::new();
        let mut t: usize = 0;
        while t < ks.len()
            invariant
                t <= ks.len(),
                km == key_counts_model(ks),
                keys_distinct_nat(km),
                has_dynamic == exists|a: int| 0 <= a < t && km[a].1 < total,
                string_seq(statics).no_duplicates(),
                forall|k: Seq<char>|
                    #[trigger] string_seq(statics).contains(k) <==> exists|a: int|
                        0 <= a < t && km[a].0 == k && total > 0 && km[a].1 >= total,
            decreases ks.len() - t,
        {
            let ghost was = has_dynamic;
            if ks[t].1 < total {
                has_dynamic = true;
            }
            proof {
                if km[t as int].1 < total {
                    assert(0 <= t < t + 1 && km[t as int].1 < total);
                }
                assert(has_dynamic == exists|a: int| 0 <= a < t + 1 && km[a].1 < total) by {
                    if exists|a: int| 0 <= a < t + 1 && km[a].1 < total {
                        let a = choose|a: int| 0 <= a < t + 1 && km[a].1 < total;
                        if a < t {
                            assert(was);
                        }
                    }
                }
            }
            if total > 0 && ks[t].1 >= total {
                let ghost before = string_seq(statics);
                statics.push(ks[t].0.clone());
                proof {
                    let after = string_seq(statics);
                    assert(after =~= before.push(km[t as int].0));
                    assert(!before.contains(km[t as int].0));
                    assert forall|a: int, b: int| 0 <= a < after.len() && 0 <= b < after.len() && a != b implies after[a] != after[b] by {
                        if a == before.len() as int {
                            assert(before.contains(after[b]));
                        } else if b == before.len() as int {
                            assert(before.contains(after[a]));
                        }
                    }
                    assert forall|k: Seq<char>| #[trigger] after.contains(k) <==> exists|a: int|
                        0 <= a < t + 1 && km[a].0 == k && total > 0 && km[a].1 >= total by {
                        if after.contains(k) {
                            let x = choose|x: int| 0 <= x < after.len() && after[x] == k;
                            if x < before.len() {
                                assert(before[x] == k);
                                assert(before.contains(k));
                            }
                        }
                        if exists|a: int| 0 <= a < t + 1 && km[a].0 == k && total > 0 && km[a].1 >= total {
                            let a = choose|a: int| 0 <= a < t + 1 && km[a].0 == k && total > 0 && km[a].1 >= total;
                            if a < t {
                                assert(before.contains(k));
                                let x = choose|x: int| 0 <= x < before.len() && before[x] == k;
                                assert(after[x] == k);
                            } else {
                                assert(after[before.len() as int] == k);
                            }
                        }
                    }
                }
            }
            t = t + 1;
        }
        proof {
            let cmt = counts_total(cm);
            assert forall|a: int| 0 <= a < km.len() implies pos_of(km, #[trigger] km[a].0) == a by {
                lemma_pos_of_at(km, km[a].0, a);
            }
            assert forall|k: Seq<char>| #[trigger] string_seq(statics).contains(k) <==> is_static_key(cm, k) by {
                lemma_key_count_bounds(cm, k);
                lemma_pos_of(km, k);
                assert(count_in(km, k) == key_count(cm, k));
                if is_static_key(cm, k) {
                    let a = pos_of(km, k);
                    assert(km[a].0 == k);
                    assert(km[a].1 == key_count(cm, k));
                    assert(0 <= a < km.len() && km[a].0 == k && total > 0 && km[a].1 >= total);
                }
                if string_seq(statics).contains(k) {
                    let a = choose|a: int| 0 <= a < km.len() && km[a].0 == k && total > 0 && km[a].1 >= total;
                    assert(pos_of(km, km[a].0) == a);
                    assert(count_in(km, k) == km[a].1);
                }
            }
            if has_dynamic {
                let a = choose|a: int| 0 <= a < km.len() && km[a].1 < total;
                let k = km[a].0;
                assert(count_in(km, k) == key_count(cm, k));
                assert(key_seen(cm, k) && key_count(cm, k) < counts_total(cm));
            }
            if has_dynamic_keys(cm) {
                let k = choose|k: Seq<char>| key_seen(cm, k) && key_count(cm, k) < counts_total(cm);
                assert(pos_of(km, k) >= 0);
                lemma_pos_of(km, k);
                let a = pos_of(km, k);
                assert(count_in(km, k) == km[a].1);
            }
        }
        (has_dynamic, statics)
    }
}

/// Some member among the first `j` of `ms` has key `k`.
pub open spec fn key_in_prefix(ms: Seq<(Seq<char>, JsonV)>, j: int, k: Seq<char>) -> bool {
    exists|t: int| 0 <= t < j && #[trigger] ms[t].0 == k
}

/// No key occurs twice in a list of keys with counts.
pub open spec fn keys_distinct_nat(s: Seq<(Seq<char>, nat)>) -> bool {
    forall|i: int, j: int| 0 <= i < j < s.len() ==> s[i].0 != s[j].0
}

} // verus!
