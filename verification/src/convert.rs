use vstd::prelude::*;

use crate::tree::{
    jv_model, jv_models, jv_pair_models, lemma_jv_models_index, lemma_jv_pair_models_index,
    JsonModel, JsonValue,
};

verus! {

/// The final output tree. Booleans are native; the numeric payload is the
/// literal's decimal text, with integer and float literals collapsed into
/// the one `Number` variant; objects map keys to values, keys unique,
/// a later duplicate key overwriting the value of an earlier one in place.
#[derive(Debug, PartialEq)]
pub enum Value {
    Null,
    Bool(bool),
    Number(String),
    Str(String),
    Array(Vec<Value>),
    Object(Vec<(String, Value)>),
}

/// Mathematical model of an output tree.
pub enum ValueModel {
    Null,
    Bool(bool),
    Number(Seq<char>),
    Str(Seq<char>),
    Array(Seq<ValueModel>),
    Object(Seq<(Seq<char>, ValueModel)>),
}

/// The model of an output value.
pub open spec fn val_model(v: Value) -> ValueModel
    decreases v,
{
    match v {
        Value::Null => ValueModel::Null,
        Value::Bool(b) => ValueModel::Bool(b),
        Value::Number(t) => ValueModel::Number(t@),
        Value::Str(t) => ValueModel::Str(t@),
        Value::Array(items) => ValueModel::Array(val_models(items@)),
        Value::Object(pairs) => ValueModel::Object(val_pair_models(pairs@)),
    }
}

/// The models of a sequence of output values, element by element.
pub open spec fn val_models(s: Seq<Value>) -> Seq<ValueModel>
    decreases s,
{
    if s.len() == 0 {
        Seq::empty()
    } else {
        val_models(s.drop_last()).push(val_model(s.last()))
    }
}

/// The models of a sequence of key/value pairs, element by element.
pub open spec fn val_pair_models(s: Seq<(String, Value)>) -> Seq<(Seq<char>, ValueModel)>
    decreases s,
{
    if s.len() == 0 {
        Seq::empty()
    } else {
        val_pair_models(s.drop_last()).push((s.last().0@, val_model(s.last().1)))
    }
}

/// `val_pair_models` maps the sequence pointwise.
pub proof fn lemma_val_pair_models_index(s: Seq<(String, Value)>)
    ensures
        val_pair_models(s).len() == s.len(),
        forall|i: int| 0 <= i < s.len() ==> #[trigger] val_pair_models(s)[i] == (s[i].0@, val_model(
            s[i].1,
        )),
    decreases s.len(),
{
    if s.len() > 0 {
        lemma_val_pair_models_index(s.drop_last());
        assert forall|i: int| 0 <= i < s.len() implies #[trigger] val_pair_models(s)[i] == (
            s[i].0@,
            val_model(s[i].1),
        ) by {
            if i < s.len() - 1 {
                assert(s.drop_last()[i] == s[i]);
                assert(val_pair_models(s.drop_last())[i] == (
                    s.drop_last()[i].0@,
                    val_model(s.drop_last()[i].1),
                ));
            } else {
                assert(s.last() == s[i]);
            }
        }
    }
}

/// Some pair of the map carries key `k`.
pub open spec fn has_key(m: Seq<(Seq<char>, ValueModel)>, k: Seq<char>) -> bool {
    exists|i: int| 0 <= i < m.len() && (#[trigger] m[i]).0 == k
}

/// No two pairs of the map carry the same key.
pub open spec fn unique_keys(m: Seq<(Seq<char>, ValueModel)>) -> bool {
    forall|i: int, j: int| 0 <= i < j < m.len() ==> (#[trigger] m[i]).0 != (#[trigger] m[j]).0
}

/// Insert into a unique-key map: the first pair carrying `k` keeps its
/// place and its value is overwritten; an absent key is appended.
pub open spec fn spec_insert(
    m: Seq<(Seq<char>, ValueModel)>,
    k: Seq<char>,
    v: ValueModel,
) -> Seq<(Seq<char>, ValueModel)>
    decreases m.len(),
{
    if m.len() == 0 {
        seq![(k, v)]
    } else if m.first().0 == k {
        seq![(k, v)] + m.drop_first()
    } else {
        seq![m.first()] + spec_insert(m.drop_first(), k, v)
    }
}

/// Converting a tree to its output value:
/// `null` stays null; a boolean literal becomes the boolean its text
/// names; integer and float literals both become `Number` carrying the
/// literal's digits; strings keep their content; arrays convert
/// elementwise in order; object pairs are inserted in source order into
/// a unique-key map, so of two pairs with the same key the later one
/// wins.
pub open spec fn spec_to_value(j: JsonModel) -> ValueModel
    decreases j, 0int,
{
    match j {
        JsonModel::Null => ValueModel::Null,
        JsonModel::Bool(t) => ValueModel::Bool(t == "true"@),
        JsonModel::Number(t) => ValueModel::Number(t),
        JsonModel::Float(t) => ValueModel::Number(t),
        JsonModel::Str(t) => ValueModel::Str(t),
        JsonModel::Array(items) => ValueModel::Array(spec_to_values(items)),
        JsonModel::Object(pairs) => ValueModel::Object(spec_to_object(pairs)),
    }
}

/// Elementwise conversion of an array body.
pub open spec fn spec_to_values(items: Seq<JsonModel>) -> Seq<ValueModel>
    decreases items, 1int,
{
    if items.len() == 0 {
        Seq::empty()
    } else {
        spec_to_values(items.drop_last()).push(spec_to_value(items.last()))
    }
}

/// Conversion of an object body: pairs inserted in source order.
pub open spec fn spec_to_object(pairs: Seq<(Seq<char>, JsonModel)>) -> Seq<
    (Seq<char>, ValueModel),
>
    decreases pairs, 1int,
{
    if pairs.len() == 0 {
        Seq::empty()
    } else {
        spec_insert(spec_to_object(pairs.drop_last()), pairs.last().0, spec_to_value(
            pairs.last().1,
        ))
    }
}

/// Inserting the first matching key overwrites it in place.
proof fn lemma_spec_insert_found(m: Seq<(Seq<char>, ValueModel)>, k: Seq<char>, v: ValueModel, i: int)
    requires
        0 <= i < m.len(),
        m[i].0 == k,
        forall|q: int| 0 <= q < i ==> (#[trigger] m[q]).0 != k,
    ensures
        spec_insert(m, k, v) == m.update(i, (k, v)),
    decreases m.len(),
{
    if i == 0 {
        assert(m.first() == m[0]);
        assert(spec_insert(m, k, v) == seq![(k, v)] + m.drop_first());
        assert(seq![(k, v)] + m.drop_first() =~= m.update(0, (k, v)));
    } else {
        assert(m.first() == m[0]);
        assert(m[0].0 != k);
        assert forall|q: int| 0 <= q < i - 1 implies (#[trigger] m.drop_first()[q]).0 != k by {
            assert(m.drop_first()[q] == m[q + 1]);
        }
        assert(m.drop_first()[i - 1] == m[i]);
        lemma_spec_insert_found(m.drop_first(), k, v, i - 1);
        assert(seq![m.first()] + m.drop_first().update(i - 1, (k, v)) =~= m.update(i, (k, v)));
    }
}

/// Inserting an absent key appends the pair.
proof fn lemma_spec_insert_absent(m: Seq<(Seq<char>, ValueModel)>, k: Seq<char>, v: ValueModel)
    requires
        !has_key(m, k),
    ensures
        spec_insert(m, k, v) == m.push((k, v)),
    decreases m.len(),
{
    if m.len() == 0 {
        assert(spec_insert(m, k, v) =~= m.push((k, v)));
    } else {
        assert(m.first() == m[0]);
        assert(m[0].0 != k);
        assert(!has_key(m.drop_first(), k)) by {
            if has_key(m.drop_first(), k) {
                let q = choose|q: int|
                    0 <= q < m.drop_first().len() && (#[trigger] m.drop_first()[q]).0 == k;
                assert(m.drop_first()[q] == m[q + 1]);
            }
        }
        lemma_spec_insert_absent(m.drop_first(), k, v);
        assert(seq![m.first()] + m.drop_first().push((k, v)) =~= m.push((k, v)));
    }
}

/// Insertion keeps the keys unique.
proof fn lemma_spec_insert_unique(m: Seq<(Seq<char>, ValueModel)>, k: Seq<char>, v: ValueModel)
    requires
        unique_keys(m),
    ensures
        unique_keys(spec_insert(m, k, v)),
{
    if has_key(m, k) {
        let i = choose|i: int| 0 <= i < m.len() && (#[trigger] m[i]).0 == k;
        let f = choose|f: int|
            0 <= f <= i && (#[trigger] m[f]).0 == k && forall|q: int|
                0 <= q < f ==> (#[trigger] m[q]).0 != k;
        assert(exists|f: int|
            0 <= f <= i && (#[trigger] m[f]).0 == k && forall|q: int|
                0 <= q < f ==> (#[trigger] m[q]).0 != k) by {
            first_key_occurrence(m, k, i);
        }
        lemma_spec_insert_found(m, k, v, f);
    } else {
        lemma_spec_insert_absent(m, k, v);
    }
}

/// Below the first index carrying `k` no pair carries `k`.
proof fn first_key_occurrence(m: Seq<(Seq<char>, ValueModel)>, k: Seq<char>, i: int)
    requires
        0 <= i < m.len(),
        m[i].0 == k,
    ensures
        exists|f: int|
            0 <= f <= i && (#[trigger] m[f]).0 == k && forall|q: int|
                0 <= q < f ==> (#[trigger] m[q]).0 != k,
    decreases i,
{
    if forall|q: int| 0 <= q < i ==> (#[trigger] m[q]).0 != k {
        assert(0 <= i <= i && m[i].0 == k);
    } else {
        let p = choose|p: int| 0 <= p < i && (#[trigger] m[p]).0 == k;
        first_key_occurrence(m, k, p);
        let f = choose|f: int|
            0 <= f <= p && (#[trigger] m[f]).0 == k && forall|q: int|
                0 <= q < f ==> (#[trigger] m[q]).0 != k;
        assert(0 <= f <= i && m[f].0 == k);
    }
}

/// The object a conversion builds has unique keys.
pub proof fn lemma_spec_to_object_unique(pairs: Seq<(Seq<char>, JsonModel)>)
    ensures
        unique_keys(spec_to_object(pairs)),
    decreases pairs.len(),
{
    if pairs.len() == 0 {
    } else {
        lemma_spec_to_object_unique(pairs.drop_last());
        lemma_spec_insert_unique(spec_to_object(pairs.drop_last()), pairs.last().0, spec_to_value(
            pairs.last().1,
        ));
    }
}


/// Last write wins: for the last pair of the object body carrying a
/// given key, the converted object binds that key to the conversion of
/// exactly that pair's value.
pub proof fn lemma_object_last_write_wins(pairs: Seq<(Seq<char>, JsonModel)>, i: int)
    requires
        0 <= i < pairs.len(),
        forall|q: int| i < q < pairs.len() ==> (#[trigger] pairs[q]).0 != pairs[i].0,
    ensures
        exists|w: int|
            0 <= w < spec_to_object(pairs).len() && (#[trigger] spec_to_object(pairs)[w]).0
                == pairs[i].0 && spec_to_object(pairs)[w].1 == spec_to_value(pairs[i].1),
    decreases pairs.len(),
{
    let k = pairs[i].0;
    let v = spec_to_value(pairs[i].1);
    let prev = spec_to_object(pairs.drop_last());
    lemma_spec_to_object_unique(pairs.drop_last());
    if i == pairs.len() - 1 {
        assert(pairs.last() == pairs[i]);
        if has_key(prev, k) {
            let f0 = choose|f0: int| 0 <= f0 < prev.len() && (#[trigger] prev[f0]).0 == k;
            first_key_occurrence(prev, k, f0);
            let f = choose|f: int|
                0 <= f <= f0 && (#[trigger] prev[f]).0 == k && forall|q: int|
                    0 <= q < f ==> (#[trigger] prev[q]).0 != k;
            lemma_spec_insert_found(prev, k, v, f);
            assert(spec_to_object(pairs)[f] == (k, v));
        } else {
            lemma_spec_insert_absent(prev, k, v);
            assert(spec_to_object(pairs)[prev.len() as int] == (k, v));
        }
    } else {
        assert forall|q: int|
            i < q < pairs.drop_last().len() implies (#[trigger] pairs.drop_last()[q]).0
            != pairs.drop_last()[i].0 by {
            assert(pairs.drop_last()[q] == pairs[q]);
            assert(pairs.drop_last()[i] == pairs[i]);
        }
        assert(pairs.drop_last()[i] == pairs[i]);
        lemma_object_last_write_wins(pairs.drop_last(), i);
        let w = choose|w: int|
            0 <= w < prev.len() && (#[trigger] prev[w]).0 == k && prev[w].1 == v;
        let lk = pairs.last().0;
        let lv = spec_to_value(pairs.last().1);
        assert(lk != k) by {
            assert(pairs[pairs.len() - 1].0 != pairs[i].0);
        }
        if has_key(prev, lk) {
            let f0 = choose|f0: int| 0 <= f0 < prev.len() && (#[trigger] prev[f0]).0 == lk;
            first_key_occurrence(prev, lk, f0);
            let f = choose|f: int|
                0 <= f <= f0 && (#[trigger] prev[f]).0 == lk && forall|q: int|
                    0 <= q < f ==> (#[trigger] prev[q]).0 != lk;
            lemma_spec_insert_found(prev, lk, lv, f);
            assert(w != f);
            assert(spec_to_object(pairs)[w] == prev[w]);
        } else {
            lemma_spec_insert_absent(prev, lk, lv);
            assert(spec_to_object(pairs)[w] == prev[w]);
        }
    }
}

/// Insert a pair into the output map, overwriting the value of the
/// first pair already carrying the key, else appending.
#[verifier::loop_isolation(false)]
fn insert_pair(out: &mut Vec<(String, Value)>, k: String, v: Value)
    ensures
        val_pair_models(final(out)@) == spec_insert(val_pair_models(old(out)@), k@, val_model(v)),
{
    let ghost m = val_pair_models(old(out)@);
    proof {
        lemma_val_pair_models_index(old(out)@);
    }
    let mut idx: usize = 0;
    while idx < out.len()
        invariant
            idx <= out@.len(),
            out@ == old(out)@,
            forall|q: int| 0 <= q < idx ==> (#[trigger] out@[q]).0@ != k@,
        decreases out@.len() - idx,
    {
        if out[idx].0.eq(&k) {
            proof {
                lemma_val_pair_models_index(out@);
                lemma_spec_insert_found(m, k@, val_model(v), idx as int);
            }
            out.set(idx, (k, v));
            proof {
                lemma_val_pair_models_index(out@);
                assert(val_pair_models(out@) =~= m.update(idx as int, (k@, val_model(v))));
            }
            return ;
        }
        idx += 1;
    }
    proof {
        assert(!has_key(m, k@)) by {
            if has_key(m, k@) {
                let q = choose|q: int| 0 <= q < m.len() && (#[trigger] m[q]).0 == k@;
                assert(m[q] == (old(out)@[q].0@, val_model(old(out)@[q].1)));
            }
        }
        lemma_spec_insert_absent(m, k@, val_model(v));
    }
    out.push((k, v));
    proof {
        lemma_val_pair_models_index(out@);
        assert(val_pair_models(out@) =~= m.push((k@, val_model(v))));
    }
}

impl JsonValue {
    /// Materialize the output value of this tree, exactly as
    /// `spec_to_value` says: the conversion is total and keeps arrays in
    /// order while object keys collapse to a unique-key map, last write
    /// winning.
    #[verifier::loop_isolation(false)]
    pub fn to_value(&self) -> (r: Value)
        ensures
            val_model(r) == spec_to_value(jv_model(*self)),
        decreases *self,
    {
        match self {
            JsonValue::Null => Value::Null,
            JsonValue::Bool(t) => {
                let true_text = String::from_str("true");
                Value::Bool(t.eq(&true_text))
            },
            JsonValue::Number(t) => Value::Number(t.clone()),
            JsonValue::Float(t) => Value::Number(t.clone()),
            JsonValue::Str(t) => Value::Str(t.clone()),
            JsonValue::Array(items) => {
                let mut out: Vec<Value> = Vec::new();
                let ghost ms = jv_models(items@);
                proof {
                    lemma_jv_models_index(items@);
                }
                let mut p: usize = 0;
                while p < items.len()
                    invariant
                        p <= items@.len(),
                        ms == jv_models(items@),
                        ms.len() == items@.len(),
                        forall|q: int| 0 <= q < items@.len() ==> #[trigger] ms[q] == jv_model(
                            items@[q],
                        ),
                        val_models(out@) == spec_to_values(ms.subrange(0, p as int)),
                    decreases items@.len() - p,
                {
                    let v = items[p].to_value();
                    let ghost prev = out@;
                    out.push(v);
                    proof {
                        assert(out@.drop_last() =~= prev);
                        assert(val_models(out@) == val_models(prev).push(val_model(v)));
                        assert(ms.subrange(0, p as int + 1).drop_last() =~= ms.subrange(
                            0,
                            p as int,
                        ));
                        assert(ms.subrange(0, p as int + 1).last() == ms[p as int]);
                        assert(spec_to_values(ms.subrange(0, p as int + 1)) == spec_to_values(
                            ms.subrange(0, p as int),
                        ).push(spec_to_value(ms[p as int])));
                    }
                    p += 1;
                }
                proof {
                    assert(ms.subrange(0, ms.len() as int) =~= ms);
                }
                Value::Array(out)
            },
            JsonValue::Object(pairs) => {
                let mut out: Vec<(String, Value)> = Vec::new();
                let ghost ms = jv_pair_models(pairs@);
                proof {
                    lemma_jv_pair_models_index(pairs@);
                }
                let mut p: usize = 0;
                while p < pairs.len()
                    invariant
                        p <= pairs@.len(),
                        ms == jv_pair_models(pairs@),
                        ms.len() == pairs@.len(),
                        forall|q: int| 0 <= q < pairs@.len() ==> #[trigger] ms[q] == (
                            pairs@[q].0@,
                            jv_model(pairs@[q].1),
                        ),
                        val_pair_models(out@) == spec_to_object(ms.subrange(0, p as int)),
                    decreases pairs@.len() - p,
                {
                    let k = pairs[p].0.clone();
                    let v = pairs[p].1.to_value();
                    insert_pair(&mut out, k, v);
                    proof {
                        assert(ms.subrange(0, p as int + 1).drop_last() =~= ms.subrange(
                            0,
                            p as int,
                        ));
                        assert(ms.subrange(0, p as int + 1).last() == ms[p as int]);
                        assert(spec_to_object(ms.subrange(0, p as int + 1)) == spec_insert(
                            spec_to_object(ms.subrange(0, p as int)),
                            ms[p as int].0,
                            spec_to_value(ms[p as int].1),
                        ));
                    }
                    p += 1;
                }
                proof {
                    assert(ms.subrange(0, ms.len() as int) =~= ms);
                }
                Value::Object(out)
            },
        }
    }
}

} // verus!
