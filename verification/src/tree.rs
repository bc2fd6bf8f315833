use vstd::prelude::*;

use crate::token::{is_bool_text, is_float_text, is_int_text, is_string_text};

verus! {

/// The intermediate parse tree. Literal variants keep the exact source text
/// of the literal; objects keep their pairs in insertion order and may hold
/// duplicate keys.
#[derive(Debug, PartialEq)]
pub enum JsonValue {
    Null,
    Bool(String),
    Number(String),
    Float(String),
    Str(String),
    Array(Vec<JsonValue>),
    Object(Vec<(String, JsonValue)>),
}

/// Mathematical model of a parse tree: texts as character sequences,
/// collections as sequences.
pub enum JsonModel {
    Null,
    Bool(Seq<char>),
    Number(Seq<char>),
    Float(Seq<char>),
    Str(Seq<char>),
    Array(Seq<JsonModel>),
    Object(Seq<(Seq<char>, JsonModel)>),
}

/// The model of a tree value: the abstraction every contract speaks of.
pub open spec fn jv_model(j: JsonValue) -> JsonModel
    decreases j,
{
    match j {
        JsonValue::Null => JsonModel::Null,
        JsonValue::Bool(t) => JsonModel::Bool(t@),
        JsonValue::Number(t) => JsonModel::Number(t@),
        JsonValue::Float(t) => JsonModel::Float(t@),
        JsonValue::Str(t) => JsonModel::Str(t@),
        JsonValue::Array(items) => JsonModel::Array(jv_models(items@)),
        JsonValue::Object(pairs) => JsonModel::Object(jv_pair_models(pairs@)),
    }
}

/// The models of a sequence of tree values, element by element.
pub open spec fn jv_models(s: Seq<JsonValue>) -> Seq<JsonModel>
    decreases s,
{
    if s.len() == 0 {
        Seq::empty()
    } else {
        jv_models(s.drop_last()).push(jv_model(s.last()))
    }
}

/// The models of a sequence of key/value pairs, element by element.
pub open spec fn jv_pair_models(s: Seq<(String, JsonValue)>) -> Seq<(Seq<char>, JsonModel)>
    decreases s,
{
    if s.len() == 0 {
        Seq::empty()
    } else {
        jv_pair_models(s.drop_last()).push((s.last().0@, jv_model(s.last().1)))
    }
}

/// `jv_models` maps the sequence pointwise.
pub proof fn lemma_jv_models_index(s: Seq<JsonValue>)
    ensures
        jv_models(s).len() == s.len(),
        forall|i: int| 0 <= i < s.len() ==> #[trigger] jv_models(s)[i] == jv_model(s[i]),
    decreases s.len(),
{
    if s.len() > 0 {
        lemma_jv_models_index(s.drop_last());
        assert forall|i: int| 0 <= i < s.len() implies #[trigger] jv_models(s)[i] == jv_model(
            s[i],
        ) by {
            if i < s.len() - 1 {
                assert(s.drop_last()[i] == s[i]);
                assert(jv_models(s.drop_last())[i] == jv_model(s.drop_last()[i]));
            } else {
                assert(s.last() == s[i]);
            }
        }
    }
}

/// `jv_pair_models` maps the sequence pointwise.
pub proof fn lemma_jv_pair_models_index(s: Seq<(String, JsonValue)>)
    ensures
        jv_pair_models(s).len() == s.len(),
        forall|i: int| 0 <= i < s.len() ==> #[trigger] jv_pair_models(s)[i] == (s[i].0@, jv_model(
            s[i].1,
        )),
    decreases s.len(),
{
    if s.len() > 0 {
        lemma_jv_pair_models_index(s.drop_last());
        assert forall|i: int| 0 <= i < s.len() implies #[trigger] jv_pair_models(s)[i] == (
            s[i].0@,
            jv_model(s[i].1),
        ) by {
            if i < s.len() - 1 {
                assert(s.drop_last()[i] == s[i]);
                assert(jv_pair_models(s.drop_last())[i] == (
                    s.drop_last()[i].0@,
                    jv_model(s.drop_last()[i].1),
                ));
            } else {
                assert(s.last() == s[i]);
            }
        }
    }
}

/// A well-formed tree: every literal text has the shape of its token kind.
/// The parser only builds well-formed trees from well-formed tokens.
pub open spec fn json_wf(j: JsonModel) -> bool
    decreases j, 0int,
{
    match j {
        JsonModel::Null => true,
        JsonModel::Bool(t) => is_bool_text(t),
        JsonModel::Number(t) => is_int_text(t),
        JsonModel::Float(t) => is_float_text(t),
        JsonModel::Str(t) => is_string_text(t),
        JsonModel::Array(items) => json_seq_wf(items),
        JsonModel::Object(pairs) => json_pairs_wf(pairs),
    }
}

/// Every element of an array body is well-formed.
pub open spec fn json_seq_wf(items: Seq<JsonModel>) -> bool
    decreases items, 1int,
{
    items.len() == 0 || (json_seq_wf(items.drop_last()) && json_wf(items.last()))
}

/// Every key and value of an object body is well-formed.
pub open spec fn json_pairs_wf(pairs: Seq<(Seq<char>, JsonModel)>) -> bool
    decreases pairs, 1int,
{
    pairs.len() == 0 || (json_pairs_wf(pairs.drop_last()) && is_string_text(pairs.last().0)
        && json_wf(pairs.last().1))
}

/// `json_seq_wf` holds exactly when each element is well-formed.
pub proof fn lemma_json_seq_wf_index(items: Seq<JsonModel>)
    ensures
        json_seq_wf(items) <==> (forall|i: int|
            0 <= i < items.len() ==> json_wf(#[trigger] items[i])),
    decreases items.len(),
{
    if items.len() > 0 {
        lemma_json_seq_wf_index(items.drop_last());
        if json_seq_wf(items) {
            assert forall|i: int| 0 <= i < items.len() implies json_wf(#[trigger] items[i]) by {
                if i < items.len() - 1 {
                    assert(items.drop_last()[i] == items[i]);
                } else {
                    assert(items.last() == items[i]);
                }
            }
        } else {
            if forall|i: int| 0 <= i < items.len() ==> json_wf(#[trigger] items[i]) {
                assert forall|i: int| 0 <= i < items.drop_last().len() implies json_wf(
                    #[trigger] items.drop_last()[i],
                ) by {
                    assert(items.drop_last()[i] == items[i]);
                }
                assert(json_wf(items.last()));
                assert(false);
            }
        }
    }
}

/// `json_pairs_wf` holds exactly when each pair is well-formed.
pub proof fn lemma_json_pairs_wf_index(pairs: Seq<(Seq<char>, JsonModel)>)
    ensures
        json_pairs_wf(pairs) <==> (forall|i: int|
            0 <= i < pairs.len() ==> is_string_text((#[trigger] pairs[i]).0) && json_wf(pairs[i].1)),
    decreases pairs.len(),
{
    if pairs.len() > 0 {
        lemma_json_pairs_wf_index(pairs.drop_last());
        if json_pairs_wf(pairs) {
            assert forall|i: int| 0 <= i < pairs.len() implies is_string_text(
                (#[trigger] pairs[i]).0,
            ) && json_wf(pairs[i].1) by {
                if i < pairs.len() - 1 {
                    assert(pairs.drop_last()[i] == pairs[i]);
                } else {
                    assert(pairs.last() == pairs[i]);
                }
            }
        } else {
            if forall|i: int|
                0 <= i < pairs.len() ==> is_string_text(#[trigger] pairs[i].0) && json_wf(
                    pairs[i].1,
                ) {
                assert forall|i: int| 0 <= i < pairs.drop_last().len() implies is_string_text(
                    (#[trigger] pairs.drop_last()[i]).0,
                ) && json_wf(pairs.drop_last()[i].1) by {
                    assert(pairs.drop_last()[i] == pairs[i]);
                }
                assert(is_string_text(pairs.last().0) && json_wf(pairs.last().1));
                assert(false);
            }
        }
    }
}

} // verus!
