use vstd::prelude::*;

use crate::tree::{
    jv_model, jv_models, jv_pair_models, lemma_jv_models_index, lemma_jv_pair_models_index,
    JsonModel, JsonValue,
};

verus! {

/// The compact text of a tree: no whitespace except the single space
/// after each comma and colon; strings wrapped in double quotes with
/// their content emitted exactly as stored, no escaping; numbers
/// rendered as the literal's original digits.
pub open spec fn json_text_of(j: JsonModel) -> Seq<char>
    decreases j, 0int,
{
    match j {
        JsonModel::Null => "null"@,
        JsonModel::Bool(t) => t,
        JsonModel::Number(t) => t,
        JsonModel::Float(t) => t,
        JsonModel::Str(t) => "\""@ + t + "\""@,
        JsonModel::Array(items) => "["@ + items_text_of(items) + "]"@,
        JsonModel::Object(pairs) => "{"@ + pairs_text_of(pairs) + "}"@,
    }
}

/// Array elements joined by `", "`.
pub open spec fn items_text_of(items: Seq<JsonModel>) -> Seq<char>
    decreases items, 1int,
{
    if items.len() == 0 {
        Seq::empty()
    } else if items.len() == 1 {
        json_text_of(items.last())
    } else {
        items_text_of(items.drop_last()) + ", "@ + json_text_of(items.last())
    }
}

/// Object pairs, each `"key": value`, joined by `", "`.
pub open spec fn pairs_text_of(pairs: Seq<(Seq<char>, JsonModel)>) -> Seq<char>
    decreases pairs, 1int,
{
    if pairs.len() == 0 {
        Seq::empty()
    } else if pairs.len() == 1 {
        pair_text_of(pairs.last())
    } else {
        pairs_text_of(pairs.drop_last()) + ", "@ + pair_text_of(pairs.last())
    }
}

/// One object pair: the quoted key, a colon and a space, the value.
pub open spec fn pair_text_of(p: (Seq<char>, JsonModel)) -> Seq<char>
    decreases p, 2int,
{
    "\""@ + p.0 + "\""@ + ": "@ + json_text_of(p.1)
}

impl JsonValue {
    /// Render this tree as compact JSON-like text, exactly the character
    /// sequence `json_text_of` names.
    #[verifier::loop_isolation(false)]
    pub fn to_json_str(&self) -> (r: String)
        ensures
            r@ == json_text_of(jv_model(*self)),
        decreases *self,
    {
        match self {
            JsonValue::Null => String::from_str("null"),
            JsonValue::Bool(t) => t.clone(),
            JsonValue::Number(t) => t.clone(),
            JsonValue::Float(t) => t.clone(),
            JsonValue::Str(t) => {
                let mut s = String::from_str("\"");
                s.append(t.as_str());
                s.append("\"");
                s
            },
            JsonValue::Array(items) => {
                let ghost ms = jv_models(items@);
                proof {
                    lemma_jv_models_index(items@);
                }
                let mut s = String::from_str("[");
                let mut p: usize = 0;
                while p < items.len()
                    invariant
                        p <= items@.len(),
                        s@ == "["@ + items_text_of(ms.subrange(0, p as int)),
                    decreases items@.len() - p,
                {
                    if p > 0 {
                        s.append(", ");
                    }
                    let sub = items[p].to_json_str();
                    s.append(sub.as_str());
                    proof {
                        assert(ms.subrange(0, p as int + 1).drop_last() =~= ms.subrange(
                            0,
                            p as int,
                        ));
                        assert(ms.subrange(0, p as int + 1).last() == ms[p as int]);
                        if p == 0 {
                            assert(items_text_of(ms.subrange(0, 1)) == json_text_of(ms[0]));
                        }
                    }
                    p += 1;
                }
                proof {
                    assert(ms.subrange(0, ms.len() as int) =~= ms);
                }
                s.append("]");
                s
            },
            JsonValue::Object(pairs) => {
                let ghost ms = jv_pair_models(pairs@);
                proof {
                    lemma_jv_pair_models_index(pairs@);
                }
                let mut s = String::from_str("{");
                let mut p: usize = 0;
                while p < pairs.len()
                    invariant
                        p <= pairs@.len(),
                        s@ == "{"@ + pairs_text_of(ms.subrange(0, p as int)),
                    decreases pairs@.len() - p,
                {
                    if p > 0 {
                        s.append(", ");
                    }
                    s.append("\"");
                    s.append(pairs[p].0.as_str());
                    s.append("\"");
                    s.append(": ");
                    let sub = pairs[p].1.to_json_str();
                    s.append(sub.as_str());
                    proof {
                        assert(ms.subrange(0, p as int + 1).drop_last() =~= ms.subrange(
                            0,
                            p as int,
                        ));
                        assert(ms.subrange(0, p as int + 1).last() == ms[p as int]);
                        let prev = pairs_text_of(ms.subrange(0, p as int));
                        let pt = pair_text_of(ms[p as int]);
                        assert(ms[p as int].1 == jv_model(pairs@[p as int].1));
                        assert(ms[p as int].0 == pairs@[p as int].0@);
                        assert(pt == "\""@ + ms[p as int].0 + "\""@ + ": "@ + json_text_of(
                            ms[p as int].1,
                        ));
                        if p == 0 {
                            assert(pairs_text_of(ms.subrange(0, 1)) == pair_text_of(ms[0]));
                            assert(s@ =~= "{"@ + pt);
                        } else {
                            assert(pairs_text_of(ms.subrange(0, p as int + 1)) == prev + ", "@
                                + pt);
                            assert(s@ =~= "{"@ + (prev + ", "@ + pt));
                        }
                        assert(s@ =~= "{"@ + pairs_text_of(ms.subrange(0, p as int + 1)));
                    }
                    p += 1;
                }
                proof {
                    assert(ms.subrange(0, ms.len() as int) =~= ms);
                }
                s.append("}");
                s
            },
        }
    }
}

} // verus!
