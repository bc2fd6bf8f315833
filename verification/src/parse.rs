use vstd::prelude::*;

use crate::token::{Token, TokenModel, tokens_wf};
use crate::tree::{
    json_wf, jv_model, jv_models, jv_pair_models, lemma_json_pairs_wf_index,
    lemma_json_seq_wf_index, lemma_jv_models_index, lemma_jv_pair_models_index, JsonModel,
    JsonValue,
};

verus! {

/// The single error kind of the library: a descriptive message and the
/// position of the offending token (or character) in the input.
#[derive(Debug, Clone)]
pub struct ParseError {
    pub msg: String,
    pub pos: usize,
}

/// What parsing one value at position `i` of the token stream yields:
/// the parsed tree and the position of the first token after it, or
/// nothing when the grammar is violated.
///
/// The grammar, decided by one token of lookahead:
/// ```text
/// value  := NULL | BOOL | INT | FLOAT | STRING | array | object
/// array  := '[' (value (',' value)*)? ']'
/// object := '{' (pair (',' pair)*)? '}'
/// pair   := STRING ':' value
/// NULL   := the identifier `null`
/// ```
pub open spec fn spec_parse_value(ts: Seq<TokenModel>, i: int) -> Option<(JsonModel, int)>
    decreases ts.len() - i, 0int,
{
    if i < 0 || i >= ts.len() {
        None
    } else {
        match ts[i] {
            TokenModel::LBrace => {
                if i + 1 < ts.len() && ts[i + 1] is RBrace {
                    Some((JsonModel::Object(Seq::empty()), i + 2))
                } else {
                    match spec_parse_pairs(ts, i + 1) {
                        Some((ps, n)) => Some((JsonModel::Object(ps), n)),
                        None => None,
                    }
                }
            },
            TokenModel::LBracket => {
                if i + 1 < ts.len() && ts[i + 1] is RBracket {
                    Some((JsonModel::Array(Seq::empty()), i + 2))
                } else {
                    match spec_parse_items(ts, i + 1) {
                        Some((vs, n)) => Some((JsonModel::Array(vs), n)),
                        None => None,
                    }
                }
            },
            TokenModel::StrLit(t) => Some((JsonModel::Str(t), i + 1)),
            TokenModel::IntLit(t) => Some((JsonModel::Number(t), i + 1)),
            TokenModel::FloatLit(t) => Some((JsonModel::Float(t), i + 1)),
            TokenModel::BoolLit(t) => Some((JsonModel::Bool(t), i + 1)),
            TokenModel::Ident(t) => {
                if t == "null"@ {
                    Some((JsonModel::Null, i + 1))
                } else {
                    None
                }
            },
            _ => None,
        }
    }
}

/// One or more comma-separated values followed by the closing bracket.
/// A trailing comma is not permitted. Yields the elements and the
/// position after the closing bracket.
pub open spec fn spec_parse_items(ts: Seq<TokenModel>, i: int) -> Option<(Seq<JsonModel>, int)>
    decreases ts.len() - i, 1int,
{
    match spec_parse_value(ts, i) {
        None => None,
        Some((v, n)) => {
            if !(i < n <= ts.len()) {
                None
            } else if n == ts.len() {
                None
            } else {
                match ts[n] {
                    TokenModel::Comma => match spec_parse_items(ts, n + 1) {
                        Some((vs, m)) => Some((seq![v] + vs, m)),
                        None => None,
                    },
                    TokenModel::RBracket => Some((seq![v], n + 1)),
                    _ => None,
                }
            }
        },
    }
}

/// One or more comma-separated `STRING ':' value` pairs followed by the
/// closing brace. A trailing comma is not permitted. Yields the pairs in
/// source order (duplicate keys kept) and the position after the brace.
pub open spec fn spec_parse_pairs(ts: Seq<TokenModel>, i: int) -> Option<
    (Seq<(Seq<char>, JsonModel)>, int),
>
    decreases ts.len() - i, 1int,
{
    if i < 0 || i + 1 >= ts.len() {
        None
    } else {
        match (ts[i], ts[i + 1]) {
            (TokenModel::StrLit(k), TokenModel::Colon) => {
                match spec_parse_value(ts, i + 2) {
                    None => None,
                    Some((v, n)) => {
                        if !(i + 2 <= n <= ts.len()) {
                            None
                        } else if n == ts.len() {
                            None
                        } else {
                            match ts[n] {
                                TokenModel::Comma => match spec_parse_pairs(ts, n + 1) {
                                    Some((ps, m)) => Some((seq![(k, v)] + ps, m)),
                                    None => None,
                                },
                                TokenModel::RBrace => Some((seq![(k, v)], n + 1)),
                                _ => None,
                            }
                        }
                    },
                }
            },
            _ => None,
        }
    }
}

/// What parsing a whole token stream yields: the empty stream is the
/// null literal; otherwise exactly one value must span the entire
/// stream, and trailing tokens violate the grammar.
pub open spec fn spec_parse(ts: Seq<TokenModel>) -> Option<JsonModel> {
    if ts.len() == 0 {
        Some(JsonModel::Null)
    } else {
        match spec_parse_value(ts, 0) {
            Some((v, n)) => {
                if n == ts.len() {
                    Some(v)
                } else {
                    None
                }
            },
            None => None,
        }
    }
}

/// Prepending an element commutes with taking models.
proof fn lemma_jv_models_insert0(s: Seq<JsonValue>, v: JsonValue)
    ensures
        jv_models(s.insert(0, v)) == seq![jv_model(v)] + jv_models(s),
{
    lemma_jv_models_index(s.insert(0, v));
    lemma_jv_models_index(s);
    assert(jv_models(s.insert(0, v)) =~= seq![jv_model(v)] + jv_models(s));
}

/// Prepending a pair commutes with taking models.
proof fn lemma_jv_pair_models_insert0(s: Seq<(String, JsonValue)>, p: (String, JsonValue))
    ensures
        jv_pair_models(s.insert(0, p)) == seq![(p.0@, jv_model(p.1))] + jv_pair_models(s),
{
    lemma_jv_pair_models_index(s.insert(0, p));
    lemma_jv_pair_models_index(s);
    assert(jv_pair_models(s.insert(0, p)) =~= seq![(p.0@, jv_model(p.1))] + jv_pair_models(s));
}

/// A well-formed head and a well-formed array tail make a well-formed array.
proof fn lemma_array_wf_cons(v: JsonModel, rest: Seq<JsonModel>)
    requires
        json_wf(v),
        json_wf(JsonModel::Array(rest)),
    ensures
        json_wf(JsonModel::Array(seq![v] + rest)),
{
    lemma_json_seq_wf_index(rest);
    lemma_json_seq_wf_index(seq![v] + rest);
    assert forall|i: int| 0 <= i < (seq![v] + rest).len() implies json_wf(
        #[trigger] (seq![v] + rest)[i],
    ) by {
        if i == 0 {
            assert((seq![v] + rest)[i] == v);
        } else {
            assert((seq![v] + rest)[i] == rest[i - 1]);
        }
    }
}

/// A well-formed pair and a well-formed object tail make a well-formed object.
proof fn lemma_object_wf_cons(k: Seq<char>, v: JsonModel, rest: Seq<(Seq<char>, JsonModel)>)
    requires
        crate::token::is_string_text(k),
        json_wf(v),
        json_wf(JsonModel::Object(rest)),
    ensures
        json_wf(JsonModel::Object(seq![(k, v)] + rest)),
{
    lemma_json_pairs_wf_index(rest);
    lemma_json_pairs_wf_index(seq![(k, v)] + rest);
    assert forall|i: int| 0 <= i < (seq![(k, v)] + rest).len() implies crate::token::is_string_text(
        (#[trigger] (seq![(k, v)] + rest)[i]).0,
    ) && json_wf((seq![(k, v)] + rest)[i].1) by {
        if i == 0 {
            assert((seq![(k, v)] + rest)[i] == (k, v));
        } else {
            assert((seq![(k, v)] + rest)[i] == rest[i - 1]);
        }
    }
}

fn parse_error(pos: usize) -> ParseError {
    ParseError { msg: String::from_str("not json"), pos }
}

/// One value starting at token `i`, exactly as `spec_parse_value` says.
fn parse_value(tokens: &Vec<Token>, i: usize) -> (r: Result<(JsonValue, usize), ParseError>)
    requires
        i <= tokens@.len(),
    ensures
        match r {
            Ok(p) => spec_parse_value(tokens.deep_view(), i as int) == Some(
                (jv_model(p.0), p.1 as int),
            ) && i < p.1 <= tokens@.len() && (tokens_wf(tokens.deep_view()) ==> json_wf(
                jv_model(p.0),
            )),
            Err(_) => spec_parse_value(tokens.deep_view(), i as int) is None,
        },
    decreases tokens@.len() - i, 0int,
{
    if i >= tokens.len() {
        return Err(parse_error(i));
    }
    match &tokens[i] {
        Token::LBrace => {
            if i + 1 < tokens.len() && (matches!(&tokens[i + 1], Token::RBrace)) {
                Ok((JsonValue::Object(Vec::new()), i + 2))
            } else {
                match parse_pairs(tokens, i + 1) {
                    Ok((ps, n)) => Ok((JsonValue::Object(ps), n)),
                    Err(e) => Err(e),
                }
            }
        },
        Token::LBracket => {
            if i + 1 < tokens.len() && (matches!(&tokens[i + 1], Token::RBracket)) {
                Ok((JsonValue::Array(Vec::new()), i + 2))
            } else {
                match parse_items(tokens, i + 1) {
                    Ok((vs, n)) => Ok((JsonValue::Array(vs), n)),
                    Err(e) => Err(e),
                }
            }
        },
        Token::StrLit(t) => Ok((JsonValue::Str(t.clone()), i + 1)),
        Token::IntLit(t) => Ok((JsonValue::Number(t.clone()), i + 1)),
        Token::FloatLit(t) => Ok((JsonValue::Float(t.clone()), i + 1)),
        Token::BoolLit(t) => Ok((JsonValue::Bool(t.clone()), i + 1)),
        Token::Ident(t) => {
            let null_text = String::from_str("null");
            if t.eq(&null_text) {
                Ok((JsonValue::Null, i + 1))
            } else {
                Err(parse_error(i))
            }
        },
        _ => Err(parse_error(i)),
    }
}

/// Array elements from token `i` up to and including the closing
/// bracket, exactly as `spec_parse_items` says.
fn parse_items(tokens: &Vec<Token>, i: usize) -> (r: Result<(Vec<JsonValue>, usize), ParseError>)
    requires
        i <= tokens@.len(),
    ensures
        match r {
            Ok(p) => spec_parse_items(tokens.deep_view(), i as int) == Some(
                (jv_models(p.0@), p.1 as int),
            ) && i < p.1 <= tokens@.len() && (tokens_wf(tokens.deep_view()) ==> json_wf(
                JsonModel::Array(jv_models(p.0@)),
            )),
            Err(_) => spec_parse_items(tokens.deep_view(), i as int) is None,
        },
    decreases tokens@.len() - i, 1int,
{
    let (v, n) = match parse_value(tokens, i) {
        Ok(p) => p,
        Err(e) => {
            return Err(e);
        },
    };
    if n == tokens.len() {
        return Err(parse_error(n));
    }
    match &tokens[n] {
        Token::Comma => {
            match parse_items(tokens, n + 1) {
                Ok((mut vs, m)) => {
                    proof {
                        lemma_jv_models_insert0(vs@, v);
                        lemma_jv_models_index(vs@.insert(0, v));
                        if tokens_wf(tokens.deep_view()) {
                            lemma_array_wf_cons(jv_model(v), jv_models(vs@));
                        }
                    }
                    vs.insert(0, v);
                    Ok((vs, m))
                },
                Err(e) => Err(e),
            }
        },
        Token::RBracket => {
            let mut vs: Vec<JsonValue> = Vec::new();
            vs.push(v);
            proof {
                assert(vs@ =~= seq![v]);
                lemma_jv_models_index(vs@);
                assert(jv_models(vs@) =~= seq![jv_model(v)]);
                if tokens_wf(tokens.deep_view()) {
                    assert(json_wf(JsonModel::Array(Seq::<JsonModel>::empty())));
                    lemma_array_wf_cons(jv_model(v), Seq::empty());
                    assert(seq![jv_model(v)] + Seq::<JsonModel>::empty() =~= seq![jv_model(v)]);
                }
            }
            Ok((vs, n + 1))
        },
        _ => Err(parse_error(n)),
    }
}

/// Object pairs from token `i` up to and including the closing brace,
/// exactly as `spec_parse_pairs` says.
fn parse_pairs(tokens: &Vec<Token>, i: usize) -> (r: Result<
    (Vec<(String, JsonValue)>, usize),
    ParseError,
>)
    requires
        i <= tokens@.len(),
    ensures
        match r {
            Ok(p) => spec_parse_pairs(tokens.deep_view(), i as int) == Some(
                (jv_pair_models(p.0@), p.1 as int),
            ) && i < p.1 <= tokens@.len() && (tokens_wf(tokens.deep_view()) ==> json_wf(
                JsonModel::Object(jv_pair_models(p.0@)),
            )),
            Err(_) => spec_parse_pairs(tokens.deep_view(), i as int) is None,
        },
    decreases tokens@.len() - i, 1int,
{
    if i >= tokens.len() || i + 1 >= tokens.len() {
        return Err(parse_error(i));
    }
    let key: String = match &tokens[i] {
        Token::StrLit(k) => k.clone(),
        _ => {
            return Err(parse_error(i));
        },
    };
    match &tokens[i + 1] {
        Token::Colon => {},
        _ => {
            return Err(parse_error(i + 1));
        },
    };
    let (v, n) = match parse_value(tokens, i + 2) {
        Ok(p) => p,
        Err(e) => {
            return Err(e);
        },
    };
    if n == tokens.len() {
        return Err(parse_error(n));
    }
    match &tokens[n] {
        Token::Comma => {
            match parse_pairs(tokens, n + 1) {
                Ok((mut ps, m)) => {
                    proof {
                        lemma_jv_pair_models_insert0(ps@, (key, v));
                        lemma_jv_pair_models_index(ps@.insert(0, (key, v)));
                        if tokens_wf(tokens.deep_view()) {
                            lemma_object_wf_cons(key@, jv_model(v), jv_pair_models(ps@));
                        }
                    }
                    ps.insert(0, (key, v));
                    Ok((ps, m))
                },
                Err(e) => Err(e),
            }
        },
        Token::RBrace => {
            let mut ps: Vec<(String, JsonValue)> = Vec::new();
            ps.push((key, v));
            proof {
                assert(ps@ =~= seq![(key, v)]);
                lemma_jv_pair_models_index(ps@);
                assert(jv_pair_models(ps@) =~= seq![(key@, jv_model(v))]);
                if tokens_wf(tokens.deep_view()) {
                    assert(json_wf(JsonModel::Object(Seq::<(Seq<char>, JsonModel)>::empty())));
                    lemma_object_wf_cons(key@, jv_model(v), Seq::empty());
                    assert(seq![(key@, jv_model(v))] + Seq::<(Seq<char>, JsonModel)>::empty()
                        =~= seq![(key@, jv_model(v))]);
                }
            }
            Ok((ps, n + 1))
        },
        _ => Err(parse_error(n)),
    }
}

impl JsonValue {
    /// Parse one complete value from the token stream.
    ///
    /// The empty stream parses to `Null`. Otherwise exactly one value must
    /// span the whole stream: trailing tokens after a complete value are an
    /// error, as is any token that no production expects. The result is
    /// `Ok` exactly when `spec_parse` accepts the stream, and the returned
    /// tree is the one `spec_parse` names. Well-formed tokens parse to a
    /// well-formed tree.
    pub fn parse(tokens: &Vec<Token>) -> (r: Result<JsonValue, ParseError>)
        ensures
            match r {
                Ok(v) => spec_parse(tokens.deep_view()) == Some(jv_model(v)) && (tokens_wf(
                    tokens.deep_view(),
                ) ==> json_wf(jv_model(v))),
                Err(_) => spec_parse(tokens.deep_view()) is None,
            },
    {
        if tokens.len() == 0 {
            return Ok(JsonValue::Null);
        }
        match parse_value(tokens, 0) {
            Ok((v, n)) => {
                if n == tokens.len() {
                    Ok(v)
                } else {
                    Err(parse_error(n))
                }
            },
            Err(e) => Err(e),
        }
    }
}

} // verus!
