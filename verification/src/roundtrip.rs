use vstd::prelude::*;

use crate::lex::{
    is_ws, lex_cons, lex_prepend, scan_digits_end, scan_ident_end, scan_string_end, spec_lex,
    lemma_scan_digits, lemma_scan_ident, lemma_scan_string,
};
use crate::parse::{spec_parse, spec_parse_items, spec_parse_pairs, spec_parse_value};
use crate::render::{items_text_of, json_text_of, pair_text_of, pairs_text_of};
use crate::spec_parse_text;
use crate::token::{
    is_bool_text, is_digit, is_ident_char, is_ident_start, is_int_text, is_string_text, TokenModel,
};
use crate::tree::{json_pairs_wf, json_seq_wf, json_wf, JsonModel};

verus! {

/// The token stream that renders a tree: the serialization the grammar
/// itself assigns to a value.
pub open spec fn tokens_of(j: JsonModel) -> Seq<TokenModel>
    decreases j, 0int,
{
    match j {
        JsonModel::Null => seq![TokenModel::Ident("null"@)],
        JsonModel::Bool(t) => seq![TokenModel::BoolLit(t)],
        JsonModel::Number(t) => seq![TokenModel::IntLit(t)],
        JsonModel::Float(t) => seq![TokenModel::FloatLit(t)],
        JsonModel::Str(t) => seq![TokenModel::StrLit(t)],
        JsonModel::Array(items) => seq![TokenModel::LBracket] + items_tokens_of(items) + seq![
            TokenModel::RBracket,
        ],
        JsonModel::Object(pairs) => seq![TokenModel::LBrace] + pairs_tokens_of(pairs) + seq![
            TokenModel::RBrace,
        ],
    }
}

/// Array elements joined by a comma token.
pub open spec fn items_tokens_of(items: Seq<JsonModel>) -> Seq<TokenModel>
    decreases items, 1int,
{
    if items.len() == 0 {
        Seq::empty()
    } else if items.len() == 1 {
        tokens_of(items.last())
    } else {
        items_tokens_of(items.drop_last()) + seq![TokenModel::Comma] + tokens_of(items.last())
    }
}

/// Object pairs joined by a comma token.
pub open spec fn pairs_tokens_of(pairs: Seq<(Seq<char>, JsonModel)>) -> Seq<TokenModel>
    decreases pairs, 1int,
{
    if pairs.len() == 0 {
        Seq::empty()
    } else if pairs.len() == 1 {
        pair_tokens_of(pairs.last())
    } else {
        pairs_tokens_of(pairs.drop_last()) + seq![TokenModel::Comma] + pair_tokens_of(pairs.last())
    }
}

/// One object pair: key string, colon, value.
pub open spec fn pair_tokens_of(p: (Seq<char>, JsonModel)) -> Seq<TokenModel>
    decreases p, 2int,
{
    seq![TokenModel::StrLit(p.0), TokenModel::Colon] + tokens_of(p.1)
}

/// A value's serialization is never empty, and its first token is one
/// that can start a value.
pub proof fn lemma_tokens_of_first(j: JsonModel)
    ensures
        tokens_of(j).len() > 0,
        !(tokens_of(j)[0] is RBracket),
        !(tokens_of(j)[0] is RBrace),
        !(tokens_of(j)[0] is Comma),
        !(tokens_of(j)[0] is Colon),
{
}

/// Splitting a joined element list at its first element.
pub proof fn lemma_items_tokens_cons(items: Seq<JsonModel>)
    requires
        items.len() >= 1,
    ensures
        items.len() == 1 ==> items_tokens_of(items) == tokens_of(items.first()),
        items.len() > 1 ==> items_tokens_of(items) == tokens_of(items.first()) + seq![
            TokenModel::Comma,
        ] + items_tokens_of(items.drop_first()),
    decreases items.len(),
{
    if items.len() == 1 {
        assert(items.first() == items.last());
    } else if items.len() == 2 {
        assert(items.drop_last().last() == items.first());
        assert(items.drop_last().len() == 1);
        assert(items.drop_first().len() == 1);
        assert(items.drop_first().last() == items.last());
        assert(items_tokens_of(items.drop_last()) == tokens_of(items.first()));
        assert(items_tokens_of(items.drop_first()) == tokens_of(items.last()));
        assert(items_tokens_of(items.drop_last()) + seq![TokenModel::Comma] + tokens_of(
            items.last(),
        ) =~= tokens_of(items.first()) + seq![TokenModel::Comma] + items_tokens_of(
            items.drop_first(),
        ));
    } else {
        lemma_items_tokens_cons(items.drop_last());
        assert(items.drop_last().first() == items.first());
        assert(items.drop_last().drop_first() =~= items.drop_first().drop_last());
        lemma_items_tokens_cons(items.drop_first());
        assert(items.drop_first().last() == items.last());
        assert(items.drop_first().len() > 1);
        assert((tokens_of(items.first()) + seq![TokenModel::Comma] + items_tokens_of(
            items.drop_first().drop_last(),
        )) + seq![TokenModel::Comma] + tokens_of(items.last()) =~= tokens_of(items.first()) + seq![
            TokenModel::Comma,
        ] + (items_tokens_of(items.drop_first().drop_last()) + seq![TokenModel::Comma] + tokens_of(
            items.drop_first().last(),
        )));
    }
}

/// Splitting a joined pair list at its first pair.
pub proof fn lemma_pairs_tokens_cons(pairs: Seq<(Seq<char>, JsonModel)>)
    requires
        pairs.len() >= 1,
    ensures
        pairs.len() == 1 ==> pairs_tokens_of(pairs) == pair_tokens_of(pairs.first()),
        pairs.len() > 1 ==> pairs_tokens_of(pairs) == pair_tokens_of(pairs.first()) + seq![
            TokenModel::Comma,
        ] + pairs_tokens_of(pairs.drop_first()),
    decreases pairs.len(),
{
    if pairs.len() == 1 {
        assert(pairs.first() == pairs.last());
    } else if pairs.len() == 2 {
        assert(pairs.drop_last().last() == pairs.first());
        assert(pairs.drop_last().len() == 1);
        assert(pairs.drop_first().len() == 1);
        assert(pairs.drop_first().last() == pairs.last());
        assert(pairs_tokens_of(pairs.drop_last()) + seq![TokenModel::Comma] + pair_tokens_of(
            pairs.last(),
        ) =~= pair_tokens_of(pairs.first()) + seq![TokenModel::Comma] + pairs_tokens_of(
            pairs.drop_first(),
        ));
    } else {
        lemma_pairs_tokens_cons(pairs.drop_last());
        assert(pairs.drop_last().first() == pairs.first());
        assert(pairs.drop_last().drop_first() =~= pairs.drop_first().drop_last());
        lemma_pairs_tokens_cons(pairs.drop_first());
        assert(pairs.drop_first().last() == pairs.last());
        assert(pairs.drop_first().len() > 1);
        assert((pair_tokens_of(pairs.first()) + seq![TokenModel::Comma] + pairs_tokens_of(
            pairs.drop_first().drop_last(),
        )) + seq![TokenModel::Comma] + pair_tokens_of(pairs.last()) =~= pair_tokens_of(
            pairs.first(),
        ) + seq![TokenModel::Comma] + (pairs_tokens_of(pairs.drop_first().drop_last()) + seq![
            TokenModel::Comma,
        ] + pair_tokens_of(pairs.drop_first().last())));
    }
}

/// The tokens `u` stand in `ts` beginning at `i`.
pub open spec fn toks_at(ts: Seq<TokenModel>, i: int, u: Seq<TokenModel>) -> bool {
    0 <= i && i + u.len() <= ts.len() && ts.subrange(i, i + u.len() as int) == u
}

/// A concatenation in place is each part in place.
pub proof fn lemma_toks_at_concat(ts: Seq<TokenModel>, i: int, a: Seq<TokenModel>, b: Seq<
    TokenModel,
>)
    requires
        toks_at(ts, i, a + b),
    ensures
        toks_at(ts, i, a),
        toks_at(ts, i + a.len(), b),
{
    assert forall|q: int| 0 <= q < a.len() implies #[trigger] ts.subrange(i, i + a.len() as int)[q]
        == a[q] by {
        assert(ts.subrange(i, i + (a + b).len() as int)[q] == (a + b)[q]);
    }
    assert(ts.subrange(i, i + a.len() as int) =~= a);
    assert forall|q: int|
        0 <= q < b.len() implies #[trigger] ts.subrange(
        i + a.len(),
        i + a.len() + b.len() as int,
    )[q] == b[q] by {
        assert(ts.subrange(i, i + (a + b).len() as int)[a.len() + q] == (a + b)[a.len() + q]);
    }
    assert(ts.subrange(i + a.len(), i + a.len() + b.len() as int) =~= b);
}

/// Parsing a value's serialization from any position yields that value
/// and stops right after it.
pub proof fn lemma_parse_ser_value(ts: Seq<TokenModel>, i: int, j: JsonModel)
    requires
        json_wf(j),
        toks_at(ts, i, tokens_of(j)),
    ensures
        spec_parse_value(ts, i) == Some((j, i + tokens_of(j).len())),
    decreases j, 0int,
{
    lemma_tokens_of_first(j);
    assert(ts[i] == tokens_of(j)[0]) by {
        assert(ts.subrange(i, i + tokens_of(j).len() as int)[0] == tokens_of(j)[0]);
    }
    match j {
        JsonModel::Null => {},
        JsonModel::Bool(t) => {},
        JsonModel::Number(t) => {},
        JsonModel::Float(t) => {},
        JsonModel::Str(t) => {},
        JsonModel::Array(items) => {
            if items.len() == 0 {
                assert(tokens_of(j) =~= seq![TokenModel::LBracket, TokenModel::RBracket]);
                assert(ts[i + 1] == tokens_of(j)[1]) by {
                    assert(ts.subrange(i, i + tokens_of(j).len() as int)[1] == tokens_of(j)[1]);
                }
                assert(items =~= Seq::<JsonModel>::empty());
                assert(spec_parse_value(ts, i) == Some((JsonModel::Array(items), i + 2)));
            } else {
                assert(seq![TokenModel::LBracket] + (items_tokens_of(items) + seq![
                    TokenModel::RBracket,
                ]) =~= tokens_of(j));
                lemma_toks_at_concat(ts, i, seq![TokenModel::LBracket], items_tokens_of(items)
                    + seq![TokenModel::RBracket]);
                lemma_items_tokens_cons(items);
                crate::tree::lemma_json_seq_wf_index(items);
                lemma_parse_ser_items(ts, i + 1, items);
                assert(ts[i + 1] == items_tokens_of(items)[0]) by {
                    assert(ts.subrange(
                        i + 1,
                        i + 1 + (items_tokens_of(items) + seq![TokenModel::RBracket]).len() as int,
                    )[0] == (items_tokens_of(items) + seq![TokenModel::RBracket])[0]);
                }
                assert(items_tokens_of(items)[0] == tokens_of(items.first())[0]) by {
                    if items.len() > 1 {
                        lemma_tokens_of_first(items.first());
                        assert((tokens_of(items.first()) + seq![TokenModel::Comma]
                            + items_tokens_of(items.drop_first()))[0] == tokens_of(
                            items.first(),
                        )[0]);
                    }
                }
                lemma_tokens_of_first(items.first());
                assert(!(ts[i + 1] is RBracket));
            }
        },
        JsonModel::Object(pairs) => {
            if pairs.len() == 0 {
                assert(tokens_of(j) =~= seq![TokenModel::LBrace, TokenModel::RBrace]);
                assert(ts[i + 1] == tokens_of(j)[1]) by {
                    assert(ts.subrange(i, i + tokens_of(j).len() as int)[1] == tokens_of(j)[1]);
                }
                assert(pairs =~= Seq::<(Seq<char>, JsonModel)>::empty());
                assert(spec_parse_value(ts, i) == Some((JsonModel::Object(pairs), i + 2)));
            } else {
                assert(seq![TokenModel::LBrace] + (pairs_tokens_of(pairs) + seq![
                    TokenModel::RBrace,
                ]) =~= tokens_of(j));
                lemma_toks_at_concat(ts, i, seq![TokenModel::LBrace], pairs_tokens_of(pairs) + seq![
                    TokenModel::RBrace,
                ]);
                lemma_pairs_tokens_cons(pairs);
                crate::tree::lemma_json_pairs_wf_index(pairs);
                lemma_parse_ser_pairs(ts, i + 1, pairs);
                assert(ts[i + 1] == pairs_tokens_of(pairs)[0]) by {
                    assert(ts.subrange(
                        i + 1,
                        i + 1 + (pairs_tokens_of(pairs) + seq![TokenModel::RBrace]).len() as int,
                    )[0] == (pairs_tokens_of(pairs) + seq![TokenModel::RBrace])[0]);
                }
                assert(pairs_tokens_of(pairs)[0] == TokenModel::StrLit(pairs.first().0)) by {
                    assert(pair_tokens_of(pairs.first())[0] == TokenModel::StrLit(pairs.first().0));
                    if pairs.len() > 1 {
                        assert((pair_tokens_of(pairs.first()) + seq![TokenModel::Comma]
                            + pairs_tokens_of(pairs.drop_first()))[0] == pair_tokens_of(
                            pairs.first(),
                        )[0]);
                    }
                }
                assert(!(ts[i + 1] is RBrace));
            }
        },
    }
}

/// Parsing the serialization of a non-empty element list, closing
/// bracket included, yields exactly those elements.
pub proof fn lemma_parse_ser_items(ts: Seq<TokenModel>, i: int, items: Seq<JsonModel>)
    requires
        items.len() > 0,
        json_seq_wf(items),
        toks_at(ts, i, items_tokens_of(items) + seq![TokenModel::RBracket]),
    ensures
        spec_parse_items(ts, i) == Some((items, i + items_tokens_of(items).len() + 1)),
    decreases items, 1int,
{
    crate::tree::lemma_json_seq_wf_index(items);
    lemma_items_tokens_cons(items);
    let first = items.first();
    let ft = tokens_of(first);
    if items.len() == 1 {
        lemma_toks_at_concat(ts, i, ft, seq![TokenModel::RBracket]);
        lemma_parse_ser_value(ts, i, first);
        let n = i + ft.len();
        assert(ts[n] == TokenModel::RBracket) by {
            assert(ts.subrange(n, n + 1)[0] == seq![TokenModel::RBracket][0]);
        }
        lemma_tokens_of_first(first);
        assert(spec_parse_items(ts, i) == Some((seq![first], n + 1)));
        assert(seq![first] =~= items);
    } else {
        assert((ft + seq![TokenModel::Comma] + items_tokens_of(items.drop_first())) + seq![
            TokenModel::RBracket,
        ] =~= ft + (seq![TokenModel::Comma] + (items_tokens_of(items.drop_first()) + seq![
            TokenModel::RBracket,
        ])));
        lemma_toks_at_concat(ts, i, ft, seq![TokenModel::Comma] + (items_tokens_of(
            items.drop_first(),
        ) + seq![TokenModel::RBracket]));
        lemma_parse_ser_value(ts, i, first);
        let n = i + ft.len();
        lemma_toks_at_concat(ts, n, seq![TokenModel::Comma], items_tokens_of(items.drop_first())
            + seq![TokenModel::RBracket]);
        assert(ts[n] == TokenModel::Comma) by {
            assert(ts.subrange(n, n + 1)[0] == seq![TokenModel::Comma][0]);
        }
        assert forall|q: int| 0 <= q < items.drop_first().len() implies json_wf(
            #[trigger] items.drop_first()[q],
        ) by {
            assert(items.drop_first()[q] == items[q + 1]);
        }
        crate::tree::lemma_json_seq_wf_index(items.drop_first());
        lemma_parse_ser_items(ts, n + 1, items.drop_first());
        lemma_tokens_of_first(first);
        assert(spec_parse_items(ts, i) == Some(
            (seq![first] + items.drop_first(), i + items_tokens_of(items).len() + 1),
        ));
        assert(seq![first] + items.drop_first() =~= items);
    }
}

/// Parsing the serialization of a non-empty pair list, closing brace
/// included, yields exactly those pairs.
pub proof fn lemma_parse_ser_pairs(ts: Seq<TokenModel>, i: int, pairs: Seq<(Seq<char>, JsonModel)>)
    requires
        pairs.len() > 0,
        json_pairs_wf(pairs),
        toks_at(ts, i, pairs_tokens_of(pairs) + seq![TokenModel::RBrace]),
    ensures
        spec_parse_pairs(ts, i) == Some((pairs, i + pairs_tokens_of(pairs).len() + 1)),
    decreases pairs, 1int,
{
    crate::tree::lemma_json_pairs_wf_index(pairs);
    lemma_pairs_tokens_cons(pairs);
    let first = pairs.first();
    let pt = pair_tokens_of(first);
    let vt = tokens_of(first.1);
    assert(pt =~= seq![TokenModel::StrLit(first.0), TokenModel::Colon] + vt);
    if pairs.len() == 1 {
        lemma_toks_at_concat(ts, i, pt, seq![TokenModel::RBrace]);
        lemma_toks_at_concat(ts, i, seq![TokenModel::StrLit(first.0), TokenModel::Colon], vt);
        assert(ts[i] == TokenModel::StrLit(first.0) && ts[i + 1] == TokenModel::Colon) by {
            let kk = seq![TokenModel::StrLit(first.0), TokenModel::Colon];
            assert(ts.subrange(i, i + 2)[0] == kk[0]);
            assert(ts.subrange(i, i + 2)[1] == kk[1]);
        }
        lemma_parse_ser_value(ts, i + 2, first.1);
        let n = i + 2 + vt.len();
        assert(ts[n] == TokenModel::RBrace) by {
            assert(ts.subrange(n, n + 1)[0] == seq![TokenModel::RBrace][0]);
        }
        assert(spec_parse_pairs(ts, i) == Some((seq![(first.0, first.1)], n + 1)));
        assert(seq![(first.0, first.1)] =~= pairs);
    } else {
        assert((pt + seq![TokenModel::Comma] + pairs_tokens_of(pairs.drop_first())) + seq![
            TokenModel::RBrace,
        ] =~= pt + (seq![TokenModel::Comma] + (pairs_tokens_of(pairs.drop_first()) + seq![
            TokenModel::RBrace,
        ])));
        lemma_toks_at_concat(ts, i, pt, seq![TokenModel::Comma] + (pairs_tokens_of(
            pairs.drop_first(),
        ) + seq![TokenModel::RBrace]));
        lemma_toks_at_concat(ts, i, seq![TokenModel::StrLit(first.0), TokenModel::Colon], vt);
        assert(ts[i] == TokenModel::StrLit(first.0) && ts[i + 1] == TokenModel::Colon) by {
            let kk = seq![TokenModel::StrLit(first.0), TokenModel::Colon];
            assert(ts.subrange(i, i + 2)[0] == kk[0]);
            assert(ts.subrange(i, i + 2)[1] == kk[1]);
        }
        lemma_parse_ser_value(ts, i + 2, first.1);
        let n = i + 2 + vt.len();
        lemma_toks_at_concat(ts, n, seq![TokenModel::Comma], pairs_tokens_of(pairs.drop_first())
            + seq![TokenModel::RBrace]);
        assert(ts[n] == TokenModel::Comma) by {
            assert(ts.subrange(n, n + 1)[0] == seq![TokenModel::Comma][0]);
        }
        assert forall|q: int| 0 <= q < pairs.drop_first().len() implies crate::token::is_string_text(
            (#[trigger] pairs.drop_first()[q]).0,
        ) && json_wf(pairs.drop_first()[q].1) by {
            assert(pairs.drop_first()[q] == pairs[q + 1]);
        }
        crate::tree::lemma_json_pairs_wf_index(pairs.drop_first());
        lemma_parse_ser_pairs(ts, n + 1, pairs.drop_first());
        assert(spec_parse_pairs(ts, i) == Some(
            (seq![(first.0, first.1)] + pairs.drop_first(), i + pairs_tokens_of(pairs).len() + 1),
        ));
        assert(seq![(first.0, first.1)] + pairs.drop_first() =~= pairs);
    }
}

/// Round trip at the token level: parsing the serialization of any
/// well-formed tree gives back exactly that tree.
pub proof fn lemma_parse_of_tokens(j: JsonModel)
    requires
        json_wf(j),
    ensures
        spec_parse(tokens_of(j)) == Some(j),
{
    let ts = tokens_of(j);
    lemma_tokens_of_first(j);
    assert(ts.subrange(0, ts.len() as int) =~= ts);
    lemma_parse_ser_value(ts, 0, j);
}

/// The characters `t` stand in `s` beginning at `i`.
pub open spec fn text_at(s: Seq<char>, i: int, t: Seq<char>) -> bool {
    0 <= i && i + t.len() <= s.len() && s.subrange(i, i + t.len() as int) == t
}

/// A concatenation in place is each part in place.
pub proof fn lemma_text_at_concat(s: Seq<char>, i: int, a: Seq<char>, b: Seq<char>)
    requires
        text_at(s, i, a + b),
    ensures
        text_at(s, i, a),
        text_at(s, i + a.len(), b),
{
    assert forall|q: int| 0 <= q < a.len() implies #[trigger] s.subrange(i, i + a.len() as int)[q]
        == a[q] by {
        assert(s.subrange(i, i + (a + b).len() as int)[q] == (a + b)[q]);
    }
    assert(s.subrange(i, i + a.len() as int) =~= a);
    assert forall|q: int|
        0 <= q < b.len() implies #[trigger] s.subrange(
        i + a.len(),
        i + a.len() + b.len() as int,
    )[q] == b[q] by {
        assert(s.subrange(i, i + (a + b).len() as int)[a.len() + q] == (a + b)[a.len() + q]);
    }
    assert(s.subrange(i + a.len(), i + a.len() + b.len() as int) =~= b);
}

/// A digit scan stops exactly where the digits stop.
proof fn lemma_scan_digits_pin(s: Seq<char>, i: int, e: int)
    requires
        0 <= i <= e <= s.len(),
        forall|q: int| i <= q < e ==> is_digit(#[trigger] s[q]),
        e < s.len() ==> !is_digit(s[e]),
    ensures
        scan_digits_end(s, i) == e,
{
    lemma_scan_digits(s, i);
    let sc = scan_digits_end(s, i);
    if sc < e {
        assert(is_digit(s[sc]));
    } else if sc > e {
        assert(is_digit(s[e]));
    }
}

/// An identifier scan stops exactly where the identifier stops.
proof fn lemma_scan_ident_pin(s: Seq<char>, i: int, e: int)
    requires
        0 <= i <= e <= s.len(),
        forall|q: int| i <= q < e ==> is_ident_char(#[trigger] s[q]),
        e < s.len() ==> !is_ident_char(s[e]),
    ensures
        scan_ident_end(s, i) == e,
{
    lemma_scan_ident(s, i);
    let sc = scan_ident_end(s, i);
    if sc < e {
        assert(is_ident_char(s[sc]));
    } else if sc > e {
        assert(is_ident_char(s[e]));
    }
}

/// A string scan stops exactly at the closing quote.
proof fn lemma_scan_string_pin(s: Seq<char>, i: int, e: int)
    requires
        0 <= i <= e <= s.len(),
        forall|q: int| i <= q < e ==> #[trigger] s[q] != '"',
        e < s.len() ==> s[e] == '"',
    ensures
        scan_string_end(s, i) == e,
{
    lemma_scan_string(s, i);
    let sc = scan_string_end(s, i);
    if sc < e {
        assert(s[sc] != '"');
    } else if sc > e {
        assert(s[e] != '"');
    }
}

/// A position at which a rendered value may end: the end of the text,
/// or a character that always ends the token before it.
pub open spec fn lex_boundary(s: Seq<char>, e: int) -> bool {
    e >= s.len() || s[e] == ',' || s[e] == ']' || s[e] == '}'
}

/// Lexing the rendered text of a well-formed value, standing at `i`
/// with a boundary after it, yields the value's tokens followed by
/// whatever the remainder lexes to.
#[verifier::rlimit(80)]
proof fn lemma_lex_ser_value(s: Seq<char>, i: int, j: JsonModel)
    requires
        json_wf(j),
        text_at(s, i, json_text_of(j)),
        lex_boundary(s, i + json_text_of(j).len()),
    ensures
        spec_lex(s, i) == lex_prepend(tokens_of(j), spec_lex(s, i + json_text_of(j).len())),
    decreases j, 0int,
{
    let txt = json_text_of(j);
    let tl = txt.len() as int;
    assert forall|q: int| 0 <= q < tl implies #[trigger] s[i + q] == txt[q] by {
        assert(s.subrange(i, i + tl)[q] == txt[q]);
    }
    match j {
        JsonModel::Null => {
            reveal_strlit("null");
            reveal_strlit("true");
            reveal_strlit("false");
            assert forall|q: int| 0 <= q < 4 implies #[trigger] s[i + q] == txt[q] by {
                assert(s.subrange(i, i + tl)[q] == txt[q]);
            }
            assert(s[i + 0] == 'n' && s[i + 1] == 'u' && s[i + 2] == 'l' && s[i + 3] == 'l');
            assert(s[i] == 'n');
            assert forall|q: int| i <= q < i + 4 implies is_ident_char(#[trigger] s[q]) by {
                assert(s[i + (q - i)] == txt[q - i]);
            }
            lemma_scan_ident_pin(s, i, i + 4);
            assert(s.subrange(i, i + 4) == txt);
            assert(!is_bool_text(txt)) by {
                assert(txt[0] == 'n');
                if txt == "true"@ {
                    assert(txt[0] == 't');
                }
                if txt == "false"@ {
                    assert(txt[0] == 'f');
                }
            }
        },
        JsonModel::Bool(t) => {
            reveal_strlit("true");
            reveal_strlit("false");
            assert forall|q: int| i <= q < i + tl implies is_ident_char(#[trigger] s[q]) by {
                assert(s[q] == txt[q - i]);
            }
            assert(s[i] == txt[0]) by {
                assert(s.subrange(i, i + tl)[0] == txt[0]);
            }
            assert(s[i] == 't' || s[i] == 'f');
            lemma_scan_ident_pin(s, i, i + tl);
            assert(s.subrange(i, i + tl) == txt);
        },
        JsonModel::Number(t) => {
            assert forall|q: int| i <= q < i + tl implies is_digit(#[trigger] s[q]) by {
                assert(s[q] == txt[q - i]);
            }
            assert(is_digit(s[i]));
            lemma_scan_digits_pin(s, i, i + tl);
            assert(s.subrange(i, i + tl) == txt);
        },
        JsonModel::Float(t) => {
            let k = choose|k: int|
                0 <= k < t.len() && #[trigger] t[k] == '.' && is_int_text(t.subrange(0, k))
                    && is_int_text(t.subrange(k + 1, t.len() as int));
            assert forall|q: int| i <= q < i + k implies is_digit(#[trigger] s[q]) by {
                assert(s[q] == t[q - i]);
                assert(t.subrange(0, k)[q - i] == t[q - i]);
            }
            assert(is_digit(s[i])) by {
                assert(t.subrange(0, k).len() > 0);
                assert(t.subrange(0, k)[0] == t[0]);
            }
            assert(s[i + k] == '.');
            lemma_scan_digits_pin(s, i, i + k);
            assert forall|q: int| i + k + 1 <= q < i + tl implies is_digit(#[trigger] s[q]) by {
                assert(s[q] == t[q - i]);
                assert(t.subrange(k + 1, t.len() as int)[q - i - k - 1] == t[q - i]);
            }
            lemma_scan_digits_pin(s, i + k + 1, i + tl);
            assert(t.subrange(k + 1, t.len() as int).len() > 0);
            assert(s.subrange(i, i + tl) == txt);
        },
        JsonModel::Str(t) => {
            reveal_strlit("\"");
            assert(txt =~= seq!['"'] + t + seq!['"']);
            assert(s[i] == txt[0]) by {
                assert(s.subrange(i, i + tl)[0] == txt[0]);
            }
            assert(s[i + tl - 1] == txt[tl - 1]) by {
                assert(s.subrange(i, i + tl)[tl - 1] == txt[tl - 1]);
            }
            assert(s[i] == '"');
            assert(s[i + tl - 1] == '"');
            assert forall|q: int| i + 1 <= q < i + tl - 1 implies #[trigger] s[q] != '"' by {
                assert(s.subrange(i, i + tl)[q - i] == txt[q - i]);
                assert(txt[q - i] == t[q - i - 1]);
            }
            assert(!is_ws(s[i]) && s[i] != '{' && s[i] != '}' && s[i] != '[' && s[i] != ']'
                && s[i] != ':' && s[i] != ',');
            lemma_scan_string_pin(s, i + 1, i + tl - 1);
            assert forall|q: int| 0 <= q < t.len() implies #[trigger] s.subrange(
                i + 1,
                i + tl - 1,
            )[q] == t[q] by {
                assert(s.subrange(i, i + tl)[q + 1] == txt[q + 1]);
            }
            assert(s.subrange(i + 1, i + tl - 1) =~= t);
            assert(spec_lex(s, i) == lex_cons(
                TokenModel::StrLit(t),
                spec_lex(s, i + tl),
            ));
        },
        JsonModel::Array(items) => {
            reveal_strlit("[");
            reveal_strlit("]");
            assert("["@.len() == 1 && "["@[0] == '[');
            assert("]"@.len() == 1 && "]"@[0] == ']');
            assert(s[i] == txt[0]) by {
                assert(s.subrange(i, i + tl)[0] == txt[0]);
            }
            assert(txt[0] == '[') by {
                assert(txt == "["@ + items_text_of(items) + "]"@);
            }
            assert(s[i] == '[');
            if items.len() == 0 {
                assert(items_text_of(items) == Seq::<char>::empty());
                assert(tl == 2);
                assert(s[i + 1] == txt[1]) by {
                    assert(s.subrange(i, i + tl)[1] == txt[1]);
                }
                assert(txt[1] == ']') by {
                    assert(txt == "["@ + items_text_of(items) + "]"@);
                }
                assert(spec_lex(s, i) == lex_cons(
                    TokenModel::LBracket,
                    lex_cons(TokenModel::RBracket, spec_lex(s, i + 2)),
                ));
                assert(tokens_of(j) =~= seq![TokenModel::LBracket, TokenModel::RBracket]);
                match spec_lex(s, i + 2) {
                    Some(zs) => {
                        assert(seq![TokenModel::LBracket] + (seq![TokenModel::RBracket] + zs)
                            =~= tokens_of(j) + zs);
                    },
                    None => {},
                }
            } else {
                let body = items_text_of(items);
                assert(txt =~= "["@ + (body + "]"@));
                lemma_text_at_concat(s, i, "["@, body + "]"@);
                lemma_text_at_concat(s, i + 1, body, "]"@);
                assert(s[i + 1 + body.len()] == ']') by {
                    assert(s.subrange(i + 1 + body.len(), i + 1 + body.len() + 1)[0] == "]"@[0]);
                }
                crate::tree::lemma_json_seq_wf_index(items);
                lemma_lex_ser_items(s, i + 1, items);
                let m = i + 1 + body.len();
                assert(spec_lex(s, m) == lex_cons(TokenModel::RBracket, spec_lex(s, i + tl)));
                assert(spec_lex(s, i) == lex_cons(TokenModel::LBracket, spec_lex(s, i + 1)));
                match spec_lex(s, i + tl) {
                    Some(zs) => {
                        assert(seq![TokenModel::LBracket] + (items_tokens_of(items) + (seq![
                            TokenModel::RBracket,
                        ] + zs)) =~= tokens_of(j) + zs);
                    },
                    None => {},
                }
            }
        },
        JsonModel::Object(pairs) => {
            reveal_strlit("{");
            reveal_strlit("}");
            assert("{"@.len() == 1 && "{"@[0] == '{');
            assert("}"@.len() == 1 && "}"@[0] == '}');
            assert(s[i] == txt[0]) by {
                assert(s.subrange(i, i + tl)[0] == txt[0]);
            }
            assert(txt[0] == '{') by {
                assert(txt == "{"@ + pairs_text_of(pairs) + "}"@);
            }
            assert(s[i] == '{');
            if pairs.len() == 0 {
                assert(pairs_text_of(pairs) == Seq::<char>::empty());
                assert(tl == 2);
                assert(s[i + 1] == txt[1]) by {
                    assert(s.subrange(i, i + tl)[1] == txt[1]);
                }
                assert(txt[1] == '}') by {
                    assert(txt == "{"@ + pairs_text_of(pairs) + "}"@);
                }
                assert(spec_lex(s, i) == lex_cons(
                    TokenModel::LBrace,
                    lex_cons(TokenModel::RBrace, spec_lex(s, i + 2)),
                ));
                assert(tokens_of(j) =~= seq![TokenModel::LBrace, TokenModel::RBrace]);
                match spec_lex(s, i + 2) {
                    Some(zs) => {
                        assert(seq![TokenModel::LBrace] + (seq![TokenModel::RBrace] + zs)
                            =~= tokens_of(j) + zs);
                    },
                    None => {},
                }
            } else {
                let body = pairs_text_of(pairs);
                assert(txt =~= "{"@ + (body + "}"@));
                lemma_text_at_concat(s, i, "{"@, body + "}"@);
                lemma_text_at_concat(s, i + 1, body, "}"@);
                assert(s[i + 1 + body.len()] == '}') by {
                    assert(s.subrange(i + 1 + body.len(), i + 1 + body.len() + 1)[0] == "}"@[0]);
                }
                crate::tree::lemma_json_pairs_wf_index(pairs);
                lemma_lex_ser_pairs(s, i + 1, pairs);
                let m = i + 1 + body.len();
                assert(spec_lex(s, m) == lex_cons(TokenModel::RBrace, spec_lex(s, i + tl)));
                assert(spec_lex(s, i) == lex_cons(TokenModel::LBrace, spec_lex(s, i + 1)));
                match spec_lex(s, i + tl) {
                    Some(zs) => {
                        assert(seq![TokenModel::LBrace] + (pairs_tokens_of(pairs) + (seq![
                            TokenModel::RBrace,
                        ] + zs)) =~= tokens_of(j) + zs);
                    },
                    None => {},
                }
            }
        },
    }
}

/// Splitting a joined element text at its first element.
proof fn lemma_items_text_cons(items: Seq<JsonModel>)
    requires
        items.len() >= 1,
    ensures
        items.len() == 1 ==> items_text_of(items) == json_text_of(items.first()),
        items.len() > 1 ==> items_text_of(items) == json_text_of(items.first()) + ", "@
            + items_text_of(items.drop_first()),
    decreases items.len(),
{
    if items.len() == 1 {
        assert(items.first() == items.last());
    } else if items.len() == 2 {
        assert(items.drop_last().last() == items.first());
        assert(items.drop_last().len() == 1);
        assert(items.drop_first().len() == 1);
        assert(items.drop_first().last() == items.last());
        assert(items_text_of(items.drop_last()) + ", "@ + json_text_of(items.last())
            =~= json_text_of(items.first()) + ", "@ + items_text_of(items.drop_first()));
    } else {
        lemma_items_text_cons(items.drop_last());
        assert(items.drop_last().first() == items.first());
        assert(items.drop_last().drop_first() =~= items.drop_first().drop_last());
        lemma_items_text_cons(items.drop_first());
        assert(items.drop_first().last() == items.last());
        assert(items.drop_first().len() > 1);
        assert((json_text_of(items.first()) + ", "@ + items_text_of(
            items.drop_first().drop_last(),
        )) + ", "@ + json_text_of(items.last()) =~= json_text_of(items.first()) + ", "@
            + (items_text_of(items.drop_first().drop_last()) + ", "@ + json_text_of(
            items.drop_first().last(),
        )));
    }
}

/// Splitting a joined pair text at its first pair.
proof fn lemma_pairs_text_cons(pairs: Seq<(Seq<char>, JsonModel)>)
    requires
        pairs.len() >= 1,
    ensures
        pairs.len() == 1 ==> pairs_text_of(pairs) == pair_text_of(pairs.first()),
        pairs.len() > 1 ==> pairs_text_of(pairs) == pair_text_of(pairs.first()) + ", "@
            + pairs_text_of(pairs.drop_first()),
    decreases pairs.len(),
{
    if pairs.len() == 1 {
        assert(pairs.first() == pairs.last());
    } else if pairs.len() == 2 {
        assert(pairs.drop_last().last() == pairs.first());
        assert(pairs.drop_last().len() == 1);
        assert(pairs.drop_first().len() == 1);
        assert(pairs.drop_first().last() == pairs.last());
        assert(pairs_text_of(pairs.drop_last()) + ", "@ + pair_text_of(pairs.last())
            =~= pair_text_of(pairs.first()) + ", "@ + pairs_text_of(pairs.drop_first()));
    } else {
        lemma_pairs_text_cons(pairs.drop_last());
        assert(pairs.drop_last().first() == pairs.first());
        assert(pairs.drop_last().drop_first() =~= pairs.drop_first().drop_last());
        lemma_pairs_text_cons(pairs.drop_first());
        assert(pairs.drop_first().last() == pairs.last());
        assert(pairs.drop_first().len() > 1);
        assert((pair_text_of(pairs.first()) + ", "@ + pairs_text_of(
            pairs.drop_first().drop_last(),
        )) + ", "@ + pair_text_of(pairs.last()) =~= pair_text_of(pairs.first()) + ", "@
            + (pairs_text_of(pairs.drop_first().drop_last()) + ", "@ + pair_text_of(
            pairs.drop_first().last(),
        )));
    }
}

/// Lexing the rendered text of a non-empty element list, with a
/// boundary at its end, yields the joined element tokens.
proof fn lemma_lex_ser_items(s: Seq<char>, i: int, items: Seq<JsonModel>)
    requires
        items.len() > 0,
        json_seq_wf(items),
        text_at(s, i, items_text_of(items)),
        lex_boundary(s, i + items_text_of(items).len()),
    ensures
        spec_lex(s, i) == lex_prepend(
            items_tokens_of(items),
            spec_lex(s, i + items_text_of(items).len()),
        ),
    decreases items, 1int,
{
    crate::tree::lemma_json_seq_wf_index(items);
    lemma_items_text_cons(items);
    lemma_items_tokens_cons(items);
    let first = items.first();
    let ft = json_text_of(first);
    if items.len() == 1 {
        lemma_lex_ser_value(s, i, first);
    } else {
        reveal_strlit(", ");
        assert(", "@.len() == 2 && ", "@[0] == ',' && ", "@[1] == ' ');
        let rest_text = items_text_of(items.drop_first());
        assert(items_text_of(items) =~= ft + (", "@ + rest_text));
        lemma_text_at_concat(s, i, ft, ", "@ + rest_text);
        let m = i + ft.len();
        lemma_text_at_concat(s, m, ", "@, rest_text);
        assert(s[m] == ',' && s[m + 1] == ' ') by {
            assert(s.subrange(m, m + 2)[0] == ", "@[0]);
            assert(s.subrange(m, m + 2)[1] == ", "@[1]);
        }
        lemma_lex_ser_value(s, i, first);
        assert(spec_lex(s, m) == lex_cons(TokenModel::Comma, spec_lex(s, m + 1)));
        assert(is_ws(s[m + 1]));
        assert(spec_lex(s, m + 1) == spec_lex(s, m + 2));
        assert forall|q: int| 0 <= q < items.drop_first().len() implies json_wf(
            #[trigger] items.drop_first()[q],
        ) by {
            assert(items.drop_first()[q] == items[q + 1]);
        }
        crate::tree::lemma_json_seq_wf_index(items.drop_first());
        lemma_lex_ser_items(s, m + 2, items.drop_first());
        let z = spec_lex(s, i + items_text_of(items).len());
        match z {
            Some(zs) => {
                assert(tokens_of(first) + (seq![TokenModel::Comma] + (items_tokens_of(
                    items.drop_first(),
                ) + zs)) =~= items_tokens_of(items) + zs);
            },
            None => {},
        }
    }
}

/// Lexing the rendered text of a non-empty pair list, with a boundary
/// at its end, yields the joined pair tokens.
proof fn lemma_lex_ser_pairs(s: Seq<char>, i: int, pairs: Seq<(Seq<char>, JsonModel)>)
    requires
        pairs.len() > 0,
        json_pairs_wf(pairs),
        text_at(s, i, pairs_text_of(pairs)),
        lex_boundary(s, i + pairs_text_of(pairs).len()),
    ensures
        spec_lex(s, i) == lex_prepend(
            pairs_tokens_of(pairs),
            spec_lex(s, i + pairs_text_of(pairs).len()),
        ),
    decreases pairs, 1int,
{
    crate::tree::lemma_json_pairs_wf_index(pairs);
    lemma_pairs_text_cons(pairs);
    lemma_pairs_tokens_cons(pairs);
    let first = pairs.first();
    if pairs.len() == 1 {
        lemma_lex_ser_pair(s, i, first);
    } else {
        reveal_strlit(", ");
        assert(", "@.len() == 2 && ", "@[0] == ',' && ", "@[1] == ' ');
        let ft = pair_text_of(first);
        let rest_text = pairs_text_of(pairs.drop_first());
        assert(pairs_text_of(pairs) =~= ft + (", "@ + rest_text));
        lemma_text_at_concat(s, i, ft, ", "@ + rest_text);
        let m = i + ft.len();
        lemma_text_at_concat(s, m, ", "@, rest_text);
        assert(s[m] == ',' && s[m + 1] == ' ') by {
            assert(s.subrange(m, m + 2)[0] == ", "@[0]);
            assert(s.subrange(m, m + 2)[1] == ", "@[1]);
        }
        lemma_lex_ser_pair(s, i, first);
        assert(spec_lex(s, m) == lex_cons(TokenModel::Comma, spec_lex(s, m + 1)));
        assert(is_ws(s[m + 1]));
        assert(spec_lex(s, m + 1) == spec_lex(s, m + 2));
        assert forall|q: int| 0 <= q < pairs.drop_first().len() implies is_string_text(
            (#[trigger] pairs.drop_first()[q]).0,
        ) && json_wf(pairs.drop_first()[q].1) by {
            assert(pairs.drop_first()[q] == pairs[q + 1]);
        }
        crate::tree::lemma_json_pairs_wf_index(pairs.drop_first());
        lemma_lex_ser_pairs(s, m + 2, pairs.drop_first());
        let z = spec_lex(s, i + pairs_text_of(pairs).len());
        match z {
            Some(zs) => {
                assert(pair_tokens_of(first) + (seq![TokenModel::Comma] + (pairs_tokens_of(
                    pairs.drop_first(),
                ) + zs)) =~= pairs_tokens_of(pairs) + zs);
            },
            None => {},
        }
    }
}

/// Lexing one rendered pair: quoted key, colon, space, value.
proof fn lemma_lex_ser_pair(s: Seq<char>, i: int, p: (Seq<char>, JsonModel))
    requires
        is_string_text(p.0),
        json_wf(p.1),
        text_at(s, i, pair_text_of(p)),
        lex_boundary(s, i + pair_text_of(p).len()),
    ensures
        spec_lex(s, i) == lex_prepend(pair_tokens_of(p), spec_lex(s, i + pair_text_of(p).len())),
    decreases p, 0int,
{
    reveal_strlit("\"");
    reveal_strlit(": ");
    assert("\""@.len() == 1 && "\""@[0] == '"');
    assert(": "@.len() == 2 && ": "@[0] == ':' && ": "@[1] == ' ');
    let k = p.0;
    let vt = json_text_of(p.1);
    assert(pair_text_of(p) =~= ("\""@ + k + "\""@ + ": "@) + vt);
    lemma_text_at_concat(s, i, "\""@ + k + "\""@ + ": "@, vt);
    let head = "\""@ + k + "\""@ + ": "@;
    assert forall|q: int| 0 <= q < head.len() implies #[trigger] s[i + q] == head[q] by {
        assert(s.subrange(i, i + head.len() as int)[q] == head[q]);
    }
    assert(s[i] == head[0]);
    assert(s[i] == '"');
    assert(s[i + 1 + k.len()] == '"') by {
        assert(s[i + (1 + k.len() as int)] == head[1 + k.len() as int]);
        assert(head[1 + k.len() as int] == '"');
    }
    assert forall|q: int| i + 1 <= q < i + 1 + k.len() implies #[trigger] s[q] != '"' by {
        assert(head[q - i] == k[q - i - 1]);
    }
    lemma_scan_string_pin(s, i + 1, i + 1 + k.len());
    assert forall|q: int| 0 <= q < k.len() implies #[trigger] s.subrange(
        i + 1,
        i + 1 + k.len() as int,
    )[q] == k[q] by {
        assert(s[i + (1 + q)] == head[1 + q]);
    }
    assert(s.subrange(i + 1, i + 1 + k.len() as int) =~= k);
    let c0 = i + k.len() + 2;
    assert(s[c0] == ':' && s[c0 + 1] == ' ') by {
        assert(s[i + (k.len() as int + 2)] == head[k.len() as int + 2]);
        assert(s[i + (k.len() as int + 3)] == head[k.len() as int + 3]);
        assert(head[k.len() as int + 2] == ':');
        assert(head[k.len() as int + 3] == ' ');
    }
    assert(spec_lex(s, i) == lex_cons(TokenModel::StrLit(k), spec_lex(s, c0)));
    assert(spec_lex(s, c0) == lex_cons(TokenModel::Colon, spec_lex(s, c0 + 1)));
    assert(is_ws(s[c0 + 1]));
    assert(spec_lex(s, c0 + 1) == spec_lex(s, c0 + 2));
    lemma_lex_ser_value(s, c0 + 2, p.1);
    let z = spec_lex(s, i + pair_text_of(p).len());
    match z {
        Some(zs) => {
            assert(seq![TokenModel::StrLit(k)] + (seq![TokenModel::Colon] + (tokens_of(p.1) + zs))
                =~= pair_tokens_of(p) + zs);
        },
        None => {},
    }
}

/// Lexing the rendered text of a well-formed tree gives exactly its
/// token serialization.
pub proof fn lemma_lex_of_text(j: JsonModel)
    requires
        json_wf(j),
    ensures
        spec_lex(json_text_of(j), 0) == Some(tokens_of(j)),
{
    let s = json_text_of(j);
    assert(s.subrange(0, s.len() as int) =~= s);
    lemma_lex_ser_value(s, 0, j);
    assert(tokens_of(j) + Seq::<TokenModel>::empty() =~= tokens_of(j));
}

/// Round trip: tokenizing and parsing the rendered text of any
/// well-formed tree gives back exactly that tree.
pub proof fn lemma_round_trip(j: JsonModel)
    requires
        json_wf(j),
    ensures
        spec_parse_text(json_text_of(j)) == Some(j),
{
    lemma_lex_of_text(j);
    lemma_parse_of_tokens(j);
}

/// Rendering is stable: the tree parsed back from rendered text
/// renders to the very same text, so rendering again changes nothing.
pub proof fn lemma_render_idempotent(j: JsonModel)
    requires
        json_wf(j),
    ensures
        match spec_parse_text(json_text_of(j)) {
            Some(m) => json_text_of(m) == json_text_of(j),
            None => false,
        },
{
    lemma_round_trip(j);
}

/// A stream of one literal token parses to exactly the matching tagged
/// variant carrying the literal's text; a lone identifier is accepted
/// exactly when it is `null`.
pub proof fn lemma_parse_scalar(t: Seq<char>)
    ensures
        spec_parse(seq![TokenModel::IntLit(t)]) == Some(JsonModel::Number(t)),
        spec_parse(seq![TokenModel::FloatLit(t)]) == Some(JsonModel::Float(t)),
        spec_parse(seq![TokenModel::BoolLit(t)]) == Some(JsonModel::Bool(t)),
        spec_parse(seq![TokenModel::StrLit(t)]) == Some(JsonModel::Str(t)),
        t == "null"@ ==> spec_parse(seq![TokenModel::Ident(t)]) == Some(JsonModel::Null),
        t != "null"@ ==> spec_parse(seq![TokenModel::Ident(t)]) is None,
{
}


} // verus!
