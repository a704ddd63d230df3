use vstd::prelude::*;
use crate::scanner::{Token, TokenView, tokens_view};
use crate::value::{JValue, Json, entries_view, values_view, lemma_entries_view_index, keys_distinct, well_formed};

verus! {

/// Why a token sequence is not a JSON value. Each error carries the index of
/// the token at which it was found (the length of the sequence at its end).
#[derive(Debug, PartialEq, Eq)]
pub enum ParseError {
    /// No value starts here.
    ExpectedValue(usize),
    /// An object entry does not start with a string key.
    InvalidObject(usize),
    /// The key is not followed by a colon.
    MissingColon(String, usize),
    /// An object entry is followed by neither a comma nor a closing brace.
    ExpectedCommaOrBrace(usize),
    /// An array item is followed by neither a comma nor a closing bracket.
    ArrayNotSeparated(usize),
    /// The tokens ended inside an array.
    UnexpectedEndOfArray(usize),
}

pub enum ParseErrorView {
    ExpectedValue(nat),
    InvalidObject(nat),
    MissingColon(Seq<char>, nat),
    ExpectedCommaOrBrace(nat),
    ArrayNotSeparated(nat),
    UnexpectedEndOfArray(nat),
}

impl View for ParseError {
    type V = ParseErrorView;

    open spec fn view(&self) -> ParseErrorView {
        match self {
            ParseError::ExpectedValue(p) => ParseErrorView::ExpectedValue(*p as nat),
            ParseError::InvalidObject(p) => ParseErrorView::InvalidObject(*p as nat),
            ParseError::MissingColon(k, p) => ParseErrorView::MissingColon(k@, *p as nat),
            ParseError::ExpectedCommaOrBrace(p) => ParseErrorView::ExpectedCommaOrBrace(*p as nat),
            ParseError::ArrayNotSeparated(p) => ParseErrorView::ArrayNotSeparated(*p as nat),
            ParseError::UnexpectedEndOfArray(p) => ParseErrorView::UnexpectedEndOfArray(*p as nat),
        }
    }
}

/// A parse result: the value and the number of tokens it took.
pub type Parsed = Result<(Json, nat), ParseErrorView>;

/// Adds `k` to the number of tokens taken by a successful parse.
pub open spec fn shift(r: Parsed, k: nat) -> Parsed {
    match r {
        Ok((v, n)) => Ok((v, n + k)),
        Err(e) => Err(e),
    }
}

/// The index of the first entry of `es`, from `i` on, whose key is `k`.
pub open spec fn find_key(es: Seq<(Seq<char>, Json)>, k: Seq<char>, i: int) -> Option<int>
    decreases es.len() - i,
{
    if i < 0 || i >= es.len() {
        None
    } else if es[i].0 == k {
        Some(i)
    } else {
        find_key(es, k, i + 1)
    }
}

/// Sets key `k` to `v`: an entry with that key is overwritten in place, else
/// the entry is added at the end.
pub open spec fn upsert(es: Seq<(Seq<char>, Json)>, k: Seq<char>, v: Json) -> Seq<(Seq<char>, Json)> {
    match find_key(es, k, 0) {
        Some(i) => es.update(i, (k, v)),
        None => es.push((k, v)),
    }
}

/// The value that starts at token `p` of `t`, and how many tokens it takes.
pub open spec fn value_at(t: Seq<TokenView>, p: int) -> Parsed
    decreases t.len() - p, 0int,
{
    if p < 0 || p >= t.len() {
        Err(ParseErrorView::ExpectedValue(p as nat))
    } else {
        match t[p] {
            TokenView::True => Ok((Json::Bool(true), 1)),
            TokenView::False => Ok((Json::Bool(false), 1)),
            TokenView::Null => Ok((Json::Null, 1)),
            TokenView::Number(n) => Ok((Json::Num(n), 1)),
            TokenView::StringLiteral(s) => Ok((Json::Str(s), 1)),
            TokenView::OpenBrace => shift(members_at(t, p + 1, Seq::empty(), true), 1),
            TokenView::OpenBracket => shift(items_at(t, p + 1, Seq::empty(), true), 1),
            _ => Err(ParseErrorView::ExpectedValue(p as nat)),
        }
    }
}

/// The rest of an object from token `p` on, `es` holding the entries read so
/// far; `first` tells whether `p` directly follows the opening brace.
pub open spec fn members_at(t: Seq<TokenView>, p: int, es: Seq<(Seq<char>, Json)>, first: bool) -> Parsed
    decreases t.len() - p, 1int,
{
    if p < 0 || p >= t.len() {
        Err(ParseErrorView::InvalidObject(p as nat))
    } else if first && t[p] is ClosingBrace {
        Ok((Json::Object(es), 1))
    } else if let TokenView::StringLiteral(k) = t[p] {
        if p + 1 < t.len() && t[p + 1] is Colon {
            match value_at(t, p + 2) {
                Err(e) => Err(e),
                Ok((v, n)) => {
                    let q = p + 2 + n;
                    let es2 = upsert(es, k, v);
                    if q < t.len() && t[q] is Comma {
                        shift(members_at(t, q + 1, es2, false), n + 3)
                    } else if q < t.len() && t[q] is ClosingBrace {
                        Ok((Json::Object(es2), n + 3))
                    } else {
                        Err(ParseErrorView::ExpectedCommaOrBrace(q as nat))
                    }
                },
            }
        } else {
            Err(ParseErrorView::MissingColon(k, (p + 1) as nat))
        }
    } else {
        Err(ParseErrorView::InvalidObject(p as nat))
    }
}

/// The rest of an array from token `p` on, `acc` holding the items read so
/// far; `first` tells whether `p` directly follows the opening bracket.
pub open spec fn items_at(t: Seq<TokenView>, p: int, acc: Seq<Json>, first: bool) -> Parsed
    decreases t.len() - p, 1int,
{
    if p < 0 || p >= t.len() {
        Err(ParseErrorView::UnexpectedEndOfArray(p as nat))
    } else if first && t[p] is ClosingBracket {
        Ok((Json::Array(acc), 1))
    } else {
        match value_at(t, p) {
            Err(e) => Err(e),
            Ok((v, n)) => {
                let q = p + n;
                let acc2 = acc.push(v);
                if q >= t.len() {
                    Err(ParseErrorView::UnexpectedEndOfArray(q as nat))
                } else if t[q] is Comma {
                    shift(items_at(t, q + 1, acc2, false), n + 1)
                } else if t[q] is ClosingBracket {
                    Ok((Json::Array(acc2), n + 1))
                } else {
                    Err(ParseErrorView::ArrayNotSeparated(q as nat))
                }
            },
        }
    }
}

/// What `find_key` finds is an entry with the key, and where it finds none
/// there is none.
pub proof fn lemma_find_key(es: Seq<(Seq<char>, Json)>, k: Seq<char>, i: int)
    requires
        0 <= i,
    ensures
        find_key(es, k, i) matches Some(j) ==> i <= j < es.len() && es[j].0 == k,
        find_key(es, k, i) is None ==> forall|j: int| i <= j < es.len() ==> #[trigger] es[j].0 != k,
    decreases es.len() - i,
{
    if i < es.len() {
        lemma_find_key(es, k, i + 1);
    }
}

proof fn lemma_upsert_well_formed(es: Seq<(Seq<char>, Json)>, k: Seq<char>, v: Json)
    requires
        keys_distinct(es),
        forall|i: int| 0 <= i < es.len() ==> well_formed(#[trigger] es[i].1),
        well_formed(v),
    ensures
        keys_distinct(upsert(es, k, v)),
        forall|i: int| 0 <= i < upsert(es, k, v).len() ==> well_formed(#[trigger] upsert(es, k, v)[i].1),
{
    lemma_find_key(es, k, 0);
    let u = upsert(es, k, v);
    match find_key(es, k, 0) {
        Some(j) => {
            assert forall|a: int| 0 <= a < u.len() implies #[trigger] u[a].0 == es[a].0 by {}
        },
        None => {
            assert forall|a: int| 0 <= a < es.len() implies #[trigger] u[a] == es[a] by {}
        },
    }
}

proof fn lemma_value_well_formed(t: Seq<TokenView>, p: int)
    ensures
        value_at(t, p) matches Ok((v, _)) ==> well_formed(v),
    decreases t.len() - p, 0int,
{
    if 0 <= p < t.len() {
        match t[p] {
            TokenView::OpenBrace => lemma_members_well_formed(t, p + 1, Seq::empty(), true),
            TokenView::OpenBracket => lemma_items_well_formed(t, p + 1, Seq::empty(), true),
            _ => {},
        }
    }
}

proof fn lemma_members_well_formed(t: Seq<TokenView>, p: int, es: Seq<(Seq<char>, Json)>, first: bool)
    requires
        keys_distinct(es),
        forall|i: int| 0 <= i < es.len() ==> well_formed(#[trigger] es[i].1),
    ensures
        members_at(t, p, es, first) matches Ok((v, _)) ==> well_formed(v),
    decreases t.len() - p, 1int,
{
    if 0 <= p < t.len() && !(first && t[p] is ClosingBrace) {
        if let TokenView::StringLiteral(k) = t[p] {
            if p + 1 < t.len() && t[p + 1] is Colon {
                lemma_value_well_formed(t, p + 2);
                if let Ok((v, n)) = value_at(t, p + 2) {
                    let q = p + 2 + n;
                    lemma_upsert_well_formed(es, k, v);
                    if q < t.len() && t[q] is Comma {
                        lemma_members_well_formed(t, q + 1, upsert(es, k, v), false);
                    }
                }
            }
        }
    }
}

proof fn lemma_items_well_formed(t: Seq<TokenView>, p: int, acc: Seq<Json>, first: bool)
    requires
        forall|i: int| 0 <= i < acc.len() ==> well_formed(#[trigger] acc[i]),
    ensures
        items_at(t, p, acc, first) matches Ok((v, _)) ==> well_formed(v),
    decreases t.len() - p, 1int,
{
    if 0 <= p < t.len() && !(first && t[p] is ClosingBracket) {
        lemma_value_well_formed(t, p);
        if let Ok((v, n)) = value_at(t, p) {
            let q = p + n;
            let acc2 = acc.push(v);
            assert forall|i: int| 0 <= i < acc2.len() implies well_formed(#[trigger] acc2[i]) by {
                if i < acc.len() {
                    assert(acc2[i] == acc[i]);
                }
            }
            if q < t.len() && t[q] is Comma {
                lemma_items_well_formed(t, q + 1, acc2, false);
            }
        }
    }
}

/// Every value that parsing yields is well formed: no object in it, at any
/// depth, holds a key twice, a later entry with a key overwriting the earlier
/// one.
pub proof fn lemma_parse_well_formed(t: Seq<TokenView>, p: int)
    ensures
        value_at(t, p) matches Ok((v, _)) ==> well_formed(v),
{
    lemma_value_well_formed(t, p);
}

proof fn lemma_shift_shift(r: Parsed, a: nat, b: nat)
    ensures
        shift(shift(r, a), b) == shift(r, a + b),
{
}

/// Parses the value that starts at the cursor `pos` and moves the cursor past
/// it; fails on the first syntax error.
pub fn parse(tokens: &Vec<Token>, pos: &mut usize) -> (r: Result<JValue, ParseError>)
    ensures
        match value_at(tokens_view(tokens@), *old(pos) as int) {
            Ok((v, n)) => r matches Ok(x) && x@ == v && *final(pos) == *old(pos) + n,
            Err(e) => r matches Err(x) && x@ == e,
        },
    decreases tokens@.len() - *old(pos), 1int,
{
    let ghost t = tokens_view(tokens@);
    let p = *pos;
    if p >= tokens.len() {
        return Err(ParseError::ExpectedValue(p));
    }
    match &tokens[p] {
        Token::True | Token::False => Ok(parse_bool(tokens, pos)),
        Token::Null => Ok(parse_null(tokens, pos)),
        Token::Number(_) => Ok(parse_number(tokens, pos)),
        Token::StringLiteral(_) => Ok(parse_string(tokens, pos)),
        Token::OpenBrace => parse_object(tokens, pos),
        Token::OpenBracket => parse_array(tokens, pos),
        _ => Err(ParseError::ExpectedValue(p)),
    }
}

fn parse_object(tokens: &Vec<Token>, pos: &mut usize) -> (r: Result<JValue, ParseError>)
    requires
        *old(pos) < tokens@.len() <= usize::MAX,
        tokens@[*old(pos) as int] is OpenBrace,
    ensures
        match value_at(tokens_view(tokens@), *old(pos) as int) {
            Ok((v, n)) => r matches Ok(x) && x@ == v && *final(pos) == *old(pos) + n,
            Err(e) => r matches Err(x) && x@ == e,
        },
    decreases tokens@.len() - *old(pos), 0int,
{
    let ghost t = tokens_view(tokens@);
    let ghost start = *pos as int;
    let mut entries: Vec<(String, JValue)> = Vec::new();
    let mut p = *pos + 1;
    let mut first = true;
    assert(t[start] == TokenView::OpenBrace);
    assert(entries_view(entries@) =~= Seq::empty());
    loop
        invariant
            t == tokens_view(tokens@),
            start < p <= tokens@.len(),
            start == *old(pos),
            value_at(t, start) == shift(
                members_at(t, p as int, entries_view(entries@), first),
                (p - start) as nat,
            ),
        decreases tokens@.len() - p,
    {
        if p >= tokens.len() {
            return Err(ParseError::InvalidObject(p));
        }
        assert(t[p as int] == tokens@[p as int]@);
        match &tokens[p] {
            Token::ClosingBrace if first => {
                *pos = p + 1;
                return Ok(JValue::JObject(entries));
            },
            Token::StringLiteral(key) => {
                if p + 1 < tokens.len() && matches!(tokens[p + 1], Token::Colon) {
                    assert(t[p + 1] == tokens@[p + 1]@);
                    let mut cur = p + 2;
                    let value = match parse(tokens, &mut cur) {
                        Ok(v) => v,
                        Err(e) => {
                            return Err(e);
                        },
                    };
                    let ghost n = (cur - (p + 2)) as nat;
                    insert_entry(&mut entries, key.clone(), value);
                    if cur < tokens.len() && matches!(tokens[cur], Token::Comma) {
                        assert(t[cur as int] == tokens@[cur as int]@);
                        proof {
                            lemma_shift_shift(
                                members_at(t, cur + 1, entries_view(entries@), false),
                                n + 3,
                                (p - start) as nat,
                            );
                        }
                        p = cur + 1;
                        first = false;
                    } else if cur < tokens.len() && matches!(tokens[cur], Token::ClosingBrace) {
                        assert(t[cur as int] == tokens@[cur as int]@);
                        *pos = cur + 1;
                        return Ok(JValue::JObject(entries));
                    } else {
                        proof {
                            if cur < tokens.len() {
                                assert(t[cur as int] == tokens@[cur as int]@);
                            }
                        }
                        return Err(ParseError::ExpectedCommaOrBrace(cur));
                    }
                } else {
                    proof {
                        if p + 1 < tokens.len() {
                            assert(t[p + 1] == tokens@[p + 1]@);
                        }
                    }
                    return Err(ParseError::MissingColon(key.clone(), p + 1));
                }
            },
            _ => {
                return Err(ParseError::InvalidObject(p));
            },
        }
    }
}

fn parse_array(tokens: &Vec<Token>, pos: &mut usize) -> (r: Result<JValue, ParseError>)
    requires
        *old(pos) < tokens@.len() <= usize::MAX,
        tokens@[*old(pos) as int] is OpenBracket,
    ensures
        match value_at(tokens_view(tokens@), *old(pos) as int) {
            Ok((v, n)) => r matches Ok(x) && x@ == v && *final(pos) == *old(pos) + n,
            Err(e) => r matches Err(x) && x@ == e,
        },
    decreases tokens@.len() - *old(pos), 0int,
{
    let ghost t = tokens_view(tokens@);
    let ghost start = *pos as int;
    let mut items: Vec<JValue> = Vec::new();
    let mut p = *pos + 1;
    let mut first = true;
    assert(t[start] == TokenView::OpenBracket);
    assert(values_view(items@) =~= Seq::empty());
    loop
        invariant
            t == tokens_view(tokens@),
            start < p <= tokens@.len(),
            start == *old(pos),
            value_at(t, start) == shift(
                items_at(t, p as int, values_view(items@), first),
                (p - start) as nat,
            ),
        decreases tokens@.len() - p,
    {
        let ghost acc = values_view(items@);
        if p >= tokens.len() {
            return Err(ParseError::UnexpectedEndOfArray(p));
        }
        assert(t[p as int] == tokens@[p as int]@);
        if first && matches!(tokens[p], Token::ClosingBracket) {
            *pos = p + 1;
            return Ok(JValue::JArray(items));
        }
        let mut cur = p;
        let value = match parse(tokens, &mut cur) {
            Ok(v) => v,
            Err(e) => {
                return Err(e);
            },
        };
        let ghost n = (cur - p) as nat;
        let ghost before = items@;
        items.push(value);
        assert(items@.drop_last() =~= before);
        if cur >= tokens.len() {
            return Err(ParseError::UnexpectedEndOfArray(cur));
        }
        assert(t[cur as int] == tokens@[cur as int]@);
        if matches!(tokens[cur], Token::Comma) {
            proof {
                lemma_shift_shift(
                    items_at(t, cur + 1, values_view(items@), false),
                    n + 1,
                    (p - start) as nat,
                );
            }
            p = cur + 1;
            first = false;
        } else if matches!(tokens[cur], Token::ClosingBracket) {
            *pos = cur + 1;
            return Ok(JValue::JArray(items));
        } else {
            return Err(ParseError::ArrayNotSeparated(cur));
        }
    }
}

fn parse_bool(tokens: &Vec<Token>, pos: &mut usize) -> (r: JValue)
    requires
        *old(pos) < tokens@.len() <= usize::MAX,
        tokens@[*old(pos) as int] is True || tokens@[*old(pos) as int] is False,
    ensures
        r@ == Json::Bool(tokens@[*old(pos) as int] is True),
        *final(pos) == *old(pos) + 1,
{
    let b = match &tokens[*pos] {
        Token::True => true,
        _ => false,
    };
    *pos = *pos + 1;
    JValue::JBool(b)
}

fn parse_null(tokens: &Vec<Token>, pos: &mut usize) -> (r: JValue)
    requires
        *old(pos) < tokens@.len() <= usize::MAX,
        tokens@[*old(pos) as int] is Null,
    ensures
        r@ == Json::Null,
        *final(pos) == *old(pos) + 1,
{
    *pos = *pos + 1;
    JValue::JNull
}

fn parse_number(tokens: &Vec<Token>, pos: &mut usize) -> (r: JValue)
    requires
        *old(pos) < tokens@.len() <= usize::MAX,
        tokens@[*old(pos) as int] is Number,
    ensures
        r@ == Json::Num(tokens@[*old(pos) as int]->Number_0@),
        *final(pos) == *old(pos) + 1,
{
    let v = match &tokens[*pos] {
        Token::Number(n) => JValue::JNumber(n.clone()),
        _ => JValue::JNull,
    };
    *pos = *pos + 1;
    v
}

fn parse_string(tokens: &Vec<Token>, pos: &mut usize) -> (r: JValue)
    requires
        *old(pos) < tokens@.len() <= usize::MAX,
        tokens@[*old(pos) as int] is StringLiteral,
    ensures
        r@ == Json::Str(tokens@[*old(pos) as int]->StringLiteral_0@),
        *final(pos) == *old(pos) + 1,
{
    let v = match &tokens[*pos] {
        Token::StringLiteral(s) => JValue::JString(s.clone()),
        _ => JValue::JNull,
    };
    *pos = *pos + 1;
    v
}

/// Sets `key` to `value` among `entries`, overwriting an entry with that key
/// in place.
fn insert_entry(entries: &mut Vec<(String, JValue)>, key: String, value: JValue)
    ensures
        entries_view(final(entries)@) == upsert(entries_view(old(entries)@), key@, value@),
{
    let ghost es = entries_view(entries@);
    proof {
        lemma_entries_view_index(entries@);
    }
    let mut i: usize = 0;
    while i < entries.len()
        invariant
            i <= entries@.len(),
            entries@ == old(entries)@,
            es.len() == entries@.len(),
            forall|j: int| 0 <= j < entries@.len() ==> #[trigger] es[j] == (entries@[j].0@, entries@[j].1@),
            es == entries_view(entries@),
            find_key(es, key@, 0) == find_key(es, key@, i as int),
        decreases entries@.len() - i,
    {
        if entries[i].0 == key {
            let ghost kv = (key@, value@);
            let ghost old_entries = entries@;
            assert(es[i as int].0 == key@);
            assert(find_key(es, key@, 0) == Some(i as int));
            entries[i] = (key, value);
            proof {
                lemma_entries_view_index(old_entries);
                lemma_entries_view_index(entries@);
            }
            assert(entries_view(entries@) =~= es.update(i as int, kv));
            return;
        }
        i = i + 1;
    }
    let ghost kv = (key@, value@);
    entries.push((key, value));
    assert(entries@.drop_last() =~= old(entries)@);
}

} // verus!
