//! The token tree of a parse: one token for each named rule that matched,
//! with the bytes it spans, in document order, a parent before the tokens
//! inside it. Nesting follows from the spans alone.
use vstd::prelude::*;
use crate::diagnostics::Rule;
use crate::grammar::{
    CharClass, byte_at, run_end, lemma_run_end, decimal_at, after_decimal, lemma_decimal_end,
    has_latlng, reading_kind, field_rules, tag_rank, field_at, lemma_field_end, data_at,
    path_at,
};

verus! {

/// A matched rule and the bytes `start..end` it spans.
#[derive(Debug, Clone, Copy, PartialEq, Eq, Structural)]
pub struct Token {
    pub rule: Rule,
    pub start: usize,
    pub end: usize,
}

pub open spec fn tok(rule: Rule, start: int, end: int) -> Token {
    Token { rule, start: start as usize, end: end as usize }
}

pub open spec fn decimal_tokens(s: Seq<u8>, i: int) -> Seq<Token> {
    match decimal_at(s, i) {
        Some(r) => seq![tok(Rule::Decimal, i, r.1)],
        None => Seq::empty(),
    }
}

/// The decimals of a list from `i` on.
pub open spec fn readings_tokens(s: Seq<u8>, i: int) -> Seq<Token>
    decreases s.len() - i,
{
    let p = after_decimal(s, i);
    if byte_at(s, p, 44) {
        proof {
            lemma_decimal_end(s, i);
        }
        decimal_tokens(s, i) + readings_tokens(s, p + 1)
    } else {
        decimal_tokens(s, i)
    }
}

pub open spec fn windspeed_tokens(s: Seq<u8>, i: int) -> Seq<Token> {
    let p = after_decimal(s, i);
    if byte_at(s, p, 44) {
        decimal_tokens(s, i) + decimal_tokens(s, p + 1)
    } else {
        decimal_tokens(s, i)
    }
}

/// A latitude and longitude that did not both match leave no token.
pub open spec fn location_tokens(s: Seq<u8>, i: int) -> Seq<Token> {
    let d = after_decimal(s, i);
    let pair: Seq<Token> = if has_latlng(s, i) {
        decimal_tokens(s, i) + decimal_tokens(s, d + 1)
    } else {
        Seq::empty()
    };
    let p = if has_latlng(s, i) {
        after_decimal(s, d + 1)
    } else {
        i
    };
    if byte_at(s, p, 44) {
        pair + decimal_tokens(s, p + 1)
    } else {
        pair
    }
}

/// A field: the data_field token, the token of the field's own rule, then
/// what is inside it.
pub open spec fn field_tokens(s: Seq<u8>, i: int) -> Seq<Token> {
    match field_at(s, i) {
        None => Seq::empty(),
        Some(r) => {
            let c = s[i];
            let head = seq![tok(Rule::DataField, i, r.1), tok(field_rules()[tag_rank(c)], i, r.1)];
            if reading_kind(c) is Some {
                head + seq![tok(Rule::DecimalList, i + 1, r.1)] + readings_tokens(s, i + 1)
            } else if c == 87 {
                head + windspeed_tokens(s, i + 1)
            } else if c == 76 {
                head + location_tokens(s, i + 1)
            } else {
                head
            }
        },
    }
}

/// The fields from `i` on.
pub open spec fn fields_tokens(s: Seq<u8>, i: int) -> Seq<Token>
    decreases s.len() - i,
{
    if 0 <= i <= s.len() {
        match field_at(s, i) {
            Some(r) => {
                proof {
                    lemma_field_end(s, i);
                }
                field_tokens(s, i) + fields_tokens(s, r.1)
            },
            None => Seq::empty(),
        }
    } else {
        Seq::empty()
    }
}

pub open spec fn comment_tokens(s: Seq<u8>, i: int) -> Seq<Token> {
    if byte_at(s, i, 58) {
        let e = run_end(s, i + 1, CharClass::CommentChar);
        seq![tok(Rule::Comment, i, e), tok(Rule::CommentContent, i + 1, e)]
    } else {
        Seq::empty()
    }
}

/// The node names from `i` on.
pub open spec fn names_tokens(s: Seq<u8>, i: int) -> Seq<Token>
    decreases s.len() - i,
{
    let e = run_end(s, i, CharClass::NameChar);
    let head = seq![tok(Rule::NodeName, i, e), tok(Rule::NodeNameContent, i, e)];
    if byte_at(s, e, 44) {
        proof {
            lemma_run_end(s, i, CharClass::NameChar);
        }
        head + names_tokens(s, e + 1)
    } else {
        head
    }
}

pub open spec fn path_tokens(s: Seq<u8>, i: int) -> Seq<Token> {
    match path_at(s, i) {
        Some(r) => seq![tok(Rule::Path, i, r.1)] + names_tokens(s, i + 1),
        None => Seq::empty(),
    }
}

/// The tokens of a packet that parses.
pub open spec fn packet_tokens(s: Seq<u8>) -> Seq<Token> {
    let d = data_at(s, 2);
    let c = crate::grammar::comment_at(s, d.1);
    seq![
        tok(Rule::Packet, 0, s.len() as int),
        tok(Rule::Repeat, 0, 1),
        tok(Rule::Sequence, 1, 2),
        tok(Rule::Data, 2, d.1),
    ] + fields_tokens(s, 2) + comment_tokens(s, d.1) + path_tokens(s, c.1)
}

} // verus!
