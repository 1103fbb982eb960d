//! The recursive-descent parser: one function for each rule of `grammar`,
//! each proved to end where the rule ends, to build what the rule denotes,
//! and to record the rule's failed attempts.
use vstd::prelude::*;
use crate::diagnostics::{
    ascii_string, Diag, ParserError, strings_view, rule_names, Rule, Miss, Failures, absorb,
    absorb_all, lemma_absorb_all_cons, lemma_absorb_all_one, lemma_absorb_all_two,
    lemma_absorb_all_concat,
};
use crate::grammar::{
    CharClass, byte_at, in_class, run_end, lemma_run_end, decimal_at, decimal_miss,
    decimal_value, after_decimal, lemma_decimal_end, readings_at, readings_misses, windspeed_at,
    windspeed_misses, latlng_misses, location_at, location_misses, field_rules,
    tag_rank, reading_kind, field_at, field_misses, tags_missed, data_at,
    data_misses, lemma_field_end, lemma_data_end, comment_at, comment_misses, upper,
    node_name, names_at, names_misses, path_at, path_misses,
    packet_at, packet_misses, parse_result,
};
use crate::tokens::{
    Token, decimal_tokens, readings_tokens, windspeed_tokens, location_tokens, field_tokens,
    fields_tokens, comment_tokens, names_tokens, path_tokens, packet_tokens,
};
use crate::packet::{
    Decimal, DecimalV, decimals_view, opt_decimal_view, opt_pair_view, WindSpeed, Location,
    DataField, FieldV, Reading, fields_view, Packet, PacketV,
};

verus! {

/// The end of the run of class `k` that starts at `i`.
fn scan(s: &[u8], i: usize, k: CharClass) -> (e: usize)
    requires
        i <= s@.len(),
    ensures
        e == run_end(s@, i as int, k),
{
    let mut e = i;
    while e < s.len() && class_has(s[e], k)
        invariant
            i <= e <= s@.len(),
            run_end(s@, e as int, k) == run_end(s@, i as int, k),
        decreases s@.len() - e,
    {
        e = e + 1;
    }
    e
}

fn class_has(c: u8, k: CharClass) -> (r: bool)
    ensures
        r == in_class(c, k),
{
    let digit = 48 <= c && c <= 57;
    let letter = (97 <= c && c <= 122) || (65 <= c && c <= 90);
    match k {
        CharClass::Digit => digit,
        CharClass::NameChar => letter || digit,
        CharClass::CommentChar => letter || digit || (32 <= c && c <= 47) || (58 <= c && c <= 64)
            || c == 92 || (94 <= c && c <= 96) || (123 <= c && c <= 126),
    }
}

fn has_byte(s: &[u8], i: usize, c: u8) -> (r: bool)
    ensures
        r == byte_at(s@, i as int, c),
{
    i < s.len() && s[i] == c
}

/// A copy of `s[from..to]`.
fn copy_range(s: &[u8], from: usize, to: usize) -> (r: Vec<u8>)
    requires
        from <= to <= s@.len(),
    ensures
        r@ == s@.subrange(from as int, to as int),
{
    let mut r: Vec<u8> = Vec::new();
    let mut k = from;
    while k < to
        invariant
            from <= k <= to <= s@.len(),
            r@ == s@.subrange(from as int, k as int),
        decreases to - k,
    {
        r.push(s[k]);
        k = k + 1;
        assert(r@ =~= s@.subrange(from as int, k as int));
    }
    r
}

pub open spec fn opt_view_pair<A: View>(r: Option<(A, usize)>) -> Option<(A::V, int)> {
    match r {
        Some(p) => Some((p.0@, p.1 as int)),
        None => None,
    }
}

fn decimal(s: &[u8], i: usize, f: &mut Failures) -> (r: Option<(Decimal, usize)>)
    requires
        i <= s@.len(),
    ensures
        opt_view_pair(r) == decimal_at(s@, i as int),
        final(f)@ == absorb(old(f)@, decimal_miss(s@, i as int)),
{
    let negative = i < s.len() && s[i] == 45;
    let j = if negative || (i < s.len() && s[i] == 43) {
        i + 1
    } else {
        i
    };
    let d = scan(s, j, CharClass::Digit);
    proof {
        lemma_run_end(s@, j as int, CharClass::Digit);
    }
    if d == j {
        f.record(j, Rule::Decimal);
        None
    } else if d < s.len() && s[d] == 46 && d + 1 < s.len() && 48 <= s[d + 1] && s[d + 1] <= 57 {
        let e = scan(s, d + 1, CharClass::Digit);
        proof {
            lemma_run_end(s@, d + 1, CharClass::Digit);
        }
        f.record(e, Rule::Decimal);
        Some((Decimal { negative, whole: copy_range(s, j, d), fraction: copy_range(s, d + 1, e) }, e))
    } else {
        if has_byte(s, d, 46) {
            f.record(d + 1, Rule::Decimal);
        } else {
            f.record(d, Rule::Decimal);
        }
        Some((Decimal { negative, whole: copy_range(s, j, d), fraction: Vec::new() }, d))
    }
}

fn readings(s: &[u8], i: usize, f: &mut Failures, toks: &mut Vec<Token>) -> (r: (
    Vec<Decimal>,
    usize,
))
    requires
        i <= s@.len(),
    ensures
        decimals_view(r.0@) == readings_at(s@, i as int).0,
        r.1 == readings_at(s@, i as int).1,
        final(f)@ == absorb_all(old(f)@, readings_misses(s@, i as int)),
        final(toks)@ == old(toks)@ + readings_tokens(s@, i as int),
{
    let ghost f0 = f@;
    let ghost t0 = toks@;
    let mut out: Vec<Decimal> = Vec::new();
    let mut p = i;
    loop
        invariant
            i <= p <= s@.len(),
            f0 == old(f)@,
            readings_at(s@, i as int).0 == decimals_view(out@) + readings_at(s@, p as int).0,
            readings_at(s@, i as int).1 == readings_at(s@, p as int).1,
            absorb_all(f0, readings_misses(s@, i as int)) == absorb_all(f@, readings_misses(s@, p as int)),
            t0 == old(toks)@,
            t0 + readings_tokens(s@, i as int) == toks@ + readings_tokens(s@, p as int),
        decreases s@.len() - p,
    {
        let ghost fp = f@;
        let ghost outp = out@;
        let ghost tp = toks@;
        proof {
            lemma_decimal_end(s@, p as int);
        }
        let d = decimal(s, p, f);
        let q = match d {
            Some((v, e)) => {
                out.push(v);
                toks.push(Token { rule: Rule::Decimal, start: p, end: e });
                e
            },
            None => p,
        };
        assert(toks@ == tp + decimal_tokens(s@, p as int));
        proof {
            assert(decimals_view(out@) =~= decimals_view(outp) + match decimal_at(s@, p as int) {
                Some(r) => seq![r.0],
                None => Seq::<DecimalV>::empty(),
            });
        }
        if q < s.len() && s[q] == 44 {
            proof {
                lemma_absorb_all_cons(fp, decimal_miss(s@, p as int), readings_misses(s@, q + 1));
                assert(readings_at(s@, i as int).0 =~= decimals_view(out@) + readings_at(s@, q + 1).0);
                assert(t0 + readings_tokens(s@, i as int) =~= toks@ + readings_tokens(s@, q + 1));
            }
            p = q + 1;
        } else {
            f.record(q, Rule::DecimalList);
            proof {
                let m0 = decimal_miss(s@, p as int);
                let m1 = Miss { pos: q as int, rule: Rule::DecimalList };
                assert(readings_misses(s@, p as int) =~= seq![m0] + seq![m1]);
                lemma_absorb_all_cons(fp, m0, seq![m1]);
                lemma_absorb_all_one(absorb(fp, m0), m1);

                assert(readings_at(s@, i as int).0 =~= decimals_view(out@));
                assert(t0 + readings_tokens(s@, i as int) =~= toks@);
            }
            return (out, q);
        }
    }
}

/// An optional decimal at `i`, and where it ends.
fn opt_decimal(s: &[u8], i: usize, f: &mut Failures, toks: &mut Vec<Token>) -> (r: (
    Option<Decimal>,
    usize,
))
    requires
        i <= s@.len(),
    ensures
        opt_decimal_view(r.0) == decimal_value(s@, i as int),
        r.1 == after_decimal(s@, i as int),
        r.1 <= s@.len(),
        final(f)@ == absorb(old(f)@, decimal_miss(s@, i as int)),
        final(toks)@ == old(toks)@ + decimal_tokens(s@, i as int),
{
    proof {
        lemma_decimal_end(s@, i as int);
    }
    match decimal(s, i, f) {
        Some((v, e)) => {
            toks.push(Token { rule: Rule::Decimal, start: i, end: e });
            (Some(v), e)
        },
        None => {
            assert(toks@ =~= old(toks)@ + decimal_tokens(s@, i as int));
            (None, i)
        },
    }
}

/// A wind speed whose tag ends at `i`.
fn windspeed(s: &[u8], i: usize, f: &mut Failures, toks: &mut Vec<Token>) -> (r: (
    WindSpeed,
    usize,
))
    requires
        i <= s@.len(),
    ensures
        FieldV::WindSpeed(opt_decimal_view(r.0.speed), opt_decimal_view(r.0.bearing))
            == windspeed_at(s@, i as int).0,
        r.1 == windspeed_at(s@, i as int).1,
        final(f)@ == absorb_all(old(f)@, windspeed_misses(s@, i as int)),
        final(toks)@ == old(toks)@ + windspeed_tokens(s@, i as int),
{
    let ghost f0 = f@;
    let (speed, p) = opt_decimal(s, i, f, toks);
    if p < s.len() && s[p] == 44 {
        let (bearing, q) = opt_decimal(s, p + 1, f, toks);
        proof {
            assert(toks@ =~= old(toks)@ + windspeed_tokens(s@, i as int));
            lemma_absorb_all_two(f0, decimal_miss(s@, i as int), decimal_miss(s@, p + 1));
        }
        (WindSpeed { speed, bearing }, q)
    } else {
        f.record(p, Rule::Windspeed);
        proof {
            assert(toks@ =~= old(toks)@ + windspeed_tokens(s@, i as int));
            lemma_absorb_all_two(
                f0,
                decimal_miss(s@, i as int),
                Miss { pos: p as int, rule: Rule::Windspeed },
            );
        }
        (WindSpeed { speed, bearing: None }, p)
    }
}

/// A location whose tag ends at `i`.
fn location(s: &[u8], i: usize, f: &mut Failures, toks: &mut Vec<Token>) -> (r: (
    Location,
    usize,
))
    requires
        i <= s@.len(),
    ensures
        FieldV::Location(opt_pair_view(r.0.latlng), opt_decimal_view(r.0.alt))
            == location_at(s@, i as int).0,
        r.1 == location_at(s@, i as int).1,
        final(f)@ == absorb_all(old(f)@, location_misses(s@, i as int)),
        final(toks)@ == old(toks)@ + location_tokens(s@, i as int),
{
    let ghost f0 = f@;
    let mut pair: Vec<Token> = Vec::new();
    let (lat, d) = opt_decimal(s, i, f, &mut pair);
    let mut latlng: Option<(Decimal, Decimal)> = None;
    let mut p = i;
    match lat {
        Some(la) => {
            if d < s.len() && s[d] == 44 {
                let (lng, e) = opt_decimal(s, d + 1, f, &mut pair);
                proof {
                    lemma_absorb_all_two(f0, decimal_miss(s@, i as int), decimal_miss(s@, d + 1));
                }
                match lng {
                    Some(lo) => {
                        latlng = Some((la, lo));
                        p = e;
                        toks.append(&mut pair);
                    },
                    None => {},
                }
            } else {
                f.record(d, Rule::Location);
                proof {
                    lemma_absorb_all_two(
                        f0,
                        decimal_miss(s@, i as int),
                        Miss { pos: d as int, rule: Rule::Location },
                    );
                }
            }
        },
        None => {
            proof {
                lemma_absorb_all_one(f0, decimal_miss(s@, i as int));
            }
        },
    }
    assert(f@ == absorb_all(f0, latlng_misses(s@, i as int)));
    assert(opt_pair_view(latlng) == location_at(s@, i as int).0->Location_0);
    let ghost f1 = f@;
    let ghost t1 = toks@;
    if p < s.len() && s[p] == 44 {
        let (alt, q) = opt_decimal(s, p + 1, f, toks);
        assert(toks@ =~= old(toks)@ + location_tokens(s@, i as int));
        proof {
            lemma_absorb_all_concat(f0, latlng_misses(s@, i as int), seq![decimal_miss(s@, p + 1)]);
            lemma_absorb_all_one(f1, decimal_miss(s@, p + 1));
        }
        (Location { latlng, alt }, q)
    } else {
        f.record(p, Rule::Location);
        proof {
            let m = Miss { pos: p as int, rule: Rule::Location };
            lemma_absorb_all_concat(f0, latlng_misses(s@, i as int), seq![m]);
            lemma_absorb_all_one(f1, m);
        }
        assert(toks@ =~= old(toks)@ + location_tokens(s@, i as int));
        (Location { latlng, alt: None }, p)
    }
}

fn tag_rank_of(c: u8) -> (r: usize)
    ensures
        r == tag_rank(c),
{
    if c == 86 {
        0
    } else if c == 73 {
        1
    } else if c == 84 {
        2
    } else if c == 72 {
        3
    } else if c == 80 {
        4
    } else if c == 88 {
        5
    } else if c == 83 {
        6
    } else if c == 82 {
        7
    } else if c == 87 {
        8
    } else if c == 76 {
        9
    } else if c == 67 {
        10
    } else if c == 90 {
        11
    } else {
        12
    }
}

fn field_rule(j: usize) -> (r: Rule)
    requires
        j < 12,
    ensures
        r == field_rules()[j as int],
{
    if j == 0 {
        Rule::Voltage
    } else if j == 1 {
        Rule::Current
    } else if j == 2 {
        Rule::Temperature
    } else if j == 3 {
        Rule::Humidity
    } else if j == 4 {
        Rule::Pressure
    } else if j == 5 {
        Rule::Custom
    } else if j == 6 {
        Rule::Sun
    } else if j == 7 {
        Rule::Rssi
    } else if j == 8 {
        Rule::Windspeed
    } else if j == 9 {
        Rule::Location
    } else if j == 10 {
        Rule::Count
    } else {
        Rule::Zombie
    }
}

fn reading_kind_of(c: u8) -> (r: Option<Reading>)
    ensures
        r == reading_kind(c),
{
    if c == 86 {
        Some(Reading::Voltage)
    } else if c == 73 {
        Some(Reading::Current)
    } else if c == 84 {
        Some(Reading::Temperature)
    } else if c == 72 {
        Some(Reading::Humidity)
    } else if c == 80 {
        Some(Reading::Pressure)
    } else if c == 88 {
        Some(Reading::Custom)
    } else if c == 83 {
        Some(Reading::Sun)
    } else if c == 82 {
        Some(Reading::Rssi)
    } else if c == 67 {
        Some(Reading::Count)
    } else {
        None
    }
}

/// Records the first `k` alternatives of the field choice as failed at `i`.
fn record_tags(i: usize, k: usize, f: &mut Failures)
    requires
        k <= 12,
    ensures
        final(f)@ == absorb_all(old(f)@, tags_missed(i as int, k as int)),
{
    let ghost f0 = f@;
    let mut j: usize = 0;
    assert(tags_missed(i as int, 0) =~= Seq::<Miss>::empty());
    while j < k
        invariant
            j <= k <= 12,
            f@ == absorb_all(f0, tags_missed(i as int, j as int)),
        decreases k - j,
    {
        let ghost fj = f@;
        let r = field_rule(j);
        f.record(i, r);
        proof {
            let next = tags_missed(i as int, j + 1);
            assert(next.drop_last() =~= tags_missed(i as int, j as int));
            assert(next.last() == Miss { pos: i as int, rule: r });
        }
        j = j + 1;
    }
}

pub open spec fn opt_view_field(r: Option<(DataField, usize)>) -> Option<(FieldV, int)> {
    match r {
        Some(p) => Some((p.0@, p.1 as int)),
        None => None,
    }
}

/// A data field at `i`: the first alternative of the choice that matches.
fn data_field(s: &[u8], i: usize, f: &mut Failures, toks: &mut Vec<Token>) -> (r: Option<
    (DataField, usize),
>)
    requires
        i <= s@.len(),
    ensures
        opt_view_field(r) == field_at(s@, i as int),
        final(f)@ == absorb_all(old(f)@, field_misses(s@, i as int)),
        final(toks)@ == old(toks)@ + field_tokens(s@, i as int),
{
    let ghost f0 = f@;
    let k = if i < s.len() {
        tag_rank_of(s[i])
    } else {
        12
    };
    record_tags(i, k, f);
    let ghost f1 = f@;
    let ghost before = tags_missed(i as int, k as int);
    if i >= s.len() {
        assert(toks@ =~= old(toks)@ + field_tokens(s@, i as int));
        return None;
    }
    let c = s[i];
    let mut inner: Vec<Token> = Vec::new();
    match reading_kind_of(c) {
        Some(kind) => {
            let (v, e) = readings(s, i + 1, f, &mut inner);
            proof {
                lemma_absorb_all_concat(f0, before, readings_misses(s@, i + 1));
            }
            toks.push(Token { rule: Rule::DataField, start: i, end: e });
            toks.push(Token { rule: field_rule(k), start: i, end: e });
            toks.push(Token { rule: Rule::DecimalList, start: i + 1, end: e });
            toks.append(&mut inner);
            assert(toks@ =~= old(toks)@ + field_tokens(s@, i as int));
            return Some((DataField::from_readings(kind, v), e));
        },
        None => {},
    }
    if c == 87 {
        let (w, e) = windspeed(s, i + 1, f, &mut inner);
        proof {
            lemma_absorb_all_concat(f0, before, windspeed_misses(s@, i + 1));
        }
        toks.push(Token { rule: Rule::DataField, start: i, end: e });
        toks.push(Token { rule: Rule::Windspeed, start: i, end: e });
        toks.append(&mut inner);
        assert(toks@ =~= old(toks)@ + field_tokens(s@, i as int));
        Some((DataField::WindSpeed(w), e))
    } else if c == 76 {
        let (l, e) = location(s, i + 1, f, &mut inner);
        proof {
            lemma_absorb_all_concat(f0, before, location_misses(s@, i + 1));
        }
        toks.push(Token { rule: Rule::DataField, start: i, end: e });
        toks.push(Token { rule: Rule::Location, start: i, end: e });
        toks.append(&mut inner);
        assert(toks@ =~= old(toks)@ + field_tokens(s@, i as int));
        Some((DataField::Location(l), e))
    } else if c == 90 && i + 1 < s.len() && (s[i + 1] == 48 || s[i + 1] == 49) {
        proof {
            assert(before + Seq::<Miss>::empty() =~= before);
        }
        toks.push(Token { rule: Rule::DataField, start: i, end: i + 2 });
        toks.push(Token { rule: Rule::Zombie, start: i, end: i + 2 });
        assert(toks@ =~= old(toks)@ + field_tokens(s@, i as int));
        if s[i + 1] == 48 {
            Some((DataField::Zombie(0), i + 2))
        } else {
            Some((DataField::Zombie(1), i + 2))
        }
    } else if c == 90 {
        assert(toks@ =~= old(toks)@ + field_tokens(s@, i as int));
        f.record(i + 1, Rule::Zombie);
        proof {
            let m = Miss { pos: i + 1, rule: Rule::Zombie };
            lemma_absorb_all_concat(f0, before, seq![m]);
            lemma_absorb_all_one(f1, m);
        }
        None
    } else {
        assert(toks@ =~= old(toks)@ + field_tokens(s@, i as int));
        None
    }
}

/// The fields from `i` on, as long as one matches.
fn data(s: &[u8], i: usize, f: &mut Failures, toks: &mut Vec<Token>) -> (r: (
    Vec<DataField>,
    usize,
))
    requires
        i <= s@.len(),
    ensures
        fields_view(r.0@) == data_at(s@, i as int).0,
        r.1 == data_at(s@, i as int).1,
        final(f)@ == absorb_all(old(f)@, data_misses(s@, i as int)),
        final(toks)@ == old(toks)@ + fields_tokens(s@, i as int),
{
    let ghost f0 = f@;
    let ghost t0 = toks@;
    let mut out: Vec<DataField> = Vec::new();
    let mut p = i;
    loop
        invariant
            i <= p <= s@.len(),
            f0 == old(f)@,
            data_at(s@, i as int).0 == fields_view(out@) + data_at(s@, p as int).0,
            data_at(s@, i as int).1 == data_at(s@, p as int).1,
            absorb_all(f0, data_misses(s@, i as int)) == absorb_all(f@, data_misses(s@, p as int)),
            t0 == old(toks)@,
            t0 + fields_tokens(s@, i as int) == toks@ + fields_tokens(s@, p as int),
        decreases s@.len() - p,
    {
        let ghost fp = f@;
        let ghost outp = out@;
        let ghost tp = toks@;
        proof {
            lemma_field_end(s@, p as int);
        }
        match data_field(s, p, f, toks) {
            Some((x, e)) => {
                out.push(x);
                proof {
                    lemma_absorb_all_concat(fp, field_misses(s@, p as int), data_misses(s@, e as int));
                    assert(fields_view(out@) =~= fields_view(outp).push(x@));
                    assert(data_at(s@, i as int).0 =~= fields_view(out@) + data_at(s@, e as int).0);
                    assert(t0 + fields_tokens(s@, i as int) =~= toks@ + fields_tokens(s@, e as int));
                }
                p = e;
            },
            None => {
                proof {
                    assert(data_at(s@, i as int).0 =~= fields_view(out@));
                    assert(t0 + fields_tokens(s@, i as int) =~= toks@);
                }
                return (out, p);
            },
        }
    }
}

/// An optional comment at `i`.
fn comment(s: &[u8], i: usize, f: &mut Failures, toks: &mut Vec<Token>) -> (r: (
    Option<String>,
    usize,
))
    requires
        i <= s@.len(),
    ensures
        crate::packet::opt_string_view(r.0) == comment_at(s@, i as int).0,
        r.1 == comment_at(s@, i as int).1,
        final(f)@ == absorb_all(old(f)@, comment_misses(s@, i as int)),
        final(toks)@ == old(toks)@ + comment_tokens(s@, i as int),
{
    let ghost f0 = f@;
    if i < s.len() && s[i] == 58 {
        let e = scan(s, i + 1, CharClass::CommentChar);
        proof {
            lemma_run_end(s@, i + 1, CharClass::CommentChar);
        }
        f.record(e, Rule::CommentContent);
        proof {
            lemma_absorb_all_one(f0, Miss { pos: e as int, rule: Rule::CommentContent });
        }
        toks.push(Token { rule: Rule::Comment, start: i, end: e });
        toks.push(Token { rule: Rule::CommentContent, start: i + 1, end: e });
        assert(toks@ =~= old(toks)@ + comment_tokens(s@, i as int));
        let text = copy_range(s, i + 1, e);
        assert forall|j: int| 0 <= j < text@.len() implies text@[j] < 128 by {
            assert(in_class(s@[i + 1 + j], CharClass::CommentChar));
        }
        (Some(ascii_string(text)), e)
    } else {
        f.record(i, Rule::Comment);
        proof {
            lemma_absorb_all_one(f0, Miss { pos: i as int, rule: Rule::Comment });
        }
        assert(toks@ =~= old(toks)@ + comment_tokens(s@, i as int));
        (None, i)
    }
}

/// The upper-case copy of the name bytes `s[from..to]`.
fn name_string(s: &[u8], from: usize, to: usize) -> (r: String)
    requires
        from <= to <= s@.len(),
        forall|j: int| from <= j < to ==> in_class(#[trigger] s@[j], CharClass::NameChar),
    ensures
        r@ == node_name(s@.subrange(from as int, to as int)),
{
    let mut b: Vec<u8> = Vec::new();
    let mut k = from;
    while k < to
        invariant
            from <= k <= to <= s@.len(),
            b@ == upper(s@.subrange(from as int, k as int)),
            forall|j: int| 0 <= j < b@.len() ==> b@[j] < 128,
            forall|j: int| from <= j < to ==> in_class(#[trigger] s@[j], CharClass::NameChar),
        decreases to - k,
    {
        let c = s[k];
        let u = if 97 <= c && c <= 122 {
            c - 32
        } else {
            c
        };
        assert(in_class(s@[k as int], CharClass::NameChar));
        b.push(u);
        k = k + 1;
        assert(b@ =~= upper(s@.subrange(from as int, k as int)));
    }
    ascii_string(b)
}

/// A path at `i`: node names between square brackets.
fn path(s: &[u8], i: usize, f: &mut Failures, toks: &mut Vec<Token>) -> (r: Option<
    (Vec<String>, usize),
>)
    requires
        i <= s@.len(),
    ensures
        match r {
            Some(x) => path_at(s@, i as int) == Some(
                (x.0@.map_values(|n: String| n@), x.1 as int),
            ),
            None => path_at(s@, i as int) is None,
        },
        final(f)@ == absorb_all(old(f)@, path_misses(s@, i as int)),
        final(toks)@ == old(toks)@ + path_tokens(s@, i as int),
{
    let ghost f0 = f@;
    if !(i < s.len() && s[i] == 91) {
        f.record(i, Rule::Path);
        proof {
            lemma_absorb_all_one(f0, Miss { pos: i as int, rule: Rule::Path });
        }
        assert(toks@ =~= old(toks)@ + path_tokens(s@, i as int));
        return None;
    }
    let mut inner: Vec<Token> = Vec::new();
    let mut names: Vec<String> = Vec::new();
    let mut p = i + 1;
    loop
        invariant
            i + 1 <= p <= s@.len(),
            f0 == old(f)@,
            byte_at(s@, i as int, 91),
            names_at(s@, i + 1).0 == names@.map_values(|n: String| n@) + names_at(s@, p as int).0,
            names_at(s@, i + 1).1 == names_at(s@, p as int).1,
            absorb_all(f0, names_misses(s@, i + 1)) == absorb_all(f@, names_misses(s@, p as int)),
            toks@ == old(toks)@,
            names_tokens(s@, i + 1) == inner@ + names_tokens(s@, p as int),
        decreases s@.len() - p,
    {
        let ghost fp = f@;
        let ghost namesp = names@;
        let ghost innerp = inner@;
        let e = scan(s, p, CharClass::NameChar);
        proof {
            lemma_run_end(s@, p as int, CharClass::NameChar);
        }
        inner.push(Token { rule: Rule::NodeName, start: p, end: e });
        inner.push(Token { rule: Rule::NodeNameContent, start: p, end: e });
        let name = name_string(s, p, e);
        names.push(name);
        f.record(e, Rule::NodeNameContent);
        let ghost m0 = Miss { pos: e as int, rule: Rule::NodeNameContent };
        proof {
            assert(names@.map_values(|n: String| n@) =~= namesp.map_values(|n: String| n@).push(name@));
        }
        if e < s.len() && s[e] == 44 {
            proof {
                lemma_absorb_all_cons(fp, m0, names_misses(s@, e + 1));
                assert(names_at(s@, i + 1).0 =~= names@.map_values(|n: String| n@) + names_at(s@, e + 1).0);
                assert(names_tokens(s@, i + 1) =~= inner@ + names_tokens(s@, e + 1));
            }
            p = e + 1;
        } else {
            f.record(e, Rule::Path);
            proof {
                lemma_absorb_all_two(fp, m0, Miss { pos: e as int, rule: Rule::Path });
                assert(names_at(s@, i + 1).0 =~= names@.map_values(|n: String| n@));
                assert(names_tokens(s@, i + 1) =~= inner@);
            }
            if e < s.len() && s[e] == 93 {
                toks.push(Token { rule: Rule::Path, start: i, end: e + 1 });
                toks.append(&mut inner);
                assert(toks@ =~= old(toks)@ + path_tokens(s@, i as int));
                return Some((names, e + 1));
            } else {
                assert(toks@ =~= old(toks)@ + path_tokens(s@, i as int));
                return None;
            }
        }
    }
}

pub open spec fn opt_view_packet(r: Option<Packet>) -> Option<PacketV> {
    match r {
        Some(p) => Some(p@),
        None => None,
    }
}

/// A whole packet: repeat, sequence, data, optional comment, path, and then
/// the end of the input.
fn packet(s: &[u8], f: &mut Failures, toks: &mut Vec<Token>) -> (r: Option<Packet>)
    ensures
        opt_view_packet(r) == packet_at(s@),
        final(f)@ == absorb_all(old(f)@, packet_misses(s@)),
        r is Some ==> final(toks)@ == old(toks)@ + packet_tokens(s@),
{
    let ghost f0 = f@;
    if s.len() < 1 || !(48 <= s[0] && s[0] <= 57) {
        f.record(0, Rule::Repeat);
        proof {
            lemma_absorb_all_one(f0, Miss { pos: 0, rule: Rule::Repeat });
        }
        return None;
    }
    if s.len() < 2 || !(97 <= s[1] && s[1] <= 122) {
        f.record(1, Rule::Sequence);
        proof {
            lemma_absorb_all_one(f0, Miss { pos: 1, rule: Rule::Sequence });
        }
        return None;
    }
    let repeat = s[0] - 48;
    let sequence = s[1] as char;
    proof {
        lemma_data_end(s@, 2);
    }
    let mut body: Vec<Token> = Vec::new();
    let (fields, p) = data(s, 2, f, &mut body);
    let ghost f1 = f@;
    proof {
        lemma_run_end(s@, p + 1, CharClass::CommentChar);
    }
    let (remark, q) = comment(s, p, f, &mut body);
    let ghost f2 = f@;
    let found = path(s, q, f, &mut body);
    let ghost f3 = f@;
    let ghost dm = data_misses(s@, 2);
    let ghost cm = comment_misses(s@, p as int);
    let ghost pm = path_misses(s@, q as int);
    proof {
        lemma_absorb_all_concat(f0, dm, cm);
        lemma_absorb_all_concat(f0, dm + cm, pm);
    }
    match found {
        Some((names, e)) => {
            if e == s.len() {
                proof {
                    assert(dm + cm + pm + Seq::<Miss>::empty() =~= dm + cm + pm);
                }
                toks.push(Token { rule: Rule::Packet, start: 0, end: s.len() });
                toks.push(Token { rule: Rule::Repeat, start: 0, end: 1 });
                toks.push(Token { rule: Rule::Sequence, start: 1, end: 2 });
                toks.push(Token { rule: Rule::Data, start: 2, end: p });
                toks.append(&mut body);
                assert(toks@ =~= old(toks)@ + packet_tokens(s@));
                Some(Packet { repeat, sequence, data: fields, comment: remark, path: names })
            } else {
                f.record(e, Rule::Eoi);
                proof {
                    let m = Miss { pos: e as int, rule: Rule::Eoi };
                    lemma_absorb_all_concat(f0, dm + cm + pm, seq![m]);
                    lemma_absorb_all_one(f3, m);
                }
                None
            }
        },
        None => {
            proof {
                assert(dm + cm + pm + Seq::<Miss>::empty() =~= dm + cm + pm);
            }
            None
        },
    }
}

/// Whether `e` reports the diagnosis `d`.
pub open spec fn reports(e: ParserError, d: Diag) -> bool {
    &&& e.position == d.pos
    &&& strings_view(e.expected@) == rule_names(d.rules)
}

/// Parses a packet from its bytes: the packet the grammar gives, or the
/// furthest offset reached with the rules that failed there.
pub fn parse_bytes(s: &[u8]) -> (r: Result<Packet, ParserError>)
    ensures
        match r {
            Ok(p) => parse_result(s@) == Ok::<PacketV, Diag>(p@),
            Err(e) => parse_result(s@) is Err && reports(e, parse_result(s@)->Err_0),
        },
{
    let mut f = Failures::new();
    let mut toks: Vec<Token> = Vec::new();
    match packet(s, &mut f, &mut toks) {
        Some(p) => Ok(p),
        None => Err(ParserError::from_parser(&f)),
    }
}

/// Recognizes a packet without building it: the token tree of the parse, a
/// token for each named rule that matched, in document order and each parent
/// before what it contains; or the same error as `parse_bytes`.
pub fn recognize(s: &[u8]) -> (r: Result<Vec<Token>, ParserError>)
    ensures
        match r {
            Ok(t) => packet_at(s@) is Some && t@ == packet_tokens(s@),
            Err(e) => parse_result(s@) is Err && reports(e, parse_result(s@)->Err_0),
        },
{
    let mut f = Failures::new();
    let mut toks: Vec<Token> = Vec::new();
    match packet(s, &mut f, &mut toks) {
        Some(_) => Ok(toks),
        None => Err(ParserError::from_parser(&f)),
    }
}

} // verus!
