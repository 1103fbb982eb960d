//! The packet grammar, stated over the input's bytes. Each rule says where a
//! match starting at a given offset ends and what it denotes, with ordered
//! choice, greedy repetition and backtracking as a parsing expression grammar
//! has them; each rule also lists the attempts that failed on the way, which
//! the error report is made from.
use vstd::prelude::*;
use crate::diagnostics::{Rule, Miss, Diag, diagnose};
use crate::packet::{DecimalV, Reading, FieldV, PacketV};

verus! {

pub open spec fn byte_at(s: Seq<u8>, i: int, c: u8) -> bool {
    0 <= i < s.len() && s[i] == c
}

pub open spec fn is_digit(c: u8) -> bool {
    48 <= c <= 57
}

pub open spec fn is_lower(c: u8) -> bool {
    97 <= c <= 122
}

pub open spec fn is_upper(c: u8) -> bool {
    65 <= c <= 90
}

pub open spec fn is_letter(c: u8) -> bool {
    is_lower(c) || is_upper(c)
}

/// The punctuation allowed in comments: ASCII from space to `~`, but for
/// letters, digits and the square brackets.
pub open spec fn is_symbol(c: u8) -> bool {
    (32 <= c <= 47) || (58 <= c <= 64) || c == 92 || (94 <= c <= 96) || (123 <= c <= 126)
}

/// The classes of bytes that the grammar repeats greedily.
#[derive(Clone, Copy, PartialEq, Eq, Structural)]
pub enum CharClass {
    Digit,
    NameChar,
    CommentChar,
}

pub open spec fn in_class(c: u8, k: CharClass) -> bool {
    match k {
        CharClass::Digit => is_digit(c),
        CharClass::NameChar => is_letter(c) || is_digit(c),
        CharClass::CommentChar => is_letter(c) || is_digit(c) || is_symbol(c),
    }
}

/// The end of the longest run of bytes of class `k` that starts at `i`.
pub open spec fn run_end(s: Seq<u8>, i: int, k: CharClass) -> int
    decreases s.len() - i,
{
    if 0 <= i < s.len() && in_class(s[i], k) {
        run_end(s, i + 1, k)
    } else {
        i
    }
}

pub proof fn lemma_run_end(s: Seq<u8>, i: int, k: CharClass)
    ensures
        run_end(s, i, k) >= i,
        0 <= i <= s.len() ==> run_end(s, i, k) <= s.len(),
        forall|j: int| i <= j < run_end(s, i, k) ==> in_class(#[trigger] s[j], k),
        0 <= i <= s.len() && run_end(s, i, k) < s.len() ==> !in_class(s[run_end(s, i, k)], k),
    decreases s.len() - i,
{
    if 0 <= i < s.len() && in_class(s[i], k) {
        lemma_run_end(s, i + 1, k);
    }
}

/// ASCII upper case of a lower-case letter; other bytes stay.
pub open spec fn upper_byte(c: u8) -> u8 {
    if is_lower(c) {
        (c - 32) as u8
    } else {
        c
    }
}

pub open spec fn upper(b: Seq<u8>) -> Seq<u8> {
    b.map_values(|c: u8| upper_byte(c))
}

/// The characters of ASCII bytes.
pub open spec fn chars_of(b: Seq<u8>) -> Seq<char> {
    b.map_values(|c: u8| c as char)
}

// ---- decimal = ['+'|'-']? digit+ ['.' digit+]?

pub open spec fn sign_len(s: Seq<u8>, i: int) -> int {
    if byte_at(s, i, 43) || byte_at(s, i, 45) {
        1
    } else {
        0
    }
}

/// A point at `d` followed by a digit.
pub open spec fn has_fraction(s: Seq<u8>, d: int) -> bool {
    byte_at(s, d, 46) && d + 1 < s.len() && is_digit(s[d + 1])
}

/// A decimal at `i`: what it denotes and where it ends.
pub open spec fn decimal_at(s: Seq<u8>, i: int) -> Option<(DecimalV, int)> {
    let j = i + sign_len(s, i);
    let d = run_end(s, j, CharClass::Digit);
    if d == j {
        None
    } else if has_fraction(s, d) {
        let e = run_end(s, d + 1, CharClass::Digit);
        Some(
            (
                DecimalV {
                    negative: byte_at(s, i, 45),
                    whole: s.subrange(j, d),
                    fraction: s.subrange(d + 1, e),
                },
                e,
            ),
        )
    } else {
        Some(
            (
                DecimalV { negative: byte_at(s, i, 45), whole: s.subrange(j, d), fraction: Seq::empty() },
                d,
            ),
        )
    }
}

/// Where a decimal attempt at `i` stopped: the end of its digits, or the
/// missing digit after a point, or the start when there were no digits.
pub open spec fn decimal_miss(s: Seq<u8>, i: int) -> Miss {
    let j = i + sign_len(s, i);
    let d = run_end(s, j, CharClass::Digit);
    if d == j {
        Miss { pos: j, rule: Rule::Decimal }
    } else if has_fraction(s, d) {
        Miss { pos: run_end(s, d + 1, CharClass::Digit), rule: Rule::Decimal }
    } else if byte_at(s, d, 46) {
        Miss { pos: d + 1, rule: Rule::Decimal }
    } else {
        Miss { pos: d, rule: Rule::Decimal }
    }
}

/// The reading of an optional decimal at `i`.
pub open spec fn decimal_value(s: Seq<u8>, i: int) -> Option<DecimalV> {
    match decimal_at(s, i) {
        Some(r) => Some(r.0),
        None => None,
    }
}

/// Where an optional decimal at `i` ends.
pub open spec fn after_decimal(s: Seq<u8>, i: int) -> int {
    match decimal_at(s, i) {
        Some(r) => r.1,
        None => i,
    }
}

pub proof fn lemma_decimal_end(s: Seq<u8>, i: int)
    ensures
        after_decimal(s, i) >= i,
        decimal_at(s, i) is Some ==> after_decimal(s, i) > i,
        0 <= i <= s.len() ==> after_decimal(s, i) <= s.len(),
{
    let j = i + sign_len(s, i);
    lemma_run_end(s, j, CharClass::Digit);
    let d = run_end(s, j, CharClass::Digit);
    if d != j && has_fraction(s, d) {
        lemma_run_end(s, d + 1, CharClass::Digit);
    }
}

// ---- decimal_list = decimal? (',' decimal?)*

/// The readings of a list from `i` on, and where the list ends; empty
/// elements between commas give no reading.
pub open spec fn readings_at(s: Seq<u8>, i: int) -> (Seq<DecimalV>, int)
    decreases s.len() - i,
{
    let p = after_decimal(s, i);
    let head: Seq<DecimalV> = match decimal_value(s, i) {
        Some(v) => seq![v],
        None => Seq::empty(),
    };
    if byte_at(s, p, 44) {
        proof {
            lemma_decimal_end(s, i);
        }
        let rest = readings_at(s, p + 1);
        (head + rest.0, rest.1)
    } else {
        (head, p)
    }
}

pub open spec fn readings_misses(s: Seq<u8>, i: int) -> Seq<Miss>
    decreases s.len() - i,
{
    let p = after_decimal(s, i);
    if byte_at(s, p, 44) {
        proof {
            lemma_decimal_end(s, i);
        }
        seq![decimal_miss(s, i)] + readings_misses(s, p + 1)
    } else {
        seq![decimal_miss(s, i), Miss { pos: p, rule: Rule::DecimalList }]
    }
}

pub proof fn lemma_readings_end(s: Seq<u8>, i: int)
    requires
        0 <= i <= s.len(),
    ensures
        i <= readings_at(s, i).1 <= s.len(),
    decreases s.len() - i,
{
    lemma_decimal_end(s, i);
    let p = after_decimal(s, i);
    if byte_at(s, p, 44) {
        lemma_readings_end(s, p + 1);
    }
}

// ---- windspeed = 'W' decimal? (',' decimal?)?   (from just after the tag)

/// A wind speed from just after its tag: the speed, then after a comma the
/// bearing, each of which may be left out.
pub open spec fn windspeed_at(s: Seq<u8>, i: int) -> (FieldV, int) {
    let p = after_decimal(s, i);
    if byte_at(s, p, 44) {
        (FieldV::WindSpeed(decimal_value(s, i), decimal_value(s, p + 1)), after_decimal(s, p + 1))
    } else {
        (FieldV::WindSpeed(decimal_value(s, i), None), p)
    }
}

pub open spec fn windspeed_misses(s: Seq<u8>, i: int) -> Seq<Miss> {
    let p = after_decimal(s, i);
    if byte_at(s, p, 44) {
        seq![decimal_miss(s, i), decimal_miss(s, p + 1)]
    } else {
        seq![decimal_miss(s, i), Miss { pos: p, rule: Rule::Windspeed }]
    }
}

// ---- location = 'L' ((decimal ',' decimal)? | ',') (',' decimal?)?
// The first alternative always matches, so the second is never reached.

/// Whether a latitude, a comma and a longitude start at `i`.
pub open spec fn has_latlng(s: Seq<u8>, i: int) -> bool {
    let d = after_decimal(s, i);
    decimal_at(s, i) is Some && byte_at(s, d, 44) && decimal_at(s, d + 1) is Some
}

/// A location from just after its tag: a latitude and longitude, then after a
/// comma the altitude.
pub open spec fn location_at(s: Seq<u8>, i: int) -> (FieldV, int) {
    let d = after_decimal(s, i);
    let latlng: Option<(DecimalV, DecimalV)> = if has_latlng(s, i) {
        Some((decimal_at(s, i).unwrap().0, decimal_at(s, d + 1).unwrap().0))
    } else {
        None
    };
    let p = if has_latlng(s, i) {
        after_decimal(s, d + 1)
    } else {
        i
    };
    if byte_at(s, p, 44) {
        (FieldV::Location(latlng, decimal_value(s, p + 1)), after_decimal(s, p + 1))
    } else {
        (FieldV::Location(latlng, None), p)
    }
}

/// The failed attempts of the optional latitude and longitude at `i`.
pub open spec fn latlng_misses(s: Seq<u8>, i: int) -> Seq<Miss> {
    let d = after_decimal(s, i);
    if decimal_at(s, i) is None {
        seq![decimal_miss(s, i)]
    } else if !byte_at(s, d, 44) {
        seq![decimal_miss(s, i), Miss { pos: d, rule: Rule::Location }]
    } else {
        seq![decimal_miss(s, i), decimal_miss(s, d + 1)]
    }
}

pub open spec fn location_misses(s: Seq<u8>, i: int) -> Seq<Miss> {
    let d = after_decimal(s, i);
    let p = if has_latlng(s, i) {
        after_decimal(s, d + 1)
    } else {
        i
    };
    if byte_at(s, p, 44) {
        latlng_misses(s, i) + seq![decimal_miss(s, p + 1)]
    } else {
        latlng_misses(s, i) + seq![Miss { pos: p, rule: Rule::Location }]
    }
}

// ---- data_field: ordered choice over the fields, each starting with its tag

/// The fields in the order the choice tries them.
pub open spec fn field_rules() -> Seq<Rule> {
    seq![
        Rule::Voltage,
        Rule::Current,
        Rule::Temperature,
        Rule::Humidity,
        Rule::Pressure,
        Rule::Custom,
        Rule::Sun,
        Rule::Rssi,
        Rule::Windspeed,
        Rule::Location,
        Rule::Count,
        Rule::Zombie,
    ]
}

/// The position of the field tagged `c` in `field_rules`; 12 for no tag.
pub open spec fn tag_rank(c: u8) -> int {
    if c == 86 {
        0
    } else if c == 73 {
        1
    } else if c == 84 {
        2
    } else if c == 72 {
        3
    } else if c == 80 {
        4
    } else if c == 88 {
        5
    } else if c == 83 {
        6
    } else if c == 82 {
        7
    } else if c == 87 {
        8
    } else if c == 76 {
        9
    } else if c == 67 {
        10
    } else if c == 90 {
        11
    } else {
        12
    }
}

pub open spec fn rank_at(s: Seq<u8>, i: int) -> int {
    if 0 <= i < s.len() {
        tag_rank(s[i])
    } else {
        12
    }
}

/// The kind of the list field tagged `c`.
pub open spec fn reading_kind(c: u8) -> Option<Reading> {
    if c == 86 {
        Some(Reading::Voltage)
    } else if c == 73 {
        Some(Reading::Current)
    } else if c == 84 {
        Some(Reading::Temperature)
    } else if c == 72 {
        Some(Reading::Humidity)
    } else if c == 80 {
        Some(Reading::Pressure)
    } else if c == 88 {
        Some(Reading::Custom)
    } else if c == 83 {
        Some(Reading::Sun)
    } else if c == 82 {
        Some(Reading::Rssi)
    } else if c == 67 {
        Some(Reading::Count)
    } else {
        None
    }
}

/// The data field at `i`, if one matches, and where it ends.
pub open spec fn field_at(s: Seq<u8>, i: int) -> Option<(FieldV, int)> {
    if !(0 <= i < s.len()) {
        None
    } else {
        let c = s[i];
        match reading_kind(c) {
            Some(kind) => {
                let r = readings_at(s, i + 1);
                Some((FieldV::Readings(kind, r.0), r.1))
            },
            None => {
                if c == 87 {
                    Some(windspeed_at(s, i + 1))
                } else if c == 76 {
                    Some(location_at(s, i + 1))
                } else if c == 90 && byte_at(s, i + 1, 48) {
                    Some((FieldV::Zombie(0), i + 2))
                } else if c == 90 && byte_at(s, i + 1, 49) {
                    Some((FieldV::Zombie(1), i + 2))
                } else {
                    None
                }
            },
        }
    }
}

/// The alternatives tried at `i` before the `k`-th, each failing on its tag.
pub open spec fn tags_missed(i: int, k: int) -> Seq<Miss> {
    field_rules().take(k).map_values(|r: Rule| Miss { pos: i, rule: r })
}

pub open spec fn field_misses(s: Seq<u8>, i: int) -> Seq<Miss> {
    let before = tags_missed(i, rank_at(s, i));
    if !(0 <= i < s.len()) {
        before
    } else {
        let c = s[i];
        if reading_kind(c) is Some {
            before + readings_misses(s, i + 1)
        } else if c == 87 {
            before + windspeed_misses(s, i + 1)
        } else if c == 76 {
            before + location_misses(s, i + 1)
        } else if c == 90 && !byte_at(s, i + 1, 48) && !byte_at(s, i + 1, 49) {
            before + seq![Miss { pos: i + 1, rule: Rule::Zombie }]
        } else {
            before
        }
    }
}

pub proof fn lemma_field_end(s: Seq<u8>, i: int)
    requires
        0 <= i <= s.len(),
    ensures
        field_at(s, i) is Some ==> i < field_at(s, i).unwrap().1 <= s.len(),
{
    if 0 <= i < s.len() {
        let c = s[i];
        if reading_kind(c) is Some {
            lemma_readings_end(s, i + 1);
        } else if c == 87 || c == 76 {
            lemma_decimal_end(s, i + 1);
            let d = after_decimal(s, i + 1);
            if byte_at(s, d, 44) {
                lemma_decimal_end(s, d + 1);
                let d2 = after_decimal(s, d + 1);
                if byte_at(s, d2, 44) {
                    lemma_decimal_end(s, d2 + 1);
                }
            }
        }
    }
}

// ---- data = data_field*

/// The data fields from `i` on, and where they end.
pub open spec fn data_at(s: Seq<u8>, i: int) -> (Seq<FieldV>, int)
    decreases s.len() - i,
{
    if 0 <= i <= s.len() {
        match field_at(s, i) {
            Some(r) => {
                proof {
                    lemma_field_end(s, i);
                }
                let rest = data_at(s, r.1);
                (seq![r.0] + rest.0, rest.1)
            },
            None => (Seq::empty(), i),
        }
    } else {
        (Seq::empty(), i)
    }
}

pub open spec fn data_misses(s: Seq<u8>, i: int) -> Seq<Miss>
    decreases s.len() - i,
{
    if 0 <= i <= s.len() {
        match field_at(s, i) {
            Some(r) => {
                proof {
                    lemma_field_end(s, i);
                }
                field_misses(s, i) + data_misses(s, r.1)
            },
            None => field_misses(s, i),
        }
    } else {
        Seq::empty()
    }
}

pub proof fn lemma_data_end(s: Seq<u8>, i: int)
    requires
        0 <= i <= s.len(),
    ensures
        i <= data_at(s, i).1 <= s.len(),
    decreases s.len() - i,
{
    lemma_field_end(s, i);
    if let Some(r) = field_at(s, i) {
        lemma_data_end(s, r.1);
    }
}

// ---- comment = ':' comment_content

/// An optional comment at `i`, and where it ends.
pub open spec fn comment_at(s: Seq<u8>, i: int) -> (Option<Seq<char>>, int) {
    if byte_at(s, i, 58) {
        let e = run_end(s, i + 1, CharClass::CommentChar);
        (Some(chars_of(s.subrange(i + 1, e))), e)
    } else {
        (None, i)
    }
}

pub open spec fn comment_misses(s: Seq<u8>, i: int) -> Seq<Miss> {
    if byte_at(s, i, 58) {
        seq![Miss { pos: run_end(s, i + 1, CharClass::CommentChar), rule: Rule::CommentContent }]
    } else {
        seq![Miss { pos: i, rule: Rule::Comment }]
    }
}

// ---- path = '[' node_name (',' node_name)* ']'

/// A node name as reported: its bytes in upper case.
pub open spec fn node_name(b: Seq<u8>) -> Seq<char> {
    chars_of(upper(b))
}

/// The node names from `i` on, up to the first byte that is neither a name
/// byte nor a comma.
pub open spec fn names_at(s: Seq<u8>, i: int) -> (Seq<Seq<char>>, int)
    decreases s.len() - i,
{
    let e = run_end(s, i, CharClass::NameChar);
    let name = node_name(s.subrange(i, e));
    if byte_at(s, e, 44) {
        proof {
            lemma_run_end(s, i, CharClass::NameChar);
        }
        let rest = names_at(s, e + 1);
        (seq![name] + rest.0, rest.1)
    } else {
        (seq![name], e)
    }
}

pub open spec fn names_misses(s: Seq<u8>, i: int) -> Seq<Miss>
    decreases s.len() - i,
{
    let e = run_end(s, i, CharClass::NameChar);
    if byte_at(s, e, 44) {
        proof {
            lemma_run_end(s, i, CharClass::NameChar);
        }
        seq![Miss { pos: e, rule: Rule::NodeNameContent }] + names_misses(s, e + 1)
    } else {
        seq![Miss { pos: e, rule: Rule::NodeNameContent }, Miss { pos: e, rule: Rule::Path }]
    }
}

pub proof fn lemma_names_end(s: Seq<u8>, i: int)
    requires
        0 <= i <= s.len(),
    ensures
        i <= names_at(s, i).1 <= s.len(),
    decreases s.len() - i,
{
    lemma_run_end(s, i, CharClass::NameChar);
    let e = run_end(s, i, CharClass::NameChar);
    if byte_at(s, e, 44) {
        lemma_names_end(s, e + 1);
    }
}

/// A path at `i`, and where it ends.
pub open spec fn path_at(s: Seq<u8>, i: int) -> Option<(Seq<Seq<char>>, int)> {
    if !byte_at(s, i, 91) {
        None
    } else {
        let r = names_at(s, i + 1);
        if byte_at(s, r.1, 93) {
            Some((r.0, r.1 + 1))
        } else {
            None
        }
    }
}

pub open spec fn path_misses(s: Seq<u8>, i: int) -> Seq<Miss> {
    if !byte_at(s, i, 91) {
        seq![Miss { pos: i, rule: Rule::Path }]
    } else {
        names_misses(s, i + 1)
    }
}

// ---- packet = repeat sequence data comment? path end-of-input

/// The packet that `s` denotes, if `s` is a packet from its first byte to its
/// last.
pub open spec fn packet_at(s: Seq<u8>) -> Option<PacketV> {
    if s.len() < 2 || !is_digit(s[0]) || !is_lower(s[1]) {
        None
    } else {
        let d = data_at(s, 2);
        let c = comment_at(s, d.1);
        match path_at(s, c.1) {
            Some(p) => if p.1 == s.len() {
                Some(
                    PacketV {
                        repeat: (s[0] - 48) as u8,
                        sequence: s[1] as char,
                        data: d.0,
                        comment: c.0,
                        path: p.0,
                    },
                )
            } else {
                None
            },
            None => None,
        }
    }
}

pub open spec fn packet_misses(s: Seq<u8>) -> Seq<Miss> {
    if s.len() < 1 || !is_digit(s[0]) {
        seq![Miss { pos: 0, rule: Rule::Repeat }]
    } else if s.len() < 2 || !is_lower(s[1]) {
        seq![Miss { pos: 1, rule: Rule::Sequence }]
    } else {
        let d = data_at(s, 2);
        let c = comment_at(s, d.1);
        let tail: Seq<Miss> = match path_at(s, c.1) {
            Some(p) => if p.1 == s.len() {
                Seq::empty()
            } else {
                seq![Miss { pos: p.1, rule: Rule::Eoi }]
            },
            None => Seq::empty(),
        };
        data_misses(s, 2) + comment_misses(s, d.1) + path_misses(s, c.1) + tail
    }
}

/// What parsing `s` gives: the packet it denotes, or the diagnosis of the
/// attempts that failed.
pub open spec fn parse_result(s: Seq<u8>) -> Result<PacketV, Diag> {
    match packet_at(s) {
        Some(p) => Ok(p),
        None => Err(diagnose(packet_misses(s))),
    }
}

/// A run of class `k` cannot pass a byte outside the class.
pub proof fn lemma_run_stops(s: Seq<u8>, i: int, e: int, k: CharClass)
    requires
        0 <= i <= e < s.len(),
        !in_class(s[e], k),
    ensures
        run_end(s, i, k) <= e,
    decreases e - i,
{
    if in_class(s[i], k) {
        lemma_run_stops(s, i + 1, e, k);
    }
}

/// Names and commas up to a closing bracket at `end` are read up to it.
proof fn lemma_names_reach(s: Seq<u8>, i: int, end: int)
    requires
        0 <= i <= end < s.len(),
        s[end] == 93,
        forall|j: int| i <= j < end ==> in_class(#[trigger] s[j], CharClass::NameChar) || s[j] == 44,
    ensures
        names_at(s, i).1 == end,
        names_at(s, i).0.len() >= 1,
    decreases end - i,
{
    lemma_run_stops(s, i, end, CharClass::NameChar);
    lemma_run_end(s, i, CharClass::NameChar);
    let e = run_end(s, i, CharClass::NameChar);
    if e < end {
        lemma_names_reach(s, e + 1, end);
    }
}

/// A repeat digit, a sequence letter and a bracketed list of node names and
/// commas make a packet with no data and no comment.
pub proof fn lemma_bare_packet(r: u8, q: u8, names: Seq<u8>)
    requires
        is_digit(r),
        is_lower(q),
        forall|j: int|
            0 <= j < names.len() ==> in_class(#[trigger] names[j], CharClass::NameChar) || names[j]
                == 44,
    ensures
        ({
            let s = seq![r, q, 91u8] + names + seq![93u8];
            &&& packet_at(s) is Some
            &&& packet_at(s).unwrap().repeat == r - 48
            &&& packet_at(s).unwrap().sequence == q as char
            &&& packet_at(s).unwrap().data.len() == 0
            &&& packet_at(s).unwrap().comment is None
            &&& packet_at(s).unwrap().path.len() >= 1
        }),
{
    let s = seq![r, q, 91u8] + names + seq![93u8];
    let end: int = 3int + names.len();
    assert(s[2] == 91);
    assert(s[end] == 93);
    assert forall|j: int| 3 <= j < end implies in_class(#[trigger] s[j], CharClass::NameChar) || s[j]
        == 44 by {
        assert(s[j] == names[j - 3]);
    }
    lemma_names_reach(s, 3, end);
}

// ---- rules read no further than one byte past where they end

/// `a` and `b` hold the same bytes below `n`.
pub open spec fn agree_below(a: Seq<u8>, b: Seq<u8>, n: int) -> bool {
    &&& n <= a.len()
    &&& n <= b.len()
    &&& forall|j: int| 0 <= j < n ==> a[j] == #[trigger] b[j]
}

proof fn lemma_frame_run(a: Seq<u8>, b: Seq<u8>, n: int, i: int, k: CharClass)
    requires
        agree_below(a, b, n),
        0 <= i,
        run_end(a, i, k) < n,
    ensures
        run_end(b, i, k) == run_end(a, i, k),
    decreases a.len() - i,
{
    lemma_run_end(a, i, k);
    assert(a[i] == b[i]);
    if 0 <= i < a.len() && in_class(a[i], k) {
        lemma_frame_run(a, b, n, i + 1, k);
    }
}

proof fn lemma_frame_subrange(a: Seq<u8>, b: Seq<u8>, n: int, i: int, j: int)
    requires
        agree_below(a, b, n),
        0 <= i <= j <= n,
    ensures
        a.subrange(i, j) == b.subrange(i, j),
{
    assert(a.subrange(i, j) =~= b.subrange(i, j));
}

proof fn lemma_frame_decimal(a: Seq<u8>, b: Seq<u8>, n: int, i: int)
    requires
        agree_below(a, b, n),
        0 <= i,
        after_decimal(a, i) < n,
        a[after_decimal(a, i)] != 46,
        a[after_decimal(a, i)] != 43,
        a[after_decimal(a, i)] != 45,
    ensures
        decimal_at(b, i) == decimal_at(a, i),
        after_decimal(b, i) == after_decimal(a, i),
{
    lemma_decimal_end(a, i);
    assert(a[i] == b[i]);
    let j = i + sign_len(a, i);
    lemma_run_end(a, j, CharClass::Digit);
    let d = run_end(a, j, CharClass::Digit);
    if d == j {
        lemma_frame_run(a, b, n, j, CharClass::Digit);
    } else {
        if has_fraction(a, d) {
            lemma_run_end(a, d + 1, CharClass::Digit);
        }
        assert(d <= after_decimal(a, i));
        lemma_frame_run(a, b, n, j, CharClass::Digit);
        assert(a[d] == b[d]);
        lemma_frame_subrange(a, b, n, j, d);
        if has_fraction(a, d) {
            assert(a[d + 1] == b[d + 1]);
            lemma_frame_run(a, b, n, d + 1, CharClass::Digit);
            lemma_frame_subrange(a, b, n, d + 1, run_end(a, d + 1, CharClass::Digit));
        }
    }
}

proof fn lemma_frame_readings(a: Seq<u8>, b: Seq<u8>, n: int, i: int)
    requires
        agree_below(a, b, n),
        0 <= i <= a.len(),
        readings_at(a, i).1 < n,
        stops_field(a[readings_at(a, i).1]),
    ensures
        readings_at(b, i) == readings_at(a, i),
    decreases a.len() - i,
{
    lemma_decimal_end(a, i);
    let p = after_decimal(a, i);
    if byte_at(a, p, 44) {
        lemma_readings_end(a, p + 1);
    }
    lemma_frame_decimal(a, b, n, i);
    assert(a[p] == b[p]);
    if byte_at(a, p, 44) {
        lemma_frame_readings(a, b, n, p + 1);
    }
}

/// A byte that ends a field: no digit, sign, point or comma.
pub open spec fn stops_field(c: u8) -> bool {
    !is_digit(c) && c != 43 && c != 45 && c != 46 && c != 44
}

/// No decimal starts at a byte that is neither a digit nor a sign.
pub proof fn lemma_no_decimal(s: Seq<u8>, i: int)
    requires
        0 <= i < s.len(),
        !is_digit(s[i]),
        s[i] != 43,
        s[i] != 45,
    ensures
        decimal_at(s, i) is None,
        after_decimal(s, i) == i,
{
    assert(run_end(s, i, CharClass::Digit) == i);
}

proof fn lemma_frame_field(a: Seq<u8>, b: Seq<u8>, n: int, i: int)
    requires
        agree_below(a, b, n),
        0 <= i <= a.len(),
        field_at(a, i) is Some,
        field_at(a, i).unwrap().1 < n,
        stops_field(a[field_at(a, i).unwrap().1]),
    ensures
        field_at(b, i) == field_at(a, i),
{
    lemma_field_end(a, i);
    let e = field_at(a, i).unwrap().1;
    assert(a[i] == b[i]);
    assert(a[i + 1] == b[i + 1]);
    let c = a[i];
    if reading_kind(c) is Some {
        lemma_frame_readings(a, b, n, i + 1);
    } else if c == 87 {
        assert(field_at(a, i) == Some(windspeed_at(a, i + 1)));
        lemma_decimal_end(a, i + 1);
        let d = after_decimal(a, i + 1);
        if byte_at(a, d, 44) {
            lemma_decimal_end(a, d + 1);
        }
        lemma_frame_decimal(a, b, n, i + 1);
        assert(a[d] == b[d]);
        if byte_at(a, d, 44) {
            lemma_frame_decimal(a, b, n, d + 1);
        }
    } else if c == 76 {
        assert(field_at(a, i) == Some(location_at(a, i + 1)));
        lemma_decimal_end(a, i + 1);
        let d = after_decimal(a, i + 1);
        if has_latlng(a, i + 1) {
            lemma_decimal_end(a, d + 1);
            let d2 = after_decimal(a, d + 1);
            if byte_at(a, d2, 44) {
                lemma_decimal_end(a, d2 + 1);
            }
            lemma_frame_decimal(a, b, n, i + 1);
            assert(a[d] == b[d]);
            lemma_frame_decimal(a, b, n, d + 1);
            assert(a[d2] == b[d2]);
            if byte_at(a, d2, 44) {
                lemma_frame_decimal(a, b, n, d2 + 1);
            }
        } else {
            if byte_at(a, i + 1, 44) {
                lemma_no_decimal(a, i + 1);
                lemma_no_decimal(b, i + 1);
                lemma_decimal_end(a, i + 2);
                lemma_frame_decimal(a, b, n, i + 2);
            } else {
                lemma_no_decimal(a, i + 1);
                lemma_no_decimal(b, i + 1);
            }
        }
    }
}

proof fn lemma_frame_data(a: Seq<u8>, b: Seq<u8>, n: int, i: int)
    requires
        agree_below(a, b, n),
        0 <= i <= a.len(),
        data_at(a, i).1 < n,
        a[data_at(a, i).1] == 58 || a[data_at(a, i).1] == 91,
    ensures
        data_at(b, i) == data_at(a, i),
    decreases a.len() - i,
{
    lemma_data_end(a, i);
    lemma_field_end(a, i);
    assert(a[i] == b[i]);
    if let Some(r) = field_at(a, i) {
        lemma_data_end(a, r.1);
        lemma_field_end(a, r.1);
        lemma_frame_field(a, b, n, i);
        lemma_frame_data(a, b, n, r.1);
    }
}

proof fn lemma_frame_names(a: Seq<u8>, b: Seq<u8>, n: int, i: int)
    requires
        agree_below(a, b, n),
        0 <= i <= a.len(),
        names_at(a, i).1 < n,
    ensures
        names_at(b, i) == names_at(a, i),
    decreases a.len() - i,
{
    lemma_run_end(a, i, CharClass::NameChar);
    let e = run_end(a, i, CharClass::NameChar);
    if byte_at(a, e, 44) {
        lemma_names_end(a, e + 1);
    }
    lemma_frame_run(a, b, n, i, CharClass::NameChar);
    lemma_frame_subrange(a, b, n, i, e);
    assert(a[e] == b[e]);
    if byte_at(a, e, 44) {
        lemma_frame_names(a, b, n, e + 1);
    }
}

/// Bytes after a whole packet never make a packet: the text of a packet
/// followed by anything more fails to parse.
pub proof fn lemma_trailing_bytes_fail(s: Seq<u8>, t: Seq<u8>)
    requires
        packet_at(s) is Some,
        t.len() > 0,
    ensures
        packet_at(s + t) is None,
{
    let b = s + t;
    let n = s.len() as int;
    assert(agree_below(s, b, n));
    lemma_data_end(s, 2);
    let p = data_at(s, 2).1;
    let c = comment_at(s, p);
    let q = c.1;
    if byte_at(s, p, 58) {
        lemma_run_end(s, p + 1, CharClass::CommentChar);
    }
    let r = names_at(s, q + 1);
    lemma_names_end(s, q + 1);
    lemma_frame_data(s, b, n, 2);
    assert(s[p] == b[p]);
    if byte_at(s, p, 58) {
        lemma_frame_run(s, b, n, p + 1, CharClass::CommentChar);
        lemma_frame_subrange(s, b, n, p + 1, q);
    }
    assert(s[q] == b[q]);
    lemma_frame_names(s, b, n, q + 1);
    assert(s[r.1] == b[r.1]);
    assert(s[0] == b[0] && s[1] == b[1]);
}

// ---- the case of node names

/// `b` is `a` with the case of some letters at `from` or later changed.
pub open spec fn same_but_case(a: Seq<u8>, b: Seq<u8>, from: int) -> bool {
    &&& a.len() == b.len()
    &&& forall|j: int|
        0 <= j < a.len() ==> (#[trigger] a[j] == b[j] || (from <= j && is_letter(a[j]) && is_letter(
            b[j],
        ) && upper_byte(a[j]) == upper_byte(b[j])))
}

/// Where the path of a packet starts.
pub open spec fn path_start(s: Seq<u8>) -> int {
    comment_at(s, data_at(s, 2).1).1
}

proof fn lemma_case_run(a: Seq<u8>, b: Seq<u8>, from: int, i: int)
    requires
        same_but_case(a, b, from),
    ensures
        run_end(b, i, CharClass::NameChar) == run_end(a, i, CharClass::NameChar),
    decreases a.len() - i,
{
    if 0 <= i < a.len() {
        assert(a[i] == b[i] || (is_letter(a[i]) && is_letter(b[i])));
        if in_class(a[i], CharClass::NameChar) {
            lemma_case_run(a, b, from, i + 1);
        }
    }
}

proof fn lemma_case_names(a: Seq<u8>, b: Seq<u8>, from: int, i: int)
    requires
        same_but_case(a, b, from),
        0 <= i <= a.len(),
    ensures
        names_at(b, i) == names_at(a, i),
    decreases a.len() - i,
{
    lemma_case_run(a, b, from, i);
    lemma_run_end(a, i, CharClass::NameChar);
    let e = run_end(a, i, CharClass::NameChar);
    assert(upper(a.subrange(i, e)) =~= upper(b.subrange(i, e))) by {
        assert forall|k: int| 0 <= k < e - i implies #[trigger] upper(a.subrange(i, e))[k] == upper(
            b.subrange(i, e),
        )[k] by {
            assert(a[i + k] == b[i + k] || upper_byte(a[i + k]) == upper_byte(b[i + k]));
        }
    }
    if e < a.len() {
        assert(a[e] == b[e] || (is_letter(a[e]) && is_letter(b[e])));
    }
    if byte_at(a, e, 44) {
        lemma_case_names(a, b, from, e + 1);
    }
}

/// Node names are read without regard to case: changing the case of letters
/// in the path of a packet gives the same packet.
pub proof fn lemma_path_case_insensitive(a: Seq<u8>, b: Seq<u8>)
    requires
        packet_at(a) is Some,
        same_but_case(a, b, path_start(a) + 1),
    ensures
        packet_at(b) == packet_at(a),
{
    let q = path_start(a);
    let n = q + 1;
    lemma_data_end(a, 2);
    let p = data_at(a, 2).1;
    if byte_at(a, p, 58) {
        lemma_run_end(a, p + 1, CharClass::CommentChar);
    }
    assert(agree_below(a, b, n)) by {
        assert forall|j: int| 0 <= j < n implies a[j] == #[trigger] b[j] by {
            assert(a[j] == b[j] || q + 1 <= j);
        }
    }
    lemma_frame_data(a, b, n, 2);
    assert(a[p] == b[p]);
    if byte_at(a, p, 58) {
        lemma_frame_run(a, b, n, p + 1, CharClass::CommentChar);
        lemma_frame_subrange(a, b, n, p + 1, q);
    }
    assert(a[q] == b[q]);
    lemma_names_end(a, q + 1);
    lemma_case_names(a, b, q + 1, q + 1);
    let r = names_at(a, q + 1).1;
    if r < a.len() {
        assert(a[r] == b[r] || (is_letter(a[r]) && is_letter(b[r])));
    }
    assert(a[0] == b[0] && a[1] == b[1]);
}

} // verus!
