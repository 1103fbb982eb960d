//! The textual form of a packet, and the proof that parsing it gives the
//! packet back.
use vstd::prelude::*;
use crate::grammar::{
    CharClass, byte_at, in_class, is_digit, is_lower, is_upper, run_end, lemma_run_end,
    decimal_at, decimal_value, after_decimal, readings_at, windspeed_at, has_latlng, location_at,
    reading_kind, field_at, data_at, comment_at, chars_of, upper, upper_byte, node_name, names_at,
    packet_at, lemma_decimal_end, lemma_field_end, lemma_data_end,
    lemma_no_decimal,
};
use crate::packet::{DecimalV, Reading, FieldV, PacketV};

verus! {

// ---- what a well-formed packet is

pub open spec fn all_digits(b: Seq<u8>) -> bool {
    forall|j: int| 0 <= j < b.len() ==> is_digit(#[trigger] b[j])
}

pub open spec fn decimal_wf(d: DecimalV) -> bool {
    d.whole.len() > 0 && all_digits(d.whole) && all_digits(d.fraction)
}

pub open spec fn opt_decimal_wf(o: Option<DecimalV>) -> bool {
    match o {
        Some(d) => decimal_wf(d),
        None => true,
    }
}

pub open spec fn field_wf(f: FieldV) -> bool {
    match f {
        FieldV::Readings(_, ds) => forall|j: int| 0 <= j < ds.len() ==> decimal_wf(#[trigger] ds[j]),
        FieldV::WindSpeed(a, b) => opt_decimal_wf(a) && opt_decimal_wf(b),
        FieldV::Location(ll, alt) => opt_decimal_wf(alt) && match ll {
            Some(p) => decimal_wf(p.0) && decimal_wf(p.1),
            None => true,
        },
        FieldV::Zombie(z) => z <= 1,
    }
}

/// A character that a comment may hold.
pub open spec fn comment_char(c: char) -> bool {
    (c as u32) < 128 && in_class(c as u8, CharClass::CommentChar)
}

/// A character of a node name as reported: an upper-case letter or a digit.
pub open spec fn name_char(c: char) -> bool {
    (c as u32) < 128 && (is_upper(c as u8) || is_digit(c as u8))
}

pub open spec fn packet_wf(p: PacketV) -> bool {
    &&& p.repeat <= 9
    &&& (p.sequence as u32) < 128 && is_lower(p.sequence as u8)
    &&& forall|j: int| 0 <= j < p.data.len() ==> field_wf(#[trigger] p.data[j])
    &&& match p.comment {
        Some(c) => forall|j: int| 0 <= j < c.len() ==> comment_char(#[trigger] c[j]),
        None => true,
    }
    &&& p.path.len() >= 1
    &&& forall|j: int, k: int|
        0 <= j < p.path.len() && 0 <= k < p.path[j].len() ==> name_char(#[trigger] p.path[j][k])
}

// ---- the text of each part

/// The bytes of ASCII characters.
pub open spec fn bytes_of(c: Seq<char>) -> Seq<u8> {
    c.map_values(|x: char| x as u8)
}

pub open spec fn decimal_text(d: DecimalV) -> Seq<u8> {
    let sign: Seq<u8> = if d.negative {
        seq![45u8]
    } else {
        Seq::empty()
    };
    let fraction: Seq<u8> = if d.fraction.len() > 0 {
        seq![46u8] + d.fraction
    } else {
        Seq::empty()
    };
    sign + d.whole + fraction
}

pub open spec fn opt_decimal_text(o: Option<DecimalV>) -> Seq<u8> {
    match o {
        Some(d) => decimal_text(d),
        None => Seq::empty(),
    }
}

/// A comma and the decimal, if there is one.
pub open spec fn comma_decimal_text(o: Option<DecimalV>) -> Seq<u8> {
    match o {
        Some(d) => seq![44u8] + decimal_text(d),
        None => Seq::empty(),
    }
}

/// The readings separated by commas.
pub open spec fn list_text(ds: Seq<DecimalV>) -> Seq<u8>
    decreases ds.len(),
{
    if ds.len() == 0 {
        Seq::empty()
    } else if ds.len() == 1 {
        decimal_text(ds[0])
    } else {
        decimal_text(ds[0]) + seq![44u8] + list_text(ds.drop_first())
    }
}

pub open spec fn reading_tag(k: Reading) -> u8 {
    match k {
        Reading::Voltage => 86,
        Reading::Current => 73,
        Reading::Temperature => 84,
        Reading::Humidity => 72,
        Reading::Pressure => 80,
        Reading::Custom => 88,
        Reading::Sun => 83,
        Reading::Rssi => 82,
        Reading::Count => 67,
    }
}

pub open spec fn latlng_text(ll: Option<(DecimalV, DecimalV)>) -> Seq<u8> {
    match ll {
        Some(p) => decimal_text(p.0) + seq![44u8] + decimal_text(p.1),
        None => Seq::empty(),
    }
}

pub open spec fn field_text(f: FieldV) -> Seq<u8> {
    match f {
        FieldV::Readings(k, ds) => seq![reading_tag(k)] + list_text(ds),
        FieldV::WindSpeed(a, b) => seq![87u8] + opt_decimal_text(a) + comma_decimal_text(b),
        FieldV::Location(ll, alt) => seq![76u8] + latlng_text(ll) + comma_decimal_text(alt),
        FieldV::Zombie(z) => seq![90u8, (48 + z) as u8],
    }
}

pub open spec fn data_text(fs: Seq<FieldV>) -> Seq<u8>
    decreases fs.len(),
{
    if fs.len() == 0 {
        Seq::empty()
    } else {
        field_text(fs[0]) + data_text(fs.drop_first())
    }
}

pub open spec fn comment_text(c: Option<Seq<char>>) -> Seq<u8> {
    match c {
        Some(t) => seq![58u8] + bytes_of(t),
        None => Seq::empty(),
    }
}

/// The node names separated by commas.
pub open spec fn names_text(ns: Seq<Seq<char>>) -> Seq<u8>
    decreases ns.len(),
{
    if ns.len() == 0 {
        Seq::empty()
    } else if ns.len() == 1 {
        bytes_of(ns[0])
    } else {
        bytes_of(ns[0]) + seq![44u8] + names_text(ns.drop_first())
    }
}

/// The text of a packet: each field with its tag, the comment after a colon,
/// the path in square brackets.
pub open spec fn packet_text(p: PacketV) -> Seq<u8> {
    seq![(48 + p.repeat) as u8, p.sequence as u8] + data_text(p.data) + comment_text(p.comment)
        + seq![91u8] + names_text(p.path) + seq![93u8]
}

// ---- parsing a text gives back what it was made from

/// `t` stands in `s` from offset `i` on.
pub open spec fn holds_at(s: Seq<u8>, i: int, t: Seq<u8>) -> bool {
    &&& 0 <= i
    &&& i + t.len() <= s.len()
    &&& forall|j: int| 0 <= j < t.len() ==> s[i + j] == #[trigger] t[j]
}

proof fn lemma_holds_split(s: Seq<u8>, i: int, a: Seq<u8>, b: Seq<u8>)
    requires
        holds_at(s, i, a + b),
    ensures
        holds_at(s, i, a),
        holds_at(s, i + a.len(), b),
{
    assert forall|j: int| 0 <= j < a.len() implies s[i + j] == #[trigger] a[j] by {
        assert((a + b)[j] == a[j]);
    }
    assert forall|j: int| 0 <= j < b.len() implies s[i + a.len() + j] == #[trigger] b[j] by {
        assert((a + b)[a.len() + j] == b[j]);
    }
}

proof fn lemma_holds_subrange(s: Seq<u8>, i: int, t: Seq<u8>)
    requires
        holds_at(s, i, t),
    ensures
        s.subrange(i, i + t.len()) == t,
{
    assert(s.subrange(i, i + t.len()) =~= t);
}

proof fn lemma_holds_class(s: Seq<u8>, i: int, t: Seq<u8>, k: CharClass)
    requires
        holds_at(s, i, t),
        forall|j: int| 0 <= j < t.len() ==> in_class(#[trigger] t[j], k),
    ensures
        forall|m: int| i <= m < i + t.len() ==> in_class(#[trigger] s[m], k),
{
    assert forall|m: int| i <= m < i + t.len() implies in_class(#[trigger] s[m], k) by {
        assert(s[i + (m - i)] == t[m - i]);
    }
}

/// A run of class `k` from `i` that stops at `e` ends there.
proof fn lemma_run_exact(s: Seq<u8>, i: int, e: int, k: CharClass)
    requires
        0 <= i <= e <= s.len(),
        forall|j: int| i <= j < e ==> in_class(#[trigger] s[j], k),
        e == s.len() || !in_class(s[e], k),
    ensures
        run_end(s, i, k) == e,
    decreases e - i,
{
    if i < e {
        lemma_run_exact(s, i + 1, e, k);
    }
}

/// Nothing at `k` continues a number.
pub open spec fn ends_decimal(s: Seq<u8>, k: int) -> bool {
    k == s.len() || (0 <= k < s.len() && !is_digit(s[k]) && s[k] != 46)
}

/// Nothing at `k` continues a field: no digit, sign, point or comma.
pub open spec fn ends_field(s: Seq<u8>, k: int) -> bool {
    0 <= k < s.len() && !is_digit(s[k]) && s[k] != 43 && s[k] != 45 && s[k] != 46 && s[k] != 44
}

proof fn lemma_decimal_text(s: Seq<u8>, i: int, d: DecimalV)
    requires
        decimal_wf(d),
        holds_at(s, i, decimal_text(d)),
        ends_decimal(s, i + decimal_text(d).len()),
    ensures
        decimal_at(s, i) == Some((d, i + decimal_text(d).len())),
        decimal_value(s, i) == Some(d),
        after_decimal(s, i) == i + decimal_text(d).len(),
{
    let sign: Seq<u8> = if d.negative {
        seq![45u8]
    } else {
        Seq::empty()
    };
    let fraction: Seq<u8> = if d.fraction.len() > 0 {
        seq![46u8] + d.fraction
    } else {
        Seq::empty()
    };
    lemma_holds_split(s, i, sign + d.whole, fraction);
    lemma_holds_split(s, i, sign, d.whole);
    let j = i + sign.len();
    let de = j + d.whole.len();
    assert(s[j + 0] == d.whole[0]);
    if d.negative {
        assert(s[i + 0] == sign[0]);
    }
    if d.fraction.len() > 0 {
        lemma_holds_split(s, de, seq![46u8], d.fraction);
        assert(s[de + 0] == seq![46u8][0]);
        assert(s[de + 1 + 0] == d.fraction[0]);
    } else {
        assert(d.fraction =~= Seq::<u8>::empty());
        assert(decimal_text(d).len() == sign.len() + d.whole.len());
    }
    lemma_holds_class(s, j, d.whole, CharClass::Digit);
    lemma_run_exact(s, j, de, CharClass::Digit);
    lemma_holds_subrange(s, j, d.whole);
    if d.fraction.len() > 0 {
        lemma_holds_class(s, de + 1, d.fraction, CharClass::Digit);
        lemma_run_exact(s, de + 1, de + 1 + d.fraction.len(), CharClass::Digit);
        lemma_holds_subrange(s, de + 1, d.fraction);
    }
}

proof fn lemma_readings_text(s: Seq<u8>, i: int, ds: Seq<DecimalV>)
    requires
        forall|j: int| 0 <= j < ds.len() ==> decimal_wf(#[trigger] ds[j]),
        holds_at(s, i, list_text(ds)),
        ends_field(s, i + list_text(ds).len()),
    ensures
        readings_at(s, i) == (ds, i + list_text(ds).len()),
    decreases ds.len(),
{
    if ds.len() == 0 {
        lemma_no_decimal(s, i);
        assert(readings_at(s, i).0 =~= ds);
    } else if ds.len() == 1 {
        lemma_decimal_text(s, i, ds[0]);
        assert(readings_at(s, i).0 =~= ds);
    } else {
        let d0 = ds[0];
        let rest = ds.drop_first();
        lemma_holds_split(s, i, decimal_text(d0) + seq![44u8], list_text(rest));
        lemma_holds_split(s, i, decimal_text(d0), seq![44u8]);
        let p = i + decimal_text(d0).len();
        assert(s[p + 0] == seq![44u8][0]);
        lemma_decimal_text(s, i, d0);
        lemma_readings_text(s, p + 1, rest);
        assert(readings_at(s, i).0 =~= ds);
    }
}

/// An optional decimal, then an optional comma and decimal, ending at `e`.
proof fn lemma_pair_text(s: Seq<u8>, i: int, a: Option<DecimalV>, b: Option<DecimalV>)
    requires
        opt_decimal_wf(a),
        opt_decimal_wf(b),
        holds_at(s, i, opt_decimal_text(a) + comma_decimal_text(b)),
        ends_field(s, i + opt_decimal_text(a).len() + comma_decimal_text(b).len()),
    ensures
        decimal_value(s, i) == a,
        after_decimal(s, i) == i + opt_decimal_text(a).len(),
        byte_at(s, after_decimal(s, i), 44) == (b is Some),
        b is Some ==> decimal_value(s, after_decimal(s, i) + 1) == b && after_decimal(
            s,
            after_decimal(s, i) + 1,
        ) == i + opt_decimal_text(a).len() + comma_decimal_text(b).len(),
{
    lemma_holds_split(s, i, opt_decimal_text(a), comma_decimal_text(b));
    let p = i + opt_decimal_text(a).len();
    if let Some(x) = b {
        lemma_holds_split(s, p, seq![44u8], decimal_text(x));
        assert(s[p + 0] == seq![44u8][0]);
        lemma_decimal_text(s, p + 1, x);
    } else {
        assert(comma_decimal_text(b).len() == 0);
    }
    match a {
        Some(x) => {
            lemma_decimal_text(s, i, x);
        },
        None => {
            lemma_no_decimal(s, i);
        },
    }
}

proof fn lemma_windspeed_text(s: Seq<u8>, i: int, a: Option<DecimalV>, b: Option<DecimalV>)
    requires
        opt_decimal_wf(a),
        opt_decimal_wf(b),
        holds_at(s, i, opt_decimal_text(a) + comma_decimal_text(b)),
        ends_field(s, i + opt_decimal_text(a).len() + comma_decimal_text(b).len()),
    ensures
        windspeed_at(s, i) == (
        FieldV::WindSpeed(a, b),
        i + opt_decimal_text(a).len() + comma_decimal_text(b).len(),
        ),
{
    lemma_pair_text(s, i, a, b);
}

proof fn lemma_location_text(
    s: Seq<u8>,
    i: int,
    ll: Option<(DecimalV, DecimalV)>,
    alt: Option<DecimalV>,
)
    requires
        opt_decimal_wf(alt),
        match ll {
            Some(p) => decimal_wf(p.0) && decimal_wf(p.1),
            None => true,
        },
        holds_at(s, i, latlng_text(ll) + comma_decimal_text(alt)),
        ends_field(s, i + latlng_text(ll).len() + comma_decimal_text(alt).len()),
    ensures
        location_at(s, i) == (
        FieldV::Location(ll, alt),
        i + latlng_text(ll).len() + comma_decimal_text(alt).len(),
        ),
{
    lemma_holds_split(s, i, latlng_text(ll), comma_decimal_text(alt));
    let p = i + latlng_text(ll).len();
    match ll {
        Some(pair) => {
            let (a, b) = pair;
            lemma_holds_split(s, i, decimal_text(a) + seq![44u8], decimal_text(b));
            lemma_holds_split(s, i, decimal_text(a), seq![44u8]);
            let d = i + decimal_text(a).len();
            assert(s[d + 0] == seq![44u8][0]);
            lemma_decimal_text(s, i, a);
            lemma_holds_split(s, d + 1, decimal_text(b), comma_decimal_text(alt));
            lemma_pair_text(s, d + 1, Some(b), alt);
            assert(has_latlng(s, i));
        },
        None => {
            lemma_pair_text(s, i, None, alt);
            assert(!has_latlng(s, i));
        },
    }
}

proof fn lemma_field_text(s: Seq<u8>, i: int, f: FieldV)
    requires
        field_wf(f),
        holds_at(s, i, field_text(f)),
        ends_field(s, i + field_text(f).len()),
    ensures
        field_at(s, i) == Some((f, i + field_text(f).len())),
{
    let ft = field_text(f);
    assert(s[i + 0] == ft[0]);
    match f {
        FieldV::Readings(k, ds) => {
            lemma_holds_split(s, i, seq![reading_tag(k)], list_text(ds));
            lemma_readings_text(s, i + 1, ds);
        },
        FieldV::WindSpeed(a, b) => {
            assert(ft =~= seq![87u8] + (opt_decimal_text(a) + comma_decimal_text(b)));
            lemma_holds_split(s, i, seq![87u8], opt_decimal_text(a) + comma_decimal_text(b));
            lemma_windspeed_text(s, i + 1, a, b);
        },
        FieldV::Location(ll, alt) => {
            assert(ft =~= seq![76u8] + (latlng_text(ll) + comma_decimal_text(alt)));
            lemma_holds_split(s, i, seq![76u8], latlng_text(ll) + comma_decimal_text(alt));
            lemma_location_text(s, i + 1, ll, alt);
        },
        FieldV::Zombie(z) => {
            assert(s[i + 1] == ft[1]);
        },
    }
}

/// A field's text starts with its tag, which cannot continue a field before it.
proof fn lemma_field_text_first(f: FieldV)
    ensures
        field_text(f).len() >= 1,
        !is_digit(field_text(f)[0]),
        field_text(f)[0] != 43 && field_text(f)[0] != 45,
        field_text(f)[0] != 46 && field_text(f)[0] != 44,
{
}

proof fn lemma_data_text(s: Seq<u8>, i: int, fs: Seq<FieldV>)
    requires
        forall|j: int| 0 <= j < fs.len() ==> field_wf(#[trigger] fs[j]),
        holds_at(s, i, data_text(fs)),
        i + data_text(fs).len() < s.len(),
        s[i + data_text(fs).len()] == 58 || s[i + data_text(fs).len()] == 91,
    ensures
        data_at(s, i) == (fs, i + data_text(fs).len()),
    decreases fs.len(),
{
    if fs.len() == 0 {
        assert(data_at(s, i).0 =~= fs);
    } else {
        let f0 = fs[0];
        let rest = fs.drop_first();
        lemma_holds_split(s, i, field_text(f0), data_text(rest));
        let e = i + field_text(f0).len();
        if rest.len() > 0 {
            lemma_field_text_first(rest[0]);
            assert(data_text(rest)[0] == field_text(rest[0])[0]);
            assert(s[e + 0] == data_text(rest)[0]);
        }
        assert(field_wf(fs[0]));
        lemma_field_text(s, i, f0);
        assert forall|j: int| 0 <= j < rest.len() implies field_wf(#[trigger] rest[j]) by {
            assert(rest[j] == fs[j + 1]);
        }
        lemma_data_text(s, e, rest);
        assert(data_at(s, i).0 =~= fs);
    }
}

proof fn lemma_comment_text(s: Seq<u8>, i: int, c: Option<Seq<char>>)
    requires
        match c {
            Some(t) => forall|j: int| 0 <= j < t.len() ==> comment_char(#[trigger] t[j]),
            None => true,
        },
        holds_at(s, i, comment_text(c)),
        i + comment_text(c).len() < s.len(),
        s[i + comment_text(c).len()] == 91,
    ensures
        comment_at(s, i) == (c, i + comment_text(c).len()),
{
    if let Some(t) = c {
        let b = bytes_of(t);
        lemma_holds_split(s, i, seq![58u8], b);
        assert(s[i + 0] == seq![58u8][0]);
        assert forall|j: int| 0 <= j < b.len() implies in_class(
            #[trigger] b[j],
            CharClass::CommentChar,
        ) by {
            assert(comment_char(t[j]));
        }
        lemma_holds_class(s, i + 1, b, CharClass::CommentChar);
        lemma_run_exact(s, i + 1, i + 1 + b.len(), CharClass::CommentChar);
        lemma_holds_subrange(s, i + 1, b);
        assert forall|j: int| 0 <= j < t.len() implies #[trigger] chars_of(b)[j] == t[j] by {
            assert(comment_char(t[j]));
            assert(b[j] == t[j] as u8);
            assert(chars_of(b)[j] == b[j] as char);
            lemma_ascii_char(t[j]);
        }
        assert(chars_of(b) =~= t);
    }
}

proof fn lemma_ascii_char(c: char)
    requires
        (c as u32) < 128,
    ensures
        ((c as u8) as char) == c,
{
}

/// A node name of upper-case letters and digits is its own report.
proof fn lemma_name_bytes(n: Seq<char>)
    requires
        forall|k: int| 0 <= k < n.len() ==> name_char(#[trigger] n[k]),
    ensures
        node_name(bytes_of(n)) == n,
        forall|k: int| 0 <= k < n.len() ==> in_class(#[trigger] bytes_of(n)[k], CharClass::NameChar),
{
    let b = bytes_of(n);
    assert forall|k: int| 0 <= k < n.len() implies #[trigger] node_name(b)[k] == n[k] by {
        assert(name_char(n[k]));
        assert(b[k] == n[k] as u8);
        assert(upper(b)[k] == upper_byte(b[k]));
        assert(upper_byte(b[k]) == b[k]);
        assert(node_name(b)[k] == upper(b)[k] as char);
        lemma_ascii_char(n[k]);
    }
    assert(node_name(b) =~= n);
    assert forall|k: int| 0 <= k < n.len() implies in_class(#[trigger] b[k], CharClass::NameChar) by {
        assert(name_char(n[k]));
    }
}

proof fn lemma_names_text(s: Seq<u8>, i: int, ns: Seq<Seq<char>>)
    requires
        ns.len() >= 1,
        forall|j: int, k: int| 0 <= j < ns.len() && 0 <= k < ns[j].len() ==> name_char(#[trigger] ns[j][k]),
        holds_at(s, i, names_text(ns)),
        i + names_text(ns).len() < s.len(),
        s[i + names_text(ns).len()] == 93,
    ensures
        names_at(s, i) == (ns, i + names_text(ns).len()),
    decreases ns.len(),
{
    let n0 = ns[0];
    let b0 = bytes_of(n0);
    assert forall|k: int| 0 <= k < n0.len() implies name_char(#[trigger] n0[k]) by {
        assert(name_char(ns[0][k]));
    }
    lemma_name_bytes(n0);
    let e = i + b0.len();
    if ns.len() == 1 {
        lemma_holds_class(s, i, b0, CharClass::NameChar);
        lemma_run_exact(s, i, e, CharClass::NameChar);
        lemma_holds_subrange(s, i, b0);
        assert(names_at(s, i).0 =~= ns);
    } else {
        let rest = ns.drop_first();
        lemma_holds_split(s, i, b0 + seq![44u8], names_text(rest));
        lemma_holds_split(s, i, b0, seq![44u8]);
        assert(s[e + 0] == seq![44u8][0]);
        lemma_holds_class(s, i, b0, CharClass::NameChar);
        lemma_run_exact(s, i, e, CharClass::NameChar);
        lemma_holds_subrange(s, i, b0);
        assert forall|j: int, k: int| 0 <= j < rest.len() && 0 <= k < rest[j].len() implies name_char(
            #[trigger] rest[j][k],
        ) by {
            assert(rest[j] == ns[j + 1]);
        }
        lemma_names_text(s, e + 1, rest);
        assert(names_at(s, i).0 =~= ns);
    }
}

/// The text of a well-formed packet parses to that packet.
pub proof fn lemma_packet_text(p: PacketV)
    requires
        packet_wf(p),
    ensures
        packet_at(packet_text(p)) == Some(p),
{
    let s = packet_text(p);
    let head = seq![(48 + p.repeat) as u8, p.sequence as u8];
    let dt = data_text(p.data);
    let ct = comment_text(p.comment);
    let nt = names_text(p.path);
    assert(holds_at(s, 0, s));
    lemma_holds_split(s, 0, head + dt + ct + seq![91u8] + nt, seq![93u8]);
    lemma_holds_split(s, 0, head + dt + ct + seq![91u8], nt);
    lemma_holds_split(s, 0, head + dt + ct, seq![91u8]);
    lemma_holds_split(s, 0, head + dt, ct);
    lemma_holds_split(s, 0, head, dt);
    let data_end: int = 2int + dt.len();
    let path_pos: int = data_end + ct.len();
    let k: int = path_pos + 1 + nt.len();
    assert(s[0int + 0] == head[0]);
    assert(s[0int + 1] == head[1]);
    assert(s[path_pos + 0] == seq![91u8][0]);
    assert(s[k + 0] == seq![93u8][0]);
    if ct.len() > 0 {
        assert(s[data_end + 0] == ct[0]);
    }
    lemma_data_text(s, 2, p.data);
    lemma_comment_text(s, data_end, p.comment);
    lemma_names_text(s, path_pos + 1, p.path);
}

// ---- what a parse gives is well formed

proof fn lemma_decimal_wf(s: Seq<u8>, i: int)
    requires
        0 <= i <= s.len(),
        decimal_at(s, i) is Some,
    ensures
        decimal_wf(decimal_at(s, i).unwrap().0),
{
    let j = i + crate::grammar::sign_len(s, i);
    lemma_run_end(s, j, CharClass::Digit);
    let d = run_end(s, j, CharClass::Digit);
    let v = decimal_at(s, i).unwrap().0;
    assert forall|m: int| 0 <= m < v.whole.len() implies is_digit(#[trigger] v.whole[m]) by {
        assert(v.whole[m] == s[j + m]);
    }
    if crate::grammar::has_fraction(s, d) {
        lemma_run_end(s, d + 1, CharClass::Digit);
        assert forall|m: int| 0 <= m < v.fraction.len() implies is_digit(#[trigger] v.fraction[m]) by {
            assert(v.fraction[m] == s[d + 1 + m]);
        }
    }
}

proof fn lemma_opt_decimal_wf(s: Seq<u8>, i: int)
    requires
        0 <= i <= s.len(),
    ensures
        opt_decimal_wf(decimal_value(s, i)),
        i <= after_decimal(s, i) <= s.len(),
{
    lemma_decimal_end(s, i);
    if decimal_at(s, i) is Some {
        lemma_decimal_wf(s, i);
    }
}

proof fn lemma_readings_wf(s: Seq<u8>, i: int)
    requires
        0 <= i <= s.len(),
    ensures
        forall|j: int|
            0 <= j < readings_at(s, i).0.len() ==> decimal_wf(#[trigger] readings_at(s, i).0[j]),
    decreases s.len() - i,
{
    lemma_opt_decimal_wf(s, i);
    let p = after_decimal(s, i);
    let ds = readings_at(s, i).0;
    let head: Seq<DecimalV> = match decimal_value(s, i) {
        Some(v) => seq![v],
        None => Seq::empty(),
    };
    if byte_at(s, p, 44) {
        lemma_readings_wf(s, p + 1);
        let rest = readings_at(s, p + 1).0;
        assert(ds == head + rest);
        assert forall|j: int| 0 <= j < ds.len() implies decimal_wf(#[trigger] ds[j]) by {
            if j >= head.len() {
                assert(ds[j] == rest[j - head.len()]);
            }
        }
    }
}

proof fn lemma_field_wf(s: Seq<u8>, i: int)
    requires
        0 <= i <= s.len(),
        field_at(s, i) is Some,
    ensures
        field_wf(field_at(s, i).unwrap().0),
{
    let c = s[i];
    if reading_kind(c) is Some {
        lemma_readings_wf(s, i + 1);
    } else {
        lemma_opt_decimal_wf(s, i + 1);
        let d = after_decimal(s, i + 1);
        if byte_at(s, d, 44) {
            lemma_opt_decimal_wf(s, d + 1);
            let d2 = after_decimal(s, d + 1);
            if byte_at(s, d2, 44) {
                lemma_opt_decimal_wf(s, d2 + 1);
            }
        }
    }
}

proof fn lemma_data_wf(s: Seq<u8>, i: int)
    requires
        0 <= i <= s.len(),
    ensures
        forall|j: int| 0 <= j < data_at(s, i).0.len() ==> field_wf(#[trigger] data_at(s, i).0[j]),
    decreases s.len() - i,
{
    lemma_field_end(s, i);
    if let Some(r) = field_at(s, i) {
        lemma_field_wf(s, i);
        lemma_data_wf(s, r.1);
        let fs = data_at(s, i).0;
        assert forall|j: int| 0 <= j < fs.len() implies field_wf(#[trigger] fs[j]) by {
            if j > 0 {
                assert(fs[j] == data_at(s, r.1).0[j - 1]);
            }
        }
    }
}

proof fn lemma_names_wf(s: Seq<u8>, i: int)
    requires
        0 <= i <= s.len(),
    ensures
        names_at(s, i).0.len() >= 1,
        forall|j: int, k: int|
            0 <= j < names_at(s, i).0.len() && 0 <= k < names_at(s, i).0[j].len() ==> name_char(
                #[trigger] names_at(s, i).0[j][k],
            ),
    decreases s.len() - i,
{
    lemma_run_end(s, i, CharClass::NameChar);
    let e = run_end(s, i, CharClass::NameChar);
    let sub = s.subrange(i, e);
    let name = node_name(sub);
    assert forall|k: int| 0 <= k < name.len() implies name_char(#[trigger] name[k]) by {
        assert(in_class(s[i + k], CharClass::NameChar));
        assert(sub[k] == s[i + k]);
        assert(upper(sub)[k] == upper_byte(sub[k]));
        assert(name[k] == upper(sub)[k] as char);
    }
    if byte_at(s, e, 44) {
        lemma_names_wf(s, e + 1);
        let ns = names_at(s, i).0;
        assert forall|j: int, k: int| 0 <= j < ns.len() && 0 <= k < ns[j].len() implies name_char(
            #[trigger] ns[j][k],
        ) by {
            if j > 0 {
                assert(ns[j] == names_at(s, e + 1).0[j - 1]);
            }
        }
    }
}

/// Every packet that a parse gives is well formed.
pub proof fn lemma_parsed_wf(s: Seq<u8>)
    requires
        packet_at(s) is Some,
    ensures
        packet_wf(packet_at(s).unwrap()),
{
    lemma_data_end(s, 2);
    lemma_data_wf(s, 2);
    let p = data_at(s, 2).1;
    if byte_at(s, p, 58) {
        lemma_run_end(s, p + 1, CharClass::CommentChar);
        let e = run_end(s, p + 1, CharClass::CommentChar);
        let t = chars_of(s.subrange(p + 1, e));
        assert forall|j: int| 0 <= j < t.len() implies comment_char(#[trigger] t[j]) by {
            assert(in_class(s[p + 1 + j], CharClass::CommentChar));
            assert(t[j] == s[p + 1 + j] as char);
        }
    }
    let q = comment_at(s, p).1;
    lemma_names_wf(s, q + 1);
}

/// Node names come out in upper case: each character of a parsed path is an
/// upper-case letter or a digit.
pub proof fn lemma_names_upper(s: Seq<u8>)
    requires
        packet_at(s) is Some,
    ensures
        forall|j: int, k: int|
            0 <= j < packet_at(s).unwrap().path.len() && 0 <= k < packet_at(s).unwrap().path[j].len()
                ==> name_char(#[trigger] packet_at(s).unwrap().path[j][k]),
{
    lemma_parsed_wf(s);
}

/// Re-parsing the text of a parsed packet gives the same packet.
pub proof fn lemma_reparse(s: Seq<u8>)
    requires
        packet_at(s) is Some,
    ensures
        packet_at(packet_text(packet_at(s).unwrap())) == packet_at(s),
{
    lemma_parsed_wf(s);
    lemma_packet_text(packet_at(s).unwrap());
}

} // verus!
