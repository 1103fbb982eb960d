use ukhasnet_parser::{
    parse, parse_bytes, recognize, DataField, Decimal, Failures, Location, Packet, ParserError, Rule,
    Reading, Token, WindSpeed,
};

fn dec(text: &str) -> Decimal {
    let (negative, rest) = match text.strip_prefix('-') {
        Some(r) => (true, r),
        None => (false, text),
    };
    let (whole, fraction) = match rest.split_once('.') {
        Some((w, f)) => (w, f),
        None => (rest, ""),
    };
    Decimal { negative, whole: whole.as_bytes().to_vec(), fraction: fraction.as_bytes().to_vec() }
}

fn value(d: &Decimal) -> f32 {
    let mut text = String::new();
    if d.negative {
        text.push('-');
    }
    text.push_str(std::str::from_utf8(&d.whole).unwrap());
    if !d.fraction.is_empty() {
        text.push('.');
        text.push_str(std::str::from_utf8(&d.fraction).unwrap());
    }
    text.parse::<f32>().unwrap()
}

fn ok(text: &str) -> Packet {
    parse(&text.to_owned()).unwrap()
}

fn names(p: &Packet) -> Vec<&str> {
    p.path.iter().map(|s| s.as_str()).collect()
}

#[test]
fn bare_packet_has_no_data() {
    for (r, q, path) in [("0", "a", "A"), ("9", "z", "AB,C1"), ("5", "m", "x9,,Y")] {
        let p = ok(&format!("{}{}[{}]", r, q, path));
        assert_eq!(p.repeat, r.parse::<u8>().unwrap());
        assert_eq!(p.sequence, q.chars().next().unwrap());
        assert!(p.data.is_empty());
        assert_eq!(p.comment, None);
        assert!(!p.path.is_empty());
    }
}

#[test]
fn temperature_and_sun() {
    let p = ok("3bT21S80[AG,AH]");
    assert_eq!(p.repeat, 3);
    assert_eq!(p.sequence, 'b');
    assert_eq!(p.data, vec![DataField::Temperature(vec![dec("21")]), DataField::Sun(vec![dec("80")])]);
    match &p.data[0] {
        DataField::Temperature(v) => assert_eq!(value(&v[0]), 21.0),
        _ => panic!("not a temperature"),
    }
    assert_eq!(names(&p), vec!["AG", "AH"]);
    assert_eq!(p.comment, None);
}

#[test]
fn mixed_fields_with_comment() {
    let p = ok("2bT12.34,15H38W123Z1:test[AG]");
    assert_eq!(
        p.data,
        vec![
            DataField::Temperature(vec![dec("12.34"), dec("15")]),
            DataField::Humidity(vec![dec("38")]),
            DataField::WindSpeed(WindSpeed { speed: Some(dec("123")), bearing: None }),
            DataField::Zombie(1),
        ]
    );
    match &p.data[0] {
        DataField::Temperature(v) => {
            assert_eq!(value(&v[0]), 12.34);
            assert_eq!(value(&v[1]), 15.0);
        }
        _ => panic!("not a temperature"),
    }
    assert_eq!(p.comment, Some("test".to_owned()));
    assert_eq!(names(&p), vec!["AG"]);
}

#[test]
fn node_names_are_upper_cased() {
    let p = ok("1aL51.5,-1.2[ag]");
    assert_eq!(names(&p), vec!["AG"]);
    assert_eq!(
        p.data,
        vec![DataField::Location(Location { latlng: Some((dec("51.5"), dec("-1.2"))), alt: None })]
    );
    match &p.data[0] {
        DataField::Location(l) => assert_eq!(value(&l.latlng.as_ref().unwrap().1), -1.2),
        _ => panic!("not a location"),
    }
}

#[test]
fn malformed_sequence() {
    let e = parse(&"3!T12[A]".to_owned()).unwrap_err();
    assert_eq!(e.position, 1);
    assert_eq!(e.expected, vec!["sequence".to_owned()]);
}

#[test]
fn unterminated_path() {
    let e = parse(&"3bT21S80[AG,AH".to_owned()).unwrap_err();
    assert_eq!(e.position, 14);
    assert_eq!(e.expected, vec!["node_name_content".to_owned(), "path".to_owned()]);
}

#[test]
fn trailing_garbage_fails() {
    let e = parse(&"1aT1[A]XYZ".to_owned()).unwrap_err();
    assert_eq!(e.position, 7);
    assert_eq!(e.expected, vec!["eoi".to_owned()]);
}

#[test]
fn empty_input_expects_repeat() {
    let e = parse(&String::new()).unwrap_err();
    assert_eq!(e.position, 0);
    assert_eq!(e.expected, vec!["repeat".to_owned()]);
}

#[test]
fn missing_path_lists_every_alternative() {
    let e = parse(&"1a".to_owned()).unwrap_err();
    assert_eq!(e.position, 2);
    let want = [
        "voltage", "current", "temperature", "humidity", "pressure", "custom", "sun", "rssi",
        "windspeed", "location", "count", "zombie", "comment", "path",
    ];
    assert_eq!(e.expected, want.iter().map(|s| s.to_string()).collect::<Vec<_>>());
}

#[test]
fn point_without_digits() {
    let e = parse(&"1aT1.[A]".to_owned()).unwrap_err();
    assert_eq!(e.position, 5);
    assert_eq!(e.expected, vec!["decimal".to_owned()]);
}

#[test]
fn zombie_mode_out_of_range() {
    let e = parse(&"1aZ2[A]".to_owned()).unwrap_err();
    assert_eq!(e.position, 3);
    assert_eq!(e.expected, vec!["zombie".to_owned()]);
    assert_eq!(ok("1aZ0[A]").data, vec![DataField::Zombie(0)]);
}

#[test]
fn empty_readings_are_skipped() {
    let p = ok("1aT1,,2,V[A]");
    assert_eq!(
        p.data,
        vec![DataField::Temperature(vec![dec("1"), dec("2")]), DataField::Voltage(vec![])]
    );
}

#[test]
fn every_list_tag() {
    let p = ok("1aV1I2T3H4P5X6S7R8C9[A]");
    assert_eq!(
        p.data,
        vec![
            DataField::Voltage(vec![dec("1")]),
            DataField::Current(vec![dec("2")]),
            DataField::Temperature(vec![dec("3")]),
            DataField::Humidity(vec![dec("4")]),
            DataField::Pressure(vec![dec("5")]),
            DataField::Custom(vec![dec("6")]),
            DataField::Sun(vec![dec("7")]),
            DataField::Rssi(vec![dec("8")]),
            DataField::Count(vec![dec("9")]),
        ]
    );
}

#[test]
fn signs_are_read() {
    let p = ok("1aT+5,-0.25[A]");
    assert_eq!(p.data, vec![DataField::Temperature(vec![dec("5"), dec("-0.25")])]);
}

#[test]
fn windspeed_shapes() {
    let p = ok("1aW,5W7,8W[A]");
    assert_eq!(
        p.data,
        vec![
            DataField::WindSpeed(WindSpeed { speed: None, bearing: Some(dec("5")) }),
            DataField::WindSpeed(WindSpeed { speed: Some(dec("7")), bearing: Some(dec("8")) }),
            DataField::WindSpeed(WindSpeed { speed: None, bearing: None }),
        ]
    );
}

#[test]
fn location_shapes() {
    let p = ok("1aL,5L1,2,3LL,[A]");
    assert_eq!(
        p.data,
        vec![
            DataField::Location(Location { latlng: None, alt: Some(dec("5")) }),
            DataField::Location(Location { latlng: Some((dec("1"), dec("2"))), alt: Some(dec("3")) }),
            DataField::Location(Location { latlng: None, alt: None }),
            DataField::Location(Location { latlng: None, alt: None }),
        ]
    );
}

#[test]
fn location_with_two_leading_commas_fails() {
    let e = parse(&"1aL,,5[A]".to_owned()).unwrap_err();
    assert_eq!(e.position, 4);
    assert!(e.expected.contains(&"decimal".to_owned()));
}

#[test]
fn comment_takes_punctuation() {
    let p = ok("1a:hello, world! (42)[A]");
    assert_eq!(p.comment, Some("hello, world! (42)".to_owned()));
    let q = ok("1a:[A]");
    assert_eq!(q.comment, Some(String::new()));
}

#[test]
fn empty_node_names() {
    let p = ok("1a[,b]");
    assert_eq!(names(&p), vec!["", "B"]);
}

#[test]
fn bytes_and_text_agree() {
    let text = "4cP1013.2:x[N1,n2]";
    assert_eq!(parse_bytes(text.as_bytes()), parse(&text.to_owned()));
}

#[test]
fn non_ascii_fails_where_it_stands() {
    let e = parse(&"1a:é[A]".to_owned()).unwrap_err();
    assert_eq!(e.position, 3);
    assert_eq!(e.expected, vec!["comment_content".to_owned(), "path".to_owned()]);
}

fn decimal_text(d: &Decimal) -> String {
    let mut text = String::new();
    if d.negative {
        text.push('-');
    }
    text.push_str(std::str::from_utf8(&d.whole).unwrap());
    if !d.fraction.is_empty() {
        text.push('.');
        text.push_str(std::str::from_utf8(&d.fraction).unwrap());
    }
    text
}

fn list_text(v: &[Decimal]) -> String {
    v.iter().map(decimal_text).collect::<Vec<_>>().join(",")
}

fn packet_text(p: &Packet) -> String {
    let mut text = format!("{}{}", p.repeat, p.sequence);
    for f in &p.data {
        let part = match f {
            DataField::Voltage(v) => format!("V{}", list_text(v)),
            DataField::Current(v) => format!("I{}", list_text(v)),
            DataField::Temperature(v) => format!("T{}", list_text(v)),
            DataField::Humidity(v) => format!("H{}", list_text(v)),
            DataField::Pressure(v) => format!("P{}", list_text(v)),
            DataField::Custom(v) => format!("X{}", list_text(v)),
            DataField::Sun(v) => format!("S{}", list_text(v)),
            DataField::Rssi(v) => format!("R{}", list_text(v)),
            DataField::Count(v) => format!("C{}", list_text(v)),
            DataField::WindSpeed(w) => format!(
                "W{}{}",
                w.speed.as_ref().map(decimal_text).unwrap_or_default(),
                w.bearing.as_ref().map(|b| format!(",{}", decimal_text(b))).unwrap_or_default()
            ),
            DataField::Location(l) => format!(
                "L{}{}",
                l.latlng
                    .as_ref()
                    .map(|(a, b)| format!("{},{}", decimal_text(a), decimal_text(b)))
                    .unwrap_or_default(),
                l.alt.as_ref().map(|a| format!(",{}", decimal_text(a))).unwrap_or_default()
            ),
            DataField::Zombie(z) => format!("Z{}", z),
        };
        text.push_str(&part);
    }
    if let Some(c) = &p.comment {
        text.push(':');
        text.push_str(c);
    }
    text.push('[');
    text.push_str(&p.path.join(","));
    text.push(']');
    text
}

#[test]
fn reparse_gives_same_packet() {
    for input in [
        "3bT21S80[AG,AH]",
        "2bT12.34,15H38W123Z1:test[AG]",
        "1aL51.5,-1.2[ag]",
        "1aT+5,,-0.25,V,W,5L,7L1,2,3LL,Z0:a b,c[x1,,Y]",
        "0z[]",
    ] {
        let p = ok(input);
        let again = ok(&packet_text(&p));
        assert_eq!(again, p, "{}", input);
    }
}

#[test]
fn error_message_gives_position() {
    let e = parse(&"3bT21S80[AG,AH".to_owned()).unwrap_err();
    assert_eq!(e.message(), "Parser error at position 14");
    assert_eq!(e.description(), "Parser error");
    let first = parse(&"x".to_owned()).unwrap_err();
    assert_eq!(first.message(), "Parser error at position 0");
}

#[test]
fn failures_keep_the_furthest_position() {
    let mut f = Failures::new();
    f.record(3, Rule::Decimal);
    f.record(2, Rule::Path);
    f.record(3, Rule::Comment);
    f.record(3, Rule::Decimal);
    assert_eq!(f.position, 3);
    assert_eq!(f.expected, vec![Rule::Decimal, Rule::Comment]);
    f.record(5, Rule::Eoi);
    assert_eq!(f.position, 5);
    assert_eq!(f.expected, vec![Rule::Eoi]);
    let e = ParserError::from_parser(&f);
    assert_eq!(e, ParserError { position: 5, expected: vec!["eoi".to_owned()] });
}

#[test]
fn rule_names() {
    assert_eq!(Rule::NodeNameContent.name(), "node_name_content");
    assert_eq!(Rule::DecimalList.name(), "decimal_list");
    assert_eq!(Rule::Windspeed.name(), "windspeed");
}

fn spans(tokens: &[Token]) -> Vec<(&'static str, usize, usize)> {
    tokens.iter().map(|t| (t.rule.name(), t.start, t.end)).collect()
}

#[test]
fn token_tree_of_fields_and_path() {
    let tokens = recognize(b"3bT21S80[AG,AH]").unwrap();
    assert_eq!(
        spans(&tokens),
        vec![
            ("packet", 0, 15),
            ("repeat", 0, 1),
            ("sequence", 1, 2),
            ("data", 2, 8),
            ("data_field", 2, 5),
            ("temperature", 2, 5),
            ("decimal_list", 3, 5),
            ("decimal", 3, 5),
            ("data_field", 5, 8),
            ("sun", 5, 8),
            ("decimal_list", 6, 8),
            ("decimal", 6, 8),
            ("path", 8, 15),
            ("node_name", 9, 11),
            ("node_name_content", 9, 11),
            ("node_name", 12, 14),
            ("node_name_content", 12, 14),
        ]
    );
}

#[test]
fn token_tree_of_comment_location_and_wind() {
    let tokens = recognize(b"1aL1,2,3W,5Z0:hi[A]").unwrap();
    assert_eq!(
        spans(&tokens),
        vec![
            ("packet", 0, 19),
            ("repeat", 0, 1),
            ("sequence", 1, 2),
            ("data", 2, 13),
            ("data_field", 2, 8),
            ("location", 2, 8),
            ("decimal", 3, 4),
            ("decimal", 5, 6),
            ("decimal", 7, 8),
            ("data_field", 8, 11),
            ("windspeed", 8, 11),
            ("decimal", 10, 11),
            ("data_field", 11, 13),
            ("zombie", 11, 13),
            ("comment", 13, 16),
            ("comment_content", 14, 16),
            ("path", 16, 19),
            ("node_name", 17, 18),
            ("node_name_content", 17, 18),
        ]
    );
}

#[test]
fn location_without_pair_drops_its_tokens() {
    let tokens = recognize(b"1aL,5[A]").unwrap();
    assert_eq!(spans(&tokens)[4..7].to_vec(), vec![("data_field", 2, 5), ("location", 2, 5), ("decimal", 4, 5)]);
}

#[test]
fn recognize_fails_as_parse_does() {
    let e = recognize(b"3!T12[A]").unwrap_err();
    assert_eq!(e, parse(&"3!T12[A]".to_owned()).unwrap_err());
}

#[test]
fn node_name_case_does_not_matter() {
    let lower = ok("1aL51.5,-1.2[ag,x1]");
    assert_eq!(ok("1aL51.5,-1.2[AG,X1]"), lower);
    assert_eq!(ok("1aL51.5,-1.2[aG,x1]"), lower);
    assert_eq!(names(&lower), vec!["AG", "X1"]);
}

#[test]
fn trailing_bytes_after_any_packet_fail() {
    for good in ["3bT21S80[AG,AH]", "0z[]", "2bT12.34,15H38W123Z1:test[AG]"] {
        assert!(parse(&good.to_owned()).is_ok());
        for tail in ["]", "X", " ", "[A]", "1"] {
            let e = parse(&format!("{}{}", good, tail)).unwrap_err();
            assert_eq!(e.position, good.len());
        }
    }
}

#[test]
fn from_readings_picks_the_variant() {
    let v = vec![dec("1.5")];
    assert_eq!(DataField::from_readings(Reading::Pressure, v.clone()), DataField::Pressure(v.clone()));
    assert_eq!(DataField::from_readings(Reading::Count, v.clone()), DataField::Count(v));
}
