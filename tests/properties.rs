use influx_codec::number::{parse_i64, parse_u64_range};
use influx_codec::scanner::{parse_to_char, parse_to_char2, parse_to_char3, Cursor};
use influx_codec::serializer::{escape, process_string};
use influx_codec::tnt::{Config, ConfigError, Tnt};
use influx_codec::{
    parse, DecodeError, EncodeError, FieldValue, FloatLiteral, Influx, InfluxDatapoint, Malformation,
    NonScalarKind,
};

fn lit(s: &str) -> FieldValue {
    FieldValue::Float(FloatLiteral::parse(s).expect("a float literal"))
}

fn point(
    measurement: &str,
    tags: &[(&str, &str)],
    fields: Vec<(&str, FieldValue)>,
    timestamp: u64,
) -> InfluxDatapoint {
    let mut tag_map = halfbrown::HashMap::new();
    for (k, v) in tags {
        tag_map.insert(k.to_string(), v.to_string());
    }
    let mut field_map = halfbrown::HashMap::new();
    for (k, v) in fields {
        field_map.insert(k.to_string(), v);
    }
    InfluxDatapoint {
        measurement: measurement.to_string(),
        tags: tag_map,
        fields: field_map,
        timestamp,
    }
}

fn malformed(m: Malformation) -> Result<InfluxDatapoint, DecodeError> {
    Err(DecodeError::Malformed(m))
}

fn decode(s: &str) -> Result<InfluxDatapoint, DecodeError> {
    Influx {}.decode(s.as_bytes().to_vec())
}

fn encode_text(p: &InfluxDatapoint) -> String {
    String::from_utf8(Influx {}.encode(p).expect("encodes")).expect("utf8")
}

#[test]
fn scenario_one_tag() {
    let r = point("weather", &[("location", "us-midwest")], vec![("temperature", lit("82"))], 1465839830100400200);
    assert_eq!(decode("weather,location=us-midwest temperature=82 1465839830100400200"), Ok(r));
}

#[test]
fn scenario_escaped_comma_in_tag_value() {
    let p = decode("weather,location=us\\,midwest temperature=82 1465839830100400200").unwrap();
    assert_eq!(p.tags.get("location").map(|s| s.as_str()), Some("us,midwest"));
}

#[test]
fn integer_suffix_is_not_a_float() {
    let i = decode("m k=82i 1").unwrap();
    let f = decode("m k=82 1").unwrap();
    assert_eq!(i.fields.get("k"), Some(&FieldValue::Integer(82)));
    assert_eq!(f.fields.get("k"), Some(&lit("82")));
    let x: f64 = match f.fields.get("k") {
        Some(FieldValue::Float(l)) => l.as_str().parse().unwrap(),
        _ => panic!("not a float"),
    };
    assert_eq!(x, 82.0);
    assert_ne!(i, f);
}

#[test]
fn boolean_literals_all_decode() {
    for (s, b) in [
        ("t", true), ("T", true), ("true", true), ("True", true), ("TRUE", true),
        ("f", false), ("F", false), ("false", false), ("False", false), ("FALSE", false),
    ] {
        let p = decode(&format!("m k={},j=1i 5", s)).unwrap();
        assert_eq!(p.fields.get("k"), Some(&FieldValue::Bool(b)));
    }
    assert_eq!(decode("m k=tRUE 5"), malformed(Malformation::BadFieldValue));
}

#[test]
fn empty_input() {
    assert_eq!(decode(""), malformed(Malformation::Empty));
    assert_eq!(decode("\n\n"), malformed(Malformation::Empty));
}

#[test]
fn trailing_newlines_are_ignored() {
    assert_eq!(decode("m k=1i 7\n\n"), decode("m k=1i 7"));
}

#[test]
fn missing_timestamp() {
    assert_eq!(decode("weather temperature=82"), malformed(Malformation::UnterminatedFieldValue));
    assert_eq!(decode("weather temperature=82 "), malformed(Malformation::BadTimestamp));
}

#[test]
fn tag_without_value() {
    assert_eq!(decode("weather,location temperature=82 1"), malformed(Malformation::TagWithoutValue));
}

#[test]
fn every_error_has_an_input() {
    assert_eq!(Influx {}.decode(vec![0xff, 0x20]), Err(DecodeError::InvalidUtf8));
    assert_eq!(decode("weather"), malformed(Malformation::UnterminatedRegion));
    assert_eq!(decode("weather\\"), malformed(Malformation::UnterminatedEscape));
    assert_eq!(decode("m,a=b=c k=1 1"), malformed(Malformation::EqualsInTagValue));
    assert_eq!(decode("m k=\"x\"y 1"), malformed(Malformation::UnexpectedAfterString));
    assert_eq!(decode("m k=\"x\""), malformed(Malformation::UnexpectedAfterString));
    assert_eq!(decode("m k=12ix 1"), malformed(Malformation::BadIntegerSuffix));
    assert_eq!(decode("m k=12i"), malformed(Malformation::BadIntegerSuffix));
    assert_eq!(decode("m k=12"), malformed(Malformation::UnterminatedFieldValue));
    assert_eq!(decode("m k=abc 1"), malformed(Malformation::BadFieldValue));
    assert_eq!(decode("m k= 1"), malformed(Malformation::BadFieldValue));
    assert_eq!(decode("m k=9223372036854775808i 1"), malformed(Malformation::BadFieldValue));
    assert_eq!(decode("m k=1 x"), malformed(Malformation::BadTimestamp));
    assert_eq!(decode("m k=1 18446744073709551616"), malformed(Malformation::BadTimestamp));
    assert_eq!(decode("m k=1 +5"), malformed(Malformation::BadTimestamp));
}

#[test]
fn encoding_an_array_fails() {
    let p = point("m", &[], vec![("a", lit("1")), ("b", FieldValue::NonScalar(NonScalarKind::Array))], 1);
    assert_eq!(Influx {}.encode(&p), Err(EncodeError::NonScalarField));
    let q = point("m", &[], vec![("n", FieldValue::NonScalar(NonScalarKind::Null))], 1);
    assert_eq!(q.try_to_bytes(), Err(EncodeError::NonScalarField));
}

#[test]
fn value_rendering() {
    let p = point(
        "m",
        &[("t", "v")],
        vec![
            ("i", FieldValue::Integer(i64::MIN)),
            ("j", FieldValue::Integer(-7)),
            ("f", lit("-1.5e3")),
            ("b", FieldValue::Bool(false)),
            ("s", FieldValue::Str("a\"b\\c d,e".to_string())),
        ],
        u64::MAX,
    );
    assert_eq!(
        encode_text(&p),
        "m,t=v i=-9223372036854775808i,j=-7i,f=-1.5e3,b=false,s=\"a\\\"b\\\\c d,e\" 18446744073709551615"
    );
}

#[test]
fn round_trip_many_fields_and_tags() {
    let p = point(
        "cpu load",
        &[("host", "a,b"), ("region", "eu west"), ("k=v", "x\\y")],
        vec![
            ("usage", lit("0.25")),
            ("count", FieldValue::Integer(-3)),
            ("ok", FieldValue::Bool(true)),
            ("note", FieldValue::Str("say \"hi\", \\ there".to_string())),
            ("big", lit("1e300")),
            ("nan", lit("NaN")),
            ("key=eq", lit("inf")),
        ],
        0,
    );
    let bytes = Influx {}.encode(&p).unwrap();
    assert_eq!(Influx {}.decode(bytes), Ok(p));
}

#[test]
fn reencoding_a_decoded_line_is_stable() {
    let line = "weather,location=us\\ midwest,x=\\=y temperature=82,s=\"q\\\"\",i=-4i 17\n";
    let p = decode(line).unwrap();
    let again = Influx {}.decode(Influx {}.encode(&p).unwrap()).unwrap();
    assert_eq!(again, p);
}

#[test]
fn encoded_text_is_utf8() {
    let p = point("mesure-é", &[("clé", "välue ✓")], vec![("fïeld", FieldValue::Str("日本".to_string()))], 3);
    let bytes = Influx {}.encode(&p).unwrap();
    let text = std::str::from_utf8(&bytes).expect("valid utf8");
    assert_eq!(text, "mesure-é,clé=välue\\ ✓ fïeld=\"日本\" 3");
    assert_eq!(Influx {}.decode(bytes), Ok(p));
}

#[test]
fn measurement_with_equals_does_not_come_back() {
    let p = point("a=b", &[], vec![("k", FieldValue::Integer(1))], 1);
    let text = encode_text(&p);
    assert_eq!(text, "a\\=b k=1i 1");
    assert_eq!(decode(&text).unwrap().measurement, "a\\=b");
}

#[test]
fn unrecognised_escapes_pass_through() {
    let p = decode("me\\as k\\,ey=\"a\\b\" 1").unwrap();
    assert_eq!(p.measurement, "me\\as");
    assert_eq!(p.fields.get("k\\,ey"), Some(&FieldValue::Str("a\\b".to_string())));
    let q = decode("m k=1\\.5 1").unwrap();
    assert_eq!(q.fields.get("k"), Some(&lit("1.5")));
}

#[test]
fn duplicate_keys_keep_the_last_value() {
    let p = decode("m,a=1,a=2 k=1i,k=2i 1").unwrap();
    assert_eq!(p.tags.len(), 1);
    assert_eq!(p.tags.get("a").map(|s| s.as_str()), Some("2"));
    assert_eq!(p.fields.len(), 1);
    assert_eq!(p.fields.get("k"), Some(&FieldValue::Integer(2)));
}

#[test]
fn decoded_lines_have_fields() {
    assert_eq!(decode("m 1"), malformed(Malformation::UnterminatedRegion));
    assert!(decode("m k=1i 1").unwrap().fields.len() > 0);
}

#[test]
fn escape_regions() {
    assert_eq!(escape("a, b=c\\d\"e"), "a\\,\\ b\\=c\\\\d\\\"e");
    assert_eq!(process_string("a, b=c\\d\"e"), "\"a, b=c\\\\d\\\"e\"");
    assert_eq!(escape(""), "");
    assert_eq!(process_string(""), "\"\"");
}

#[test]
fn scanner_forms() {
    let mut c = Cursor::from_str("ab\\,c\\xd,rest");
    assert_eq!(parse_to_char2(&mut c, ',', ' '), Ok(("ab,c\\xd".to_string(), ',')));
    assert_eq!(parse_to_char(&mut c, 't'), Ok("res".to_string()));
    let mut d = Cursor::from_str("k\\=1=v");
    assert_eq!(parse_to_char3(&mut d, '=', Some(' '), Some(',')), Ok(("k=1".to_string(), '=')));
    assert_eq!(d.rest(), vec!['v']);
    let mut e = Cursor::from_str("abc");
    assert_eq!(parse_to_char(&mut e, ','), Err(DecodeError::Malformed(Malformation::UnterminatedRegion)));
    let mut f = Cursor::from_str("ab\\");
    assert_eq!(parse_to_char(&mut f, ','), Err(DecodeError::Malformed(Malformation::UnterminatedEscape)));
}

#[test]
fn integer_parsing() {
    let v = |s: &str| s.chars().collect::<Vec<char>>();
    assert_eq!(parse_i64(&v("-9223372036854775808")), Some(i64::MIN));
    assert_eq!(parse_i64(&v("9223372036854775807")), Some(i64::MAX));
    assert_eq!(parse_i64(&v("+12")), Some(12));
    assert_eq!(parse_i64(&v("-")), None);
    assert_eq!(parse_i64(&v("")), None);
    assert_eq!(parse_i64(&v("1a")), None);
    let ts = v("x18446744073709551615");
    assert_eq!(parse_u64_range(&ts, 1, ts.len()), Some(u64::MAX));
    assert_eq!(parse_u64_range(&ts, 0, ts.len()), None);
}

#[test]
fn float_literals() {
    for ok in ["82", "82.", ".5", "-1.5e3", "1E+9", "inf", "-Infinity", "NaN", "+0.0e-1"] {
        let l = FloatLiteral::parse(ok).expect(ok);
        assert_eq!(l.as_str(), ok);
        assert!(ok.parse::<f64>().is_ok());
    }
    for bad in ["", ".", "e5", "1e", "1.2.3", "--1", "infinit", "1_0", " 1", "0x10"] {
        assert!(FloatLiteral::parse(bad).is_none(), "{}", bad);
        assert!(bad.parse::<f64>().is_err(), "{}", bad);
    }
}

#[test]
fn reasons() {
    assert_eq!(Malformation::TagWithoutValue.reason(), "tag without value");
    assert_eq!(Malformation::Empty.reason(), "empty");
}

#[test]
fn tnt_needs_a_config() {
    let c = Config { port: 4242, host: "localhost".to_string() };
    let t = Tnt::from_config("tremor://localhost/onramp/tnt", Some(c.clone())).unwrap();
    assert_eq!(t.config, c);
    assert_eq!(t.onramp_id, "tremor://localhost/onramp/tnt");
    assert_eq!(Tnt::from_config("x", None).err(), Some(ConfigError::Missing));
}

#[test]
fn parse_and_decode_agree() {
    let line = "weather,a=b k=\"v\" 9";
    assert_eq!(parse(line), decode(line));
}
