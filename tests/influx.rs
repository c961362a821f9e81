use influx_codec::parse;
use influx_codec::{FieldValue, FloatLiteral, Influx, InfluxDatapoint};

fn float(x: f64) -> FieldValue {
    FieldValue::Float(FloatLiteral::parse(&x.to_string()).expect("a float literal"))
}

fn string(s: &str) -> FieldValue {
    FieldValue::Str(s.to_string())
}

fn point(
    measurement: &str,
    tags: &[(&str, &str)],
    fields: Vec<(&str, FieldValue)>,
    timestamp: u64,
) -> InfluxDatapoint {
    let mut tag_map = halfbrown::HashMap::new();
    for (k, v) in tags {
        tag_map.insert(k.to_string(), v.to_string());
    }
    let mut field_map = halfbrown::HashMap::new();
    for (k, v) in fields {
        field_map.insert(k.to_string(), v);
    }
    InfluxDatapoint {
        measurement: measurement.to_string(),
        tags: tag_map,
        fields: field_map,
        timestamp,
    }
}

#[test]
fn parse_simple() {
    let s = "weather,location=us-midwest temperature=82 1465839830100400200";
    let r = point(
        "weather",
        &[("location", "us-midwest")],
        vec![("temperature", float(82.0))],
        1465839830100400200,
    );
    assert_eq!(Ok(r), parse(s))
}

#[test]
fn parse_simple2() {
    let s = "weather,location=us-midwest,season=summer temperature=82 1465839830100400200";
    let r = point(
        "weather",
        &[("location", "us-midwest"), ("season", "summer")],
        vec![("temperature", float(82.0))],
        1465839830100400200,
    );
    assert_eq!(Ok(r), parse(s))
}

#[test]
fn parse_simple3() {
    let s = "weather,location=us-midwest temperature=82,bug_concentration=98 1465839830100400200";
    let r = point(
        "weather",
        &[("location", "us-midwest")],
        vec![("temperature", float(82.0)), ("bug_concentration", float(98.0))],
        1465839830100400200,
    );
    assert_eq!(Ok(r), parse(s))
}

#[test]
fn parse_float_value() {
    let s = "weather temperature=82 1465839830100400200";
    let r = point("weather", &[], vec![("temperature", float(82.0))], 1465839830100400200);
    assert_eq!(Ok(r), parse(s))
}

#[test]
fn parse_int_value() {
    let s = "weather temperature=82i 1465839830100400200";
    let r = point("weather", &[], vec![("temperature", FieldValue::Integer(82))], 1465839830100400200);
    assert_eq!(Ok(r), parse(s))
}

#[test]
fn parse_str_value() {
    let s = "weather,location=us-midwest temperature=\"too warm\" 1465839830100400200";
    let r = point(
        "weather",
        &[("location", "us-midwest")],
        vec![("temperature", string("too warm"))],
        1465839830100400200,
    );
    assert_eq!(Ok(r), parse(s))
}

#[test]
fn parse_true_value() {
    let sarr = &[
        "weather,location=us-midwest too_hot=true 1465839830100400200",
        "weather,location=us-midwest too_hot=True 1465839830100400200",
        "weather,location=us-midwest too_hot=TRUE 1465839830100400200",
        "weather,location=us-midwest too_hot=t 1465839830100400200",
        "weather,location=us-midwest too_hot=T 1465839830100400200",
    ];
    for s in sarr {
        let r = point(
            "weather",
            &[("location", "us-midwest")],
            vec![("too_hot", FieldValue::Bool(true))],
            1465839830100400200,
        );
        assert_eq!(Ok(r), parse(s))
    }
}

#[test]
fn parse_false_value() {
    let sarr = &[
        "weather,location=us-midwest too_hot=false 1465839830100400200",
        "weather,location=us-midwest too_hot=False 1465839830100400200",
        "weather,location=us-midwest too_hot=FALSE 1465839830100400200",
        "weather,location=us-midwest too_hot=f 1465839830100400200",
        "weather,location=us-midwest too_hot=F 1465839830100400200",
    ];
    for s in sarr {
        let r = point(
            "weather",
            &[("location", "us-midwest")],
            vec![("too_hot", FieldValue::Bool(false))],
            1465839830100400200,
        );
        assert_eq!(Ok(r), parse(s))
    }
}

// Escapes are written twice: one level is Rust's own.
#[test]
fn parse_escape1() {
    let s = "weather,location=us\\,midwest temperature=82 1465839830100400200";
    let r = point(
        "weather",
        &[("location", "us,midwest")],
        vec![("temperature", float(82.0))],
        1465839830100400200,
    );
    assert_eq!(Ok(r), parse(s))
}

#[test]
fn parse_escape2() {
    let s = "weather,location=us-midwest temp\\=rature=82 1465839830100400200";
    let r = point(
        "weather",
        &[("location", "us-midwest")],
        vec![("temp=rature", float(82.0))],
        1465839830100400200,
    );
    assert_eq!(Ok(r), parse(s))
}

#[test]
fn parse_escape3() {
    let s = "weather,location\\ place=us-midwest temperature=82 1465839830100400200";
    let r = point(
        "weather",
        &[("location place", "us-midwest")],
        vec![("temperature", float(82.0))],
        1465839830100400200,
    );
    assert_eq!(Ok(r), parse(s))
}

#[test]
fn parse_escape4() {
    let s = "wea\\,ther,location=us-midwest temperature=82 1465839830100400200";
    let r = point(
        "wea,ther",
        &[("location", "us-midwest")],
        vec![("temperature", float(82.0))],
        1465839830100400200,
    );
    assert_eq!(Ok(r), parse(s))
}

#[test]
fn parse_escape5() {
    let s = "wea\\ ther,location=us-midwest temperature=82 1465839830100400200";
    let r = point(
        "wea ther",
        &[("location", "us-midwest")],
        vec![("temperature", float(82.0))],
        1465839830100400200,
    );
    assert_eq!(Ok(r), parse(s))
}

#[test]
fn parse_escape6() {
    let s = "weather,location=us-midwest temperature=\"too\\\"hot\\\"\" 1465839830100400200";
    let r = point(
        "weather",
        &[("location", "us-midwest")],
        vec![("temperature", string("too\"hot\""))],
        1465839830100400200,
    );
    assert_eq!(Ok(r), parse(s))
}

#[test]
fn parse_escape7() {
    let s = "weather,location=us-midwest temperature_str=\"too hot/cold\" 1465839830100400201";
    let r = point(
        "weather",
        &[("location", "us-midwest")],
        vec![("temperature_str", string("too hot/cold"))],
        1465839830100400201,
    );
    assert_eq!(Ok(r), parse(s));
}

#[test]
fn parse_escape8() {
    let s = "weather,location=us-midwest temperature_str=\"too hot\\cold\" 1465839830100400202";
    let r = point(
        "weather",
        &[("location", "us-midwest")],
        vec![("temperature_str", string("too hot\\cold"))],
        1465839830100400202,
    );
    assert_eq!(Ok(r), parse(s))
}

#[test]
fn parse_escape9() {
    let s = "weather,location=us-midwest temperature_str=\"too hot\\\\cold\" 1465839830100400203";
    let r = point(
        "weather",
        &[("location", "us-midwest")],
        vec![("temperature_str", string("too hot\\cold"))],
        1465839830100400203,
    );
    assert_eq!(Ok(r), parse(s))
}

#[test]
fn parse_escape10() {
    let s = "weather,location=us-midwest temperature_str=\"too hot\\\\\\cold\" 1465839830100400204";
    let r = point(
        "weather",
        &[("location", "us-midwest")],
        vec![("temperature_str", string("too hot\\\\cold"))],
        1465839830100400204,
    );
    assert_eq!(Ok(r), parse(s))
}

#[test]
fn parse_escape11() {
    let s = "weather,location=us-midwest temperature_str=\"too hot\\\\\\\\cold\" 1465839830100400205";
    let r = point(
        "weather",
        &[("location", "us-midwest")],
        vec![("temperature_str", string("too hot\\\\cold"))],
        1_465_839_830_100_400_205,
    );
    assert_eq!(Ok(r), parse(s))
}

#[test]
fn parse_escape12() {
    let s = "weather,location=us-midwest temperature_str=\"too hot\\\\\\\\\\cold\" 1465839830100400206";
    let r = point(
        "weather",
        &[("location", "us-midwest")],
        vec![("temperature_str", string("too hot\\\\\\cold"))],
        1465839830100400206,
    );
    assert_eq!(Ok(r), parse(s))
}

#[test]
fn unparse_test() {
    let s = "weather,location=us-midwest temperature=82 1465839830100400200";
    let d = parse(s).expect("failed to parse");
    assert_eq!(d.measurement, "weather");
    assert_eq!(d.tags.len(), 1);
    assert_eq!(d.tags.get("location").map(|v| v.as_str()), Some("us-midwest"));
    assert_eq!(d.fields.len(), 1);
    assert_eq!(d.fields.get("temperature"), Some(&float(82.0)));
    assert_eq!(d.timestamp, 1465839830100400200);
}

#[test]
fn decode() {
    let s = b"weather,location=us-midwest temperature=82 1465839830100400200".to_vec();
    let codec = Influx {};
    let decoded = codec.decode(s).expect("failed to decode");
    let e = point(
        "weather",
        &[("location", "us-midwest")],
        vec![("temperature", float(82.0))],
        1465839830100400200,
    );
    assert_eq!(decoded, e)
}

#[test]
fn encode() {
    let s = point(
        "weather",
        &[("location", "us-midwest")],
        vec![("temperature", float(82.0))],
        1465839830100400200,
    );
    let codec = Influx {};
    let encoded = codec.encode(&s).expect("failed to encode");
    let influx = point(
        "weather",
        &[("location", "us-midwest")],
        vec![("temperature", float(82.0))],
        1465839830100400200u64,
    );
    assert_eq!(encoded, influx.try_to_bytes().expect("failed to encode"))
}

// Fields are separated by commas, as InfluxDB expects, so that every line
// the encoder writes decodes again.
#[test]
fn encode_mixed_bag() {
    let s = point(
        r#"wea,\ ther"#,
        &[],
        vec![
            ("temp=erature", float(82.0)),
            (r#"too\ \\\"hot""#, FieldValue::Bool(true)),
        ],
        1465839830100400200u64,
    );
    let codec = Influx {};
    let encoded = codec.encode(&s).expect("failed to encode");
    let raw = r#"wea\,\\\ ther temp\=erature=82,too\\\ \\\\\\\"hot\"=true 1465839830100400200"#;
    assert_eq!(
        std::str::from_utf8(&encoded).expect("failed to convert utf8"),
        raw
    );
}

fn data_for_tests() -> Vec<(InfluxDatapoint, &'static str)> {
    let us = [("location", "us-midwest")];
    vec![
        (point("weather", &[("location", "us,midwest")], vec![("temperature", float(82.0))], 1465839830100400200), "escaped comma in tag value"),
        (point("weather", &[("location_place", "us-midwest")], vec![("temp=erature", float(82.0))], 1465839830100400200), "escaped equals in field key"),
        (point("weather", &[("location place", "us-midwest")], vec![("temperature", float(82.0))], 1465839830100400200), "escaped space in tag key"),
        (point("wea,ther", &us, vec![("temperature", float(82.0))], 1465839830100400200), "escaped comma in measurement"),
        (point("wea ther", &us, vec![("temperature", float(82.0))], 1465839830100400200), "escaped space in measurement"),
        (point("weather", &us, vec![("temperature_str", string("too\\ hot\\cold"))], 1465839830100400203), "unknown escapes in string"),
        (point("weather", &us, vec![("temperature_str", string("too hot/cold"))], 1465839830100400202), "slash in string"),
        (point("weather", &us, vec![("temperature_str", string(r#"too hot\cold"#))], 1465839830100400203), "backslash in string"),
        (point("weather", &us, vec![("temperature_str", string(r#"too hot\\cold"#))], 1465839830100400204), "two backslashes in string"),
        (point("weather", &us, vec![("temperature_str", string("too hot\\\\cold"))], 1465839830100400205), "two backslashes in string again"),
        (point("weather", &us, vec![("temperature_str", string("too hot\\\\\\cold"))], 1465839830100400206), "three backslashes in string"),
    ]
}

#[test]
fn round_trip_all_cases() {
    for (expected, name) in data_for_tests() {
        let codec = Influx {};
        let encoded = codec.encode(&expected).expect("failed to encode");
        let decoded = codec.decode(encoded).expect("failed to dencode");
        if decoded != expected {
            println!("{} fails while decoding", name);
            assert_eq!(decoded, expected);
        }
    }
}
