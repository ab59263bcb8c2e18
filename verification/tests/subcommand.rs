use peripherio::error::MalformedConfigPairError;
use peripherio::literal::{parse_i64, parses_as_float};
use peripherio::subcommand::{parse_config_list, parse_config_pair, read_value, ConfigArg, ConfigArgValue};

fn arg(key: &str, value: ConfigArgValue) -> ConfigArg {
    let packed = match &value {
        ConfigArgValue::Integer(n) => Some(rmp_serde::to_vec(n).unwrap()),
        ConfigArgValue::Float(_) => None,
        ConfigArgValue::Text(t) => Some(rmp_serde::to_vec(t.as_str()).unwrap()),
    };
    ConfigArg { key: key.to_string(), value, packed }
}

#[test]
fn pairs_carry_messagepack_bytes() {
    let r = parse_config_list(&vec!["if.type=i2c", "if.i2c.busnum=1"]).unwrap();
    assert_eq!(r.len(), 2);
    assert_eq!(r[0].key, "if.type");
    assert_eq!(r[0].packed, Some(vec![0xa3, 0x69, 0x32, 0x63]));
    assert_eq!(r[1].key, "if.i2c.busnum");
    assert_eq!(r[1].packed, Some(vec![0x01]));
}

#[test]
fn negative_and_empty_values_are_packed() {
    let r = parse_config_list(&vec!["n=-3", "flag", "b=true", "x=1.5"]).unwrap();
    assert_eq!(r[0].packed, Some(vec![0xfd]));
    assert_eq!(r[1].packed, Some(vec![0xa0]));
    assert_eq!(r[2].value, ConfigArgValue::Text("true".to_string()));
    assert_eq!(r[2].packed, Some(vec![0xa4, b't', b'r', b'u', b'e']));
    assert_eq!(r[3].value, ConfigArgValue::Float("1.5".to_string()));
    assert_eq!(r[3].packed, None);
}

#[test]
fn first_malformed_pair_is_reported() {
    let e = parse_config_list(&vec!["a=1", "b==2", "c=3=4"]).unwrap_err();
    assert_eq!(e.config, "b==2");
}

#[test]
fn integer_values() {
    let r = parse_config_list(&vec!["if.i2c.busnum=1", "offset=-12", "big=+9223372036854775807"]).unwrap();
    assert_eq!(
        r,
        vec![
            arg("if.i2c.busnum", ConfigArgValue::Integer(1)),
            arg("offset", ConfigArgValue::Integer(-12)),
            arg("big", ConfigArgValue::Integer(i64::MAX)),
        ]
    );
}

#[test]
fn float_and_text_values() {
    let r = parse_config_list(&vec!["rate=1.5", "if.type=i2c", "huge=9223372036854775808", "lim=-inf"]).unwrap();
    assert_eq!(
        r,
        vec![
            arg("rate", ConfigArgValue::Float("1.5".to_string())),
            arg("if.type", ConfigArgValue::Text("i2c".to_string())),
            arg("huge", ConfigArgValue::Float("9223372036854775808".to_string())),
            arg("lim", ConfigArgValue::Float("-inf".to_string())),
        ]
    );
}

#[test]
fn key_without_value_gets_empty_text() {
    assert_eq!(parse_config_pair("verbose"), Some(arg("verbose", ConfigArgValue::Text(String::new()))));
    assert_eq!(parse_config_pair("empty="), Some(arg("empty", ConfigArgValue::Text(String::new()))));
    assert_eq!(parse_config_pair("=5"), Some(arg("", ConfigArgValue::Integer(5))));
}

#[test]
fn two_equal_signs_are_malformed() {
    assert!(parse_config_pair("a=b=c").is_none());
    let e: MalformedConfigPairError = parse_config_list(&vec!["ok=1", "a=b=c", "x==y"]).unwrap_err();
    assert_eq!(e.config, "a=b=c");
    assert_eq!(e.message(), "Malformed Config Pair: \"a=b=c\"");
}

#[test]
fn empty_list_is_empty() {
    assert_eq!(parse_config_list(&Vec::new()).unwrap(), Vec::new());
}

#[test]
fn minimum_i64_is_an_integer() {
    assert_eq!(read_value("-9223372036854775808".to_string()), ConfigArgValue::Integer(i64::MIN));
    assert_eq!(
        read_value("-9223372036854775809".to_string()),
        ConfigArgValue::Float("-9223372036854775809".to_string())
    );
}

const SAMPLES: [&str; 46] = [
    "", "0", "-0", "+0", "42", "-42", "+", "-", "007", "1_000", " 1", "1 ", "9223372036854775807",
    "9223372036854775808", "-9223372036854775808", "-9223372036854775809", "99999999999999999999999",
    "1.5", ".5", "5.", ".", "-.5", "+.e1", "1e5", "1E5", "1e+5", "1e-5", "1e", "e5", "1.2.3", "1e5.0",
    "inf", "-inf", "+INF", "Infinity", "-infinity", "infin", "nan", "NaN", "-nan", "nana", "0x10",
    "1,5", "١", "1e1e1", "i2c",
];

#[test]
fn integer_reading_agrees_with_std() {
    for s in SAMPLES.iter() {
        assert_eq!(parse_i64(s), s.parse::<i64>().ok(), "{}", s);
    }
}

#[test]
fn float_recognition_agrees_with_std() {
    for s in SAMPLES.iter() {
        assert_eq!(parses_as_float(s), s.parse::<f64>().is_ok(), "{}", s);
    }
}

#[test]
fn packed_forms_are_the_shortest() {
    let long = "x".repeat(40);
    let conf = format!("s={}", long);
    let r = parse_config_list(&vec!["a=200", "b=-200", "c=70000", "d=-100", "e=é", conf.as_str(), "f=-9223372036854775808"]).unwrap();
    assert_eq!(r[0].packed, Some(vec![0xcc, 200]));
    assert_eq!(r[1].packed, Some(vec![0xd1, 0xff, 0x38]));
    assert_eq!(r[2].packed, Some(vec![0xce, 0x00, 0x01, 0x11, 0x70]));
    assert_eq!(r[3].packed, Some(vec![0xd0, 0x9c]));
    assert_eq!(r[4].packed, Some(vec![0xa2, 0xc3, 0xa9]));
    let mut s = vec![0xd9, 40];
    s.extend(long.as_bytes());
    assert_eq!(r[5].packed, Some(s));
    assert_eq!(r[6].packed, Some(vec![0xd3, 0x80, 0, 0, 0, 0, 0, 0, 0]));
}
