use beamium::error::ParseError;
use beamium::transcompiler::{
    format_prometheus, format_sensision, format_warp10, ScraperFormat, Transcompiler,
};

#[test]
fn prometheus_skip_infinity() {
    let line = "f{job_id=\"123\"} +Inf";
    let expected: Result<String, ParseError> = Ok(String::new());
    let result = format_prometheus(line, 1);
    assert_eq!(expected.is_ok(), result.is_ok());
    assert_eq!(expected.unwrap(), result.unwrap());

    let line = "f{job_id=\"123\"} -Inf";
    let expected: Result<String, ParseError> = Ok(String::new());
    let result = format_prometheus(line, 1);
    assert_eq!(expected.is_ok(), result.is_ok());
    assert_eq!(expected.unwrap(), result.unwrap());
}

#[test]
fn prometheus_skip_empty() {
    let line = "";
    let expected: Result<String, ParseError> = Ok(String::new());
    let result = format_prometheus(line, 1);
    assert_eq!(expected.is_ok(), result.is_ok());
    assert_eq!(expected.unwrap(), result.unwrap());
}

#[test]
fn prometheus_skip_comment() {
    let line = "# HELP ...";
    let expected: Result<String, ParseError> = Ok(String::new());
    let result = format_prometheus(line, 1);
    assert_eq!(expected.is_ok(), result.is_ok());
    assert_eq!(expected.unwrap(), result.unwrap());
}

#[test]
fn prometheus_skip_nan() {
    let line = "f{job_id=\"123\"} nan";
    let expected: Result<String, ParseError> = Ok(String::new());
    let result = format_prometheus(line, 1);
    assert_eq!(expected.is_ok(), result.is_ok());
    assert_eq!(expected.unwrap(), result.unwrap());

    let line = "f{job_id=\"123\"} NaN";
    let expected: Result<String, ParseError> = Ok(String::new());
    let result = format_prometheus(line, 1);
    assert_eq!(expected.is_ok(), result.is_ok());
    assert_eq!(expected.unwrap(), result.unwrap());
}

#[test]
fn prometheus_urlencoding() {
    let line = "f{job_id=\"1%3\"} 1";
    let expected: Result<String, ParseError> = Ok(String::from("1// f{job_id=1%253} 1"));
    let result = format_prometheus(line, 1);
    assert_eq!(expected.is_ok(), result.is_ok());
    assert_eq!(expected.unwrap(), result.unwrap());

    let line = "f{job_id=\"1%3\"} 1";
    let expected: Result<String, ParseError> = Ok(String::from("1// f{job_id=1%253} 1"));
    let result = format_prometheus(line, 1);
    assert_eq!(expected.is_ok(), result.is_ok());
    assert_eq!(expected.unwrap(), result.unwrap());

    let line = "f{job_id=\"1%3\"} 1";
    let expected: Result<String, ParseError> = Ok(String::from("1// f{job_id=1%253} 1"));
    let result = format_prometheus(line, 1);
    assert_eq!(expected.is_ok(), result.is_ok());
    assert_eq!(expected.unwrap(), result.unwrap());

    let line = "f{job_id=\"1 3\"} 1";
    let expected: Result<String, ParseError> = Ok(String::from("1// f{job_id=1%203} 1"));
    let result = format_prometheus(line, 1);
    assert_eq!(expected.is_ok(), result.is_ok());
    assert_eq!(expected.unwrap(), result.unwrap());

    let line = "f{job_id=\"1+3\"} 1";
    let expected: Result<String, ParseError> = Ok(String::from("1// f{job_id=1%2B3} 1"));
    let result = format_prometheus(line, 1);
    assert_eq!(expected.is_ok(), result.is_ok());
    assert_eq!(expected.unwrap(), result.unwrap());
}

#[test]
fn prometheus_timestamp_in_millis_becomes_micros() {
    let r = format_prometheus("foo{a=\"1\"} 42 1700000000000", 5).unwrap();
    assert_eq!(r, "1700000000000000// foo{a=1} 42");
}

#[test]
fn prometheus_bad_or_missing_timestamp_uses_now() {
    assert_eq!(format_prometheus("foo 42 abc", 77).unwrap(), "77// foo{} 42");
    assert_eq!(format_prometheus("foo 42", 77).unwrap(), "77// foo{} 42");
    assert_eq!(format_prometheus("foo 42 -3", 77).unwrap(), "-3000// foo{} 42");
    assert_eq!(format_prometheus("foo 42 +3", 77).unwrap(), "3000// foo{} 42");
    assert_eq!(
        format_prometheus("foo 42 99999999999999999999", 77).unwrap(),
        "77// foo{} 42"
    );
}

#[test]
fn prometheus_class_is_encoded() {
    assert_eq!(format_prometheus("a:b 1", 2).unwrap(), "2// a%3Ab{} 1");
    assert_eq!(format_prometheus("  héllo   5  ", 2).unwrap(), "2// h%C3%A9llo{} 5");
}

#[test]
fn prometheus_labels_with_structure_inside_quotes() {
    let r = format_prometheus("m{a=\"x,y=z}\",b=\"\"} 1", 9).unwrap();
    assert_eq!(r, "9// m{a=x%2Cy%3Dz%7D,b=} 1");
}

#[test]
fn prometheus_without_brace_and_space_is_bad_class() {
    assert_eq!(format_prometheus("lonely", 1), Err(ParseError::BadClass));
    assert_eq!(format_prometheus("f{a=\"1\"", 1), Err(ParseError::BadClass));
}

#[test]
fn prometheus_without_value_is_an_error() {
    assert_eq!(format_prometheus("f{a=\"1\"}", 1), Err(ParseError::NoValue));
    assert_eq!(format_prometheus("f{a=\"1\"}   ", 1), Err(ParseError::NoValue));
}

#[test]
fn sensision_is_trimmed_identity() {
    let line = "1// a.b{c=d} 42";
    assert_eq!(format_warp10(&format!("  {}\t\n", line)).unwrap(), line);
    assert_eq!(format_warp10(line).unwrap(), line);
}

#[test]
fn sensision_with_labels() {
    assert_eq!(
        format_sensision("1// f{a=b} 1", "h=1").unwrap(),
        "1// f{h=1,a=b} 1"
    );
    assert_eq!(format_sensision(" x", "").unwrap(), " x");
    assert_eq!(
        format_sensision(" 1// f{a=b} 1 ", "h=1").unwrap(),
        " 1// f{h=1,a=b} 1 "
    );
    assert_eq!(format_sensision("1// f{} 1", "").unwrap(), "1// f{} 1");
}

#[test]
fn transcompiler_dispatches_on_format() {
    let p = Transcompiler::at(ScraperFormat::Prometheus, 10);
    assert_eq!(p.format("f 1").unwrap(), "10// f{} 1");
    let s = Transcompiler::at(ScraperFormat::Sensision, 10);
    assert_eq!(s.format(" 3// f{} 1 ").unwrap(), "3// f{} 1");
}

#[test]
fn transcompiler_now_is_current() {
    let t = Transcompiler::new(ScraperFormat::Prometheus);
    // After 2020-01-01, in microseconds.
    assert!(t.now > 1_577_836_800_000_000);
    let out = t.format("f 1").unwrap();
    assert_eq!(out, format!("{}// f{{}} 1", t.now));
}

#[test]
fn format_names() {
    assert_eq!(ScraperFormat::parse("prometheus"), Some(ScraperFormat::Prometheus));
    assert_eq!(ScraperFormat::parse("sensision"), Some(ScraperFormat::Sensision));
    assert_eq!(ScraperFormat::parse("Prometheus"), None);
}
