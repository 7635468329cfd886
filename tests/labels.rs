use beamium::error::ParseError;
use beamium::labels::{add_labels, remove_labels};
use beamium::scraper::join_labels;

#[test]
fn no_labels_at_all() {
    let line = "1484828198557102// f{} 10";
    let expected: Result<String, ParseError> = Ok(String::from("1484828198557102// f{} 10"));
    let labels = vec![String::from("job_name"), String::from("another_id")];
    let result = remove_labels(line, &labels);
    assert_eq!(expected.is_ok(), result.is_ok());
    assert_eq!(expected.unwrap(), result.unwrap());
}

#[test]
fn remove_no_labels() {
    let line = "1484828198557102// f{job_id=123,job_name=job1,another_id=456} 10";
    let expected: Result<String, ParseError> = Ok(String::from(line));
    let labels: Vec<String> = vec![];
    let result = remove_labels(line, &labels);
    assert_eq!(expected.is_ok(), result.is_ok());
    assert_eq!(expected.unwrap(), result.unwrap());
}

#[test]
fn remove_one_labels() {
    let line = "1484828198557102// f{job_id=123,job_name=job1,another_id=456} 10";
    let expected: Result<String, ParseError> = Ok(String::from(
        "1484828198557102// f{job_id=123,another_id=456} 10",
    ));
    let labels = vec![String::from("job_name")];
    let result = remove_labels(line, &labels);
    assert_eq!(expected.is_ok(), result.is_ok());
    assert_eq!(expected.unwrap(), result.unwrap());
}

#[test]
fn remove_multiple_labels() {
    let line = "1484828198557102// f{job_id=123,job_name=job1,another_id=456} 10";
    let expected: Result<String, ParseError> =
        Ok(String::from("1484828198557102// f{job_id=123} 10"));
    let labels = vec![String::from("job_name"), String::from("another_id")];
    let result = remove_labels(line, &labels);
    assert_eq!(expected.is_ok(), result.is_ok());
    assert_eq!(expected.unwrap(), result.unwrap());
}

#[test]
fn add_one_label() {
    let line = "1562656816000000// f{type=count} 1486";
    let label = "host=foo";
    let expected: Result<String, ParseError> = Ok(String::from(
        "1562656816000000// f{host=foo,type=count} 1486",
    ));
    let result = add_labels(line, label);
    assert_eq!(expected.is_ok(), result.is_ok());
    assert_eq!(expected.unwrap(), result.unwrap());
}

#[test]
fn add_multiple_labels() {
    let line = "1562656816000000// f{type=count} 1486";
    let label = "host=foo,rack=toto";
    let expected: Result<String, ParseError> = Ok(String::from(
        "1562656816000000// f{host=foo,rack=toto,type=count} 1486",
    ));
    let result = add_labels(line, label);
    assert_eq!(expected.is_ok(), result.is_ok());
    assert_eq!(expected.unwrap(), result.unwrap());
}

#[test]
fn add_to_empty_label_list_has_no_comma() {
    let r = add_labels("1// f{} 1", "host=h1").unwrap();
    assert_eq!(r, "1// f{host=h1} 1");
    let r = add_labels("1// f{ } 1", "host=h1").unwrap();
    assert_eq!(r, "1// f{host=h1 } 1");
}

#[test]
fn add_nothing_keeps_line() {
    assert_eq!(add_labels("no braces at all", "").unwrap(), "no braces at all");
}

#[test]
fn add_without_brace_is_an_error() {
    assert_eq!(add_labels("1// f 1", "a=b"), Err(ParseError::NoLabels));
}

#[test]
fn remove_without_brace_is_an_error() {
    let drop = vec![String::from("a")];
    assert_eq!(remove_labels("1// f 1", &drop), Err(ParseError::NoLabels));
}

#[test]
fn remove_without_end_is_an_error() {
    let drop = vec![String::from("a")];
    assert_eq!(remove_labels("1// f{a=1}1", &drop), Err(ParseError::NoEnd));
}

#[test]
fn remove_label_without_equals_is_an_error() {
    let drop = vec![String::from("a")];
    assert_eq!(remove_labels("1// f{a=1,oops} 1", &drop), Err(ParseError::NoKey));
}

#[test]
fn remove_splits_at_last_equals() {
    let drop = vec![String::from("a=b")];
    assert_eq!(remove_labels("1// f{a=b=c,d=e} 1", &drop).unwrap(), "1// f{d=e} 1");
    let drop = vec![String::from("a")];
    assert_eq!(remove_labels("1// f{a=b=c,d=e} 1", &drop).unwrap(), "1// f{a=b=c,d=e} 1");
}

#[test]
fn remove_after_add_gives_normalized_line() {
    let pairs = vec![
        (String::from("host"), String::from("h1")),
        (String::from("dc"), String::from("gra")),
    ];
    let labels = join_labels(&pairs);
    assert_eq!(labels, "host=h1,dc=gra");
    let keys = vec![String::from("host"), String::from("dc")];
    for line in ["1// f{a=1,b=2} 3", "1// f{} 3", "7// g{x=y} 1 extra"] {
        let added = add_labels(line, &labels).unwrap();
        assert_eq!(remove_labels(&added, &keys), remove_labels(line, &keys));
        assert_eq!(remove_labels(&added, &keys).unwrap(), line);
    }
}

#[test]
fn join_no_labels_is_empty() {
    let pairs: Vec<(String, String)> = vec![];
    assert_eq!(join_labels(&pairs), "");
}
