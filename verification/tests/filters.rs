//! End-to-end scenarios: parse a document, parse a filter, interpret, and
//! hold the outputs against expected values.

use minijq::jq_interpreter::interpret;
use minijq::jq_parser::parse;
use minijq::json::Json;
use minijq::json_parser::parse_json;
use minijq::json_print::to_text;
use minijq::util::skip_stuff;

fn doc(text: &str) -> Json {
    let (value, rest) = parse_json(text).expect("the document should parse");
    assert!(skip_stuff(rest).is_empty());
    value
}

fn run(input: &str, filter: &str) -> Vec<Json> {
    let value = doc(input);
    let program = parse(filter).expect("the filter should parse");
    interpret(vec![value], program).expect("evaluation should succeed")
}

fn expect(outputs: &[Json], expected: &[&str]) {
    assert_eq!(outputs.len(), expected.len());
    for (got, want) in outputs.iter().zip(expected.iter()) {
        let w = doc(want);
        assert_eq!(got, &w);
    }
}

#[test]
fn field_chain_and_index() {
    let r = run("{\"a\":{\"b\":[1,2,3]}}", ".a.b[1]");
    expect(&r, &["2"]);
}

#[test]
fn comma_concatenates() {
    let r = run("{\"a\":1,\"b\":2}", ".a, .b");
    expect(&r, &["1", "2"]);
}

#[test]
fn slice_of_array() {
    let r = run("[1,2,3,4]", ".[1:3]");
    expect(&r, &["[2,3]"]);
}

#[test]
fn iterate_and_double() {
    let r = run("[1,2,3]", ".[] | . * 2");
    expect(&r, &["2", "4", "6"]);
}

#[test]
fn conditional_picks_then() {
    let r = run("{\"x\":10}", "if .x > 5 then \"big\" else \"small\" end");
    expect(&r, &["\"big\""]);
}

#[test]
fn alternative_on_null() {
    let r = run("null", ". // 42");
    expect(&r, &["42"]);
}

#[test]
fn length_of_field() {
    let r = run("{\"a\":[1,2,3]}", ".a | length");
    expect(&r, &["3"]);
}

#[test]
fn optional_missing_field() {
    let r = run("{\"a\":1}", ".b?");
    expect(&r, &["null"]);
}

#[test]
fn map_adds_ten() {
    let r = run("[{\"n\":1},{\"n\":2}]", "map(.n + 10)");
    expect(&r, &["11", "12"]);
}

#[test]
fn identity_emits_input() {
    let r = run("{\"a\":[1,true,\"x\"]}", ".");
    expect(&r, &["{\"a\":[1,true,\"x\"]}"]);
}

#[test]
fn pipe_with_identity_left_and_right() {
    let a = run("{\"a\":7}", ".a | .");
    let b = run("{\"a\":7}", ". | .a");
    let c = run("{\"a\":7}", ".a");
    assert_eq!(a, c);
    assert_eq!(b, c);
}

#[test]
fn recursive_descent() {
    let r = run("{\"a\":[1]}", "..");
    expect(&r, &["{\"a\":[1]}", "[1]", "1"]);
}

#[test]
fn keys_are_sorted() {
    let r = run("{\"b\":1,\"a\":2}", "keys");
    expect(&r, &["[\"a\",\"b\"]"]);
}

#[test]
fn has_and_in() {
    let r = run("{\"a\":1}", "has(\"a\")");
    expect(&r, &["true"]);
    let r2 = run("\"b\"", "in({\"a\":1})");
    expect(&r2, &["false"]);
}

#[test]
fn arithmetic_on_values() {
    expect(&run("null", "1 + 2"), &["3"]);
    expect(&run("null", "7 - 2"), &["5"]);
    expect(&run("null", "10 / 4"), &["2.5"]);
    expect(&run("null", "7 % 3"), &["1"]);
    expect(&run("null", "[1,2] + [3]"), &["[1,2,3]"]);
    expect(&run("null", "[1,2,2] - [2]"), &["[1]"]);
    expect(&run("null", "\"ab\" + \"cd\""), &["\"abcd\""]);
}

#[test]
fn logic_and_not() {
    expect(&run("null", "true and false"), &["false"]);
    expect(&run("null", "true or false"), &["true"]);
    expect(&run("null", "not false"), &["true"]);
}

#[test]
fn comparisons() {
    expect(&run("null", "1 < 2"), &["true"]);
    expect(&run("null", "\"a\" < \"b\""), &["true"]);
    expect(&run("null", "2 == 2"), &["true"]);
    expect(&run("null", "2 != 2"), &["false"]);
}

#[test]
fn object_and_array_construction() {
    expect(&run("{\"a\":5}", "{\"k\": .a}"), &["{\"k\":5}"]);
    expect(&run("{\"a\":5}", "[.a, 1]"), &["[5,1]"]);
}

#[test]
fn abs_of_negative() {
    expect(&run("-3", "abs"), &["3"]);
}

#[test]
fn errors_are_reported() {
    let value = doc("5");
    let program = parse(".[]").expect("the filter should parse");
    assert!(interpret(vec![value], program).is_err());
    let v2 = doc("{\"a\":1}");
    let p2 = parse(". + 1").expect("the filter should parse");
    assert!(interpret(vec![v2], p2).is_err());
}

#[test]
fn print_parse_round_trip() {
    for text in [
        "null",
        "true",
        "[1,2,3]",
        "{\"a\":{\"b\":[1,2]},\"c\":\"x\\ny\"}",
        "\"quote \\\" and slash \\\\\"",
    ] {
        let v = doc(text);
        let printed = to_text(&v);
        let again = doc(&printed);
        assert_eq!(v, again);
    }
}

#[test]
fn unicode_escapes_above_the_surrogates() {
    let v = doc("\"\\uE000\\uFFFD\"");
    match &v {
        Json::String(s) => {
            let chars: Vec<char> = s.chars().collect();
            assert_eq!(chars, vec!['\u{E000}', '\u{FFFD}']);
        }
        _ => panic!("expected a string"),
    }
}

#[test]
fn unknown_escape_keeps_its_backslash() {
    let v = doc("\"a\\qb\"");
    match &v {
        Json::String(s) => assert_eq!(s, "a\\qb"),
        _ => panic!("expected a string"),
    }
}

#[test]
fn large_numbers_print_in_the_grammar() {
    let v = doc("100000000000000000000");
    let printed = to_text(&v);
    assert!(!printed.contains('+'));
    let again = doc(&printed);
    assert_eq!(v, again);
}

#[test]
fn comparison_chain_groups_like_the_search_order() {
    let a = parse("1 > 2 >= 3").expect("parse");
    match a {
        minijq::jq::Jq::Gt(_, right) => {
            assert!(matches!(*right, minijq::jq::Jq::Gte(_, _)));
        }
        _ => panic!("expected the split at the first ordering operator"),
    }
}

#[test]
fn hash_respects_equality() {
    let a = parse(".a.b[1] + 2").expect("parse");
    let b = parse(".a.b[1] + 2").expect("parse");
    assert_eq!(a, b);
    assert_eq!(a.hash(), b.hash());
    let c = parse(".a.b[2] + 2").expect("parse");
    assert!(!(a == c));
}

#[test]
fn parse_round_trip_equivalent_text() {
    let a = parse(".a | .b").expect("parse");
    let b = parse(" .a | .b ").expect("parse");
    assert_eq!(a, b);
}
