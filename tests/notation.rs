use mathsparser::canon::collapse_natural_numbers;
use mathsparser::objects::{MathsObject, MathsSet, NaturalNumber, OrderedPair, ToMathsSet};
use mathsparser::parser::{MathsParser, ParseError};

fn parse(text: &str) -> MathsObject {
    match MathsParser::from_string(text) {
        Ok(o) => o,
        Err(e) => panic!("{:?} on {}", e, text),
    }
}

fn parse_err(text: &str) -> ParseError {
    match MathsParser::from_string(text) {
        Ok(o) => panic!("parsed {} as {}", text, o.to_string()),
        Err(e) => e,
    }
}

fn natural(n: u32) -> MathsObject {
    MathsObject::NaturalNumber(NaturalNumber { natural_number: n })
}

fn set_len(o: &MathsObject) -> usize {
    match o {
        MathsObject::MathsSet(s) => s.elements.len(),
        _ => panic!("not a set: {}", o.to_string()),
    }
}

#[test]
fn numbers_round_trip() {
    for n in 0u32..12 {
        let o = parse(&n.to_string());
        match &o {
            MathsObject::NaturalNumber(v) => assert_eq!(v.natural_number, n),
            _ => panic!("not a number"),
        }
        let reduced = NaturalNumber { natural_number: n }.to_maths_set();
        assert_eq!(reduced.elements.len(), n as usize);
    }
    match parse("4294967295") {
        MathsObject::NaturalNumber(v) => assert_eq!(v.natural_number, u32::MAX),
        _ => panic!("not a number"),
    }
}

#[test]
fn permutations_are_equal() {
    let a = parse("{1,2,3}");
    let b = parse("{3,1,2}");
    assert!(a.equals(&b));
    assert!(a == b);
    assert_eq!(a.to_string(), "{1,2,3}");
    assert_eq!(b.to_string(), "{3,1,2}");
    assert!(!parse("{1,2}").equals(&parse("{1,3}")));
}

#[test]
fn duplicates_are_skipped() {
    let a = parse("{1,1,2}");
    assert_eq!(set_len(&a), 2);
    assert!(a.equals(&parse("{1,2}")));
    assert_eq!(a.to_string(), "{1,2}");
    assert_eq!(set_len(&parse("{{1,2},{2,1},3}")), 2);
}

#[test]
fn pairs_round_trip() {
    let p = parse("(1,2)");
    assert!(matches!(p, MathsObject::OrderedPair(_)));
    assert_eq!(p.to_string(), "(1,2)");
    let k = parse("{{1},{1,2}}");
    assert!(matches!(k, MathsObject::OrderedPair(_)));
    assert_eq!(k.to_string(), "(1,2)");
    let direct = OrderedPair { pair: (natural(1), natural(2)) }.to_maths_set();
    assert!(k.to_maths_set().equals(&direct));
    assert!(k.equals(&p));
    assert_eq!(parse("{{1,2},{1}}").to_string(), "(1,2)");
    assert_eq!(parse("{{2},{1,2}}").to_string(), "(2,1)");
    assert!(!parse("(1,2)").equals(&parse("(2,1)")));
}

#[test]
fn degenerate_pair() {
    let p = parse("(1,1)");
    let reduced = p.to_maths_set();
    assert_eq!(reduced.elements.len(), 1);
    assert_eq!(MathsObject::MathsSet(reduced).to_string(), "{{1}}");
    assert!(p.equals(&parse("{{1}}")));
    let zero = OrderedPair { pair: (natural(0), natural(0)) }.to_maths_set();
    assert_eq!(zero.elements.len(), 1);
    let distinct = OrderedPair { pair: (natural(0), natural(1)) }.to_maths_set();
    assert_eq!(distinct.elements.len(), 2);
}

#[test]
fn pair_is_not_a_number() {
    assert!(!parse("(0,0)").equals(&natural(1)));
    assert!(!natural(2).equals(&parse("(0,1)")));
    assert!(!parse("(0,0)").equals(&natural(0)));
}

#[test]
fn sets_equal_numbers_by_reduction() {
    assert!(parse("{0,1}").equals(&natural(2)));
    assert!(natural(3).equals(&parse("{2,1,0}")));
    assert!(parse("{}").equals(&natural(0)));
    assert!(!parse("{1}").equals(&natural(1)));
    assert!(!natural(4).equals(&natural(5)));
    assert!(natural(7).equals(&natural(7)));
}

#[test]
fn collapse_is_idempotent() {
    let samples = ["{}", "{{}}", "{{},{{}}}", "({},{{}})", "{0,1}", "{{},{{},{{}}}}", "", "x{}y"];
    for s in samples {
        let once = collapse_natural_numbers(s);
        assert_eq!(collapse_natural_numbers(&once), once);
    }
}

#[test]
fn collapse_values() {
    assert_eq!(collapse_natural_numbers("{}"), "0");
    assert_eq!(collapse_natural_numbers("{{}}"), "1");
    assert_eq!(collapse_natural_numbers("{{},{{}}}"), "2");
    assert_eq!(collapse_natural_numbers("({},{{}})"), "(0,1)");
    assert_eq!(collapse_natural_numbers("{1,2}"), "{1,2}");
    assert_eq!(collapse_natural_numbers("{{{}}}"), "{1}");
    let three = MathsObject::MathsSet(NaturalNumber { natural_number: 3 }.to_maths_set());
    assert_eq!(three.to_string(), "{{},{{}},{{},{{}}}}");
    assert_eq!(MathsParser::replace_natural_numbers(three), "3");
}

#[test]
fn nesting_is_respected() {
    let o = parse("{{1,2},{3,{4,5}}}");
    assert_eq!(set_len(&o), 2);
    assert_eq!(o.to_string(), "{{1,2},{3,{4,5}}}");
    let p = parse("({1,2},(3,{4,5}))");
    assert_eq!(p.to_string(), "({1,2},(3,{4,5}))");
}

#[test]
fn empty_set_literal() {
    let o = parse("{}");
    assert_eq!(o.to_string(), "{}");
    assert_eq!(set_len(&o), 0);
    assert_eq!(NaturalNumber { natural_number: 0 }.to_maths_set().elements.len(), 0);
}

#[test]
fn error_kinds() {
    assert_eq!(parse_err(""), ParseError::EmptyInput);
    assert_eq!(parse_err("   "), ParseError::EmptyInput);
    assert_eq!(parse_err("()"), ParseError::EmptySegment);
    assert_eq!(parse_err("{,}"), ParseError::EmptySegment);
    assert_eq!(parse_err("abc"), ParseError::InvalidNumber);
    assert_eq!(parse_err("{1,,2}"), ParseError::EmptySegment);
    assert_eq!(parse_err("(1,)"), ParseError::EmptySegment);
    assert_eq!(parse_err("{1"), ParseError::UnmatchedBracket);
    assert_eq!(parse_err("(1,2"), ParseError::UnmatchedBracket);
    assert_eq!(parse_err("(1)"), ParseError::MalformedPair);
    assert_eq!(parse_err("(1,2,3)"), ParseError::MalformedPair);
    assert_eq!(parse_err("-1"), ParseError::InvalidNumber);
    assert_eq!(parse_err("4294967296"), ParseError::InvalidNumber);
    assert_eq!(parse_err("{1, 2}"), ParseError::InvalidNumber);
    assert_eq!(parse_err("{1}abc"), ParseError::InvalidNumber);
    assert_eq!(parse_err("{{2}x}"), ParseError::InvalidNumber);
    assert_eq!(parse_err("(1,2)3"), ParseError::InvalidNumber);
    assert_eq!(parse_err("{1}}"), ParseError::InvalidNumber);
}

#[test]
fn literal_forms() {
    assert_eq!(parse("-0").to_string(), "0");
    assert_eq!(parse("  {1,2}\n").to_string(), "{1,2}");
    assert_eq!(parse("{1,}").to_string(), "{1}");
    assert_eq!(parse("007").to_string(), "7");
}

#[test]
fn set_equality_and_clone() {
    let a = parse("{1,{2,3}}");
    let b = a.clone();
    assert!(a.equals(&b));
    assert_eq!(b.to_string(), "{1,{2,3}}");
    let s = MathsSet { elements: vec![natural(1), natural(2)] };
    let t = MathsSet { elements: vec![natural(2), natural(1)] };
    assert!(s.equals(&t));
    assert!(s == t);
    assert!(s.to_ordered_pair().is_none());
}

#[test]
fn large_numbers_compare_by_value() {
    let o = parse("{100000,200000,100000}");
    assert_eq!(set_len(&o), 2);
    assert!(!natural(4000000000).equals(&natural(4000000001)));
    assert!(!parse("(3000000,1)").equals(&natural(3000000)));
    assert!(!natural(3000000).equals(&parse("(3000000,1)")));
}
