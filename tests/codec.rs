use ddql_executor::number::same_number;
use ddql_executor::attr_value::{decode_value, encode_value, AttrValue, AttributeValue};
use ddql_executor::literal::Literal;

fn s(v: &str) -> AttributeValue {
    AttributeValue { s: Some(v.to_string()), ..AttributeValue::empty() }
}

#[test]
fn string_round_trip() {
    match AttrValue::from_string("hello".to_string()).to_literal() {
        Some(Literal::String(t)) => assert_eq!(t, "hello"),
        _ => panic!("expected a string"),
    }
}

#[test]
fn number_round_trip_keeps_text() {
    match AttrValue::from_number("1.50".to_string()).to_literal() {
        Some(Literal::Number(t)) => assert_eq!(t, "1.50"),
        _ => panic!("expected a number"),
    }
}

#[test]
fn binary_round_trip() {
    match AttrValue::from_binary(vec![1, 2, 255]).to_literal() {
        Some(Literal::Binary(b)) => assert_eq!(b, vec![1, 2, 255]),
        _ => panic!("expected bytes"),
    }
}

#[test]
fn empty_value_decodes_to_nothing() {
    assert!(decode_value(&AttributeValue::empty()).is_none());
    assert_eq!(AttrValue::new(AttributeValue::empty()).to_text(), "--EMPTY--");
}

#[test]
fn map_drops_untagged_child() {
    let a = AttributeValue {
        m: Some(vec![("good".to_string(), s("x")), ("bad".to_string(), AttributeValue::empty())]),
        ..AttributeValue::empty()
    };
    match decode_value(&a) {
        Some(Literal::Mapping(entries)) => {
            assert_eq!(entries.len(), 1);
            assert_eq!(entries[0].0, "good");
            assert!(matches!(&entries[0].1, Literal::String(t) if t == "x"));
        },
        _ => panic!("expected a map"),
    }
}

#[test]
fn list_drops_untagged_child() {
    let a = AttributeValue {
        l: Some(vec![s("a"), AttributeValue::empty(), AttributeValue { bool: Some(true), ..AttributeValue::empty() }]),
        ..AttributeValue::empty()
    };
    match decode_value(&a) {
        Some(Literal::List(items)) => {
            assert_eq!(items.len(), 2);
            assert!(matches!(items[1], Literal::Boolean(true)));
        },
        _ => panic!("expected a list"),
    }
}

#[test]
fn precedence_null_before_string() {
    let a = AttributeValue { null: Some(true), s: Some("x".to_string()), ..AttributeValue::empty() };
    assert!(matches!(decode_value(&a), Some(Literal::Null)));
    let b = AttributeValue { s: Some("x".to_string()), n: Some("1".to_string()), ..AttributeValue::empty() };
    assert!(matches!(decode_value(&b), Some(Literal::String(_))));
}

#[test]
fn sets_decode() {
    let a = AttributeValue { ns: Some(vec!["1".to_string(), "2.5".to_string()]), ..AttributeValue::empty() };
    match decode_value(&a) {
        Some(Literal::NumberSet(v)) => assert_eq!(v, vec!["1".to_string(), "2.5".to_string()]),
        _ => panic!("expected a number set"),
    }
    let b = AttributeValue { bs: Some(vec![vec![0xab]]), ..AttributeValue::empty() };
    assert_eq!(AttrValue::new(b).to_text(), "[ab]");
}

#[test]
fn text_forms() {
    assert_eq!(AttrValue::from_string("Ann".to_string()).to_text(), "Ann");
    assert_eq!(AttrValue::from_number("30".to_string()).to_text(), "30");
    assert_eq!(AttrValue::from_binary(vec![0x0f, 0xa0]).to_text(), "0fa0");
    let b = AttributeValue { bool: Some(false), ..AttributeValue::empty() };
    assert_eq!(AttrValue::new(b).to_text(), "false");
    let n = AttributeValue { null: Some(true), ..AttributeValue::empty() };
    assert_eq!(AttrValue::new(n).to_text(), "null");
    let l = AttributeValue { l: Some(vec![s("a"), s("b")]), ..AttributeValue::empty() };
    assert_eq!(AttrValue::new(l).to_text(), "[a, b]");
    let m = AttributeValue { m: Some(vec![("k".to_string(), s("v"))]), ..AttributeValue::empty() };
    assert_eq!(AttrValue::new(m).to_text(), "{k: v}");
    let ss = AttributeValue { ss: Some(vec!["x".to_string(), "y".to_string()]), ..AttributeValue::empty() };
    assert_eq!(AttrValue::new(ss).to_text(), "[x, y]");
}

#[test]
fn nested_literal_round_trip() {
    let lit = Literal::Mapping(vec![
        ("n".to_string(), Literal::Number("007.10".to_string())),
        ("l".to_string(), Literal::List(vec![Literal::Null, Literal::Boolean(true), Literal::Binary(vec![9])])),
        ("ss".to_string(), Literal::StringSet(vec!["a".to_string()])),
    ]);
    let wire = encode_value(&lit);
    assert!(wire.m.is_some() && wire.s.is_none());
    let back = decode_value(&wire).unwrap();
    assert_eq!(back.to_text(), lit.to_text());
    assert_eq!(back.to_text(), "{n: 007.10, l: [null, true, 09], ss: [a]}");
    let v = AttrValue::from_literal(&Literal::Number("1e3".to_string()));
    assert_eq!(v.value.n, Some("1e3".to_string()));
}

#[test]
fn sets_drop_repeated_members() {
    let a = AttributeValue { ss: Some(vec!["a".to_string(), "b".to_string(), "a".to_string()]), ..AttributeValue::empty() };
    match decode_value(&a) {
        Some(Literal::StringSet(v)) => assert_eq!(v, vec!["a".to_string(), "b".to_string()]),
        _ => panic!("expected a string set"),
    }
    let n = AttributeValue {
        ns: Some(vec!["1".to_string(), "1.0".to_string(), "+01".to_string(), "2.50".to_string(), "2.5".to_string(), "-0".to_string(), "0.00".to_string()]),
        ..AttributeValue::empty()
    };
    match decode_value(&n) {
        Some(Literal::NumberSet(v)) => assert_eq!(v, vec!["1".to_string(), "2.50".to_string(), "-0".to_string()]),
        _ => panic!("expected a number set"),
    }
    let b = AttributeValue { bs: Some(vec![vec![1], vec![2], vec![1]]), ..AttributeValue::empty() };
    match decode_value(&b) {
        Some(Literal::BinarySet(v)) => assert_eq!(v, vec![vec![1], vec![2]]),
        _ => panic!("expected a binary set"),
    }
}

#[test]
fn map_keeps_first_of_repeated_keys() {
    let a = AttributeValue {
        m: Some(vec![("k".to_string(), s("1")), ("k".to_string(), s("2"))]),
        ..AttributeValue::empty()
    };
    assert_eq!(AttrValue::new(a).to_text(), "{k: 1}");
}

#[test]
fn number_keys() {
    assert!(same_number("10", "10.000"));
    assert!(same_number("-0.5", "-.50"));
    assert!(!same_number("1", "10"));
    assert!(same_number("1e3", "1000"));
    assert!(same_number("1.5E+2", "150.0"));
    assert!(same_number("12e-1", "1.2"));
    assert!(same_number("0e7", "-0.000"));
    assert!(!same_number("1e", "1"));
    assert!(!same_number("2e3", "200"));
    assert!(!same_number("-1", "1"));
    assert!(same_number("abc", "abc"));
}
