use quipu::namespace::{XSD_BOOLEAN, XSD_DECIMAL, XSD_DOUBLE, XSD_INTEGER};
use quipu::numeric_value::{boolean, compare_exact, datatype, decimal, is_floating};
use quipu::value::Value;
use quipu::namespace::{BOBBIN, BOBBIN_IMPORTS, CODE_BASE, DEFAULT_BASE_NS};

#[test]
fn bobbin_vocabulary_is_the_aegis_base() {
    assert_eq!(BOBBIN, DEFAULT_BASE_NS);
    assert!(BOBBIN_IMPORTS.starts_with(DEFAULT_BASE_NS));
    assert!(CODE_BASE.starts_with("http://aegis.gastown.local/"));
    assert_ne!(CODE_BASE, DEFAULT_BASE_NS);
}

#[test]
fn exact_decimal_readings_follow_the_integer_and_decimal_grammar() {
    let typed = |s: &str, dt: &str| Value::Typed { lexical: s.into(), datatype: dt.into() };
    let reading = |v: &Value| decimal(v).map(|d| (d.unscaled, d.scale));
    // Written differently, read the same number; the terms stay distinct.
    let one = typed("01", XSD_INTEGER);
    assert_ne!(one, Value::Int(1));
    assert_eq!(reading(&one), Some(("01".to_string(), 0)));
    assert_eq!(compare_exact(&one, &Value::Int(1)), Some(0));
    assert_eq!(
        compare_exact(&typed("+184467440737095516160", XSD_INTEGER), &typed("184467440737095516160.0", XSD_DECIMAL)),
        Some(0)
    );
    assert_eq!(
        compare_exact(&typed("1.00000000000000000001", XSD_DECIMAL), &typed("1.00000000000000000002", XSD_DECIMAL)),
        Some(-1)
    );
    assert_eq!(compare_exact(&typed("9007199254740993", XSD_INTEGER), &Value::Int(9007199254740992)), Some(1));
    assert_eq!(reading(&typed("12.50", XSD_DECIMAL)), Some(("1250".to_string(), 2)));
    assert_eq!(reading(&typed("-.5", XSD_DECIMAL)), Some(("-5".to_string(), 1)));
    assert_eq!(reading(&typed("7.", XSD_DECIMAL)), Some(("7".to_string(), 0)));
    assert_eq!(reading(&Value::Int(-42)), Some(("-42".to_string(), 0)));
    // No exponent, no dot in an integer, at least one digit, one dot at most.
    assert_eq!(reading(&typed("1e2", XSD_DECIMAL)), None);
    assert_eq!(reading(&typed("1.5", XSD_INTEGER)), None);
    assert_eq!(reading(&typed(".", XSD_DECIMAL)), None);
    assert_eq!(reading(&typed("1.2.3", XSD_DECIMAL)), None);
    // Floating values have no exact reading.
    assert!(is_floating(&typed("0e0", XSD_DOUBLE)));
    assert_eq!(reading(&typed("1", XSD_DOUBLE)), None);
    assert_eq!(compare_exact(&typed("1", XSD_DOUBLE), &Value::Int(1)), None);
    assert_eq!(datatype(&Value::Int(3)).as_deref(), Some(XSD_INTEGER));
    assert_eq!(datatype(&Value::Ref(3)), None);
    // Booleans: `1` and `true` are the same truth value.
    assert_eq!(boolean(&typed("1", XSD_BOOLEAN)), Some(true));
    assert_eq!(boolean(&typed("0", XSD_BOOLEAN)), Some(false));
    assert_eq!(boolean(&typed("yes", XSD_BOOLEAN)), None);
    assert_eq!(boolean(&Value::Bool(true)), Some(true));
}
