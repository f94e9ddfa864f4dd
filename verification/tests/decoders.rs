use neato_driver::{BoolField, IntField, ParseNumberError, SimpleFloatField, Toggle,
    UnitFloatField};

#[test]
fn int_field_parses_name_and_value() {
    let f = IntField::from_str("Brush_RPM, 123").unwrap();
    assert_eq!(f.name, "Brush_RPM");
    assert_eq!(f.value, 123);
}

#[test]
fn int_field_tolerates_whitespace_around_number() {
    let f = IntField::from_str("X,\t 42 \t").unwrap();
    assert_eq!(f.name, "X");
    assert_eq!(f.value, 42);
    let g = IntField::from_str("X,-7").unwrap();
    assert_eq!(g.value, -7);
    let h = IntField::from_str("X, +8 ").unwrap();
    assert_eq!(h.value, 8);
}

#[test]
fn int_field_errors() {
    assert_eq!(IntField::from_str("nocomma").unwrap_err(), ParseNumberError::Shape);
    assert_eq!(IntField::from_str("X,abc").unwrap_err(), ParseNumberError::ParseInt);
    assert_eq!(IntField::from_str("X,1.5").unwrap_err(), ParseNumberError::ParseInt);
    assert_eq!(IntField::from_str("X,").unwrap_err(), ParseNumberError::ParseInt);
    // out of the i32 range
    assert_eq!(IntField::from_str("X,2147483648").unwrap_err(), ParseNumberError::ParseInt);
    assert_eq!(IntField::from_str("X,-2147483649").unwrap_err(), ParseNumberError::ParseInt);
}

#[test]
fn int_field_range_edges() {
    assert_eq!(IntField::from_str("X,2147483647").unwrap().value, i32::MAX);
    assert_eq!(IntField::from_str("X,-2147483648").unwrap().value, i32::MIN);
}

#[test]
fn unit_float_field_parses_name_unit_and_value() {
    let f = UnitFloatField::from_str("BatteryVoltage,mV, 1.5").unwrap();
    assert_eq!(f.name, "BatteryVoltage");
    assert_eq!(f.unit, "mV");
    assert_eq!(f.value, "1.5");
    assert_eq!(f.value.parse::<f32>().unwrap(), 1.5f32);
}

#[test]
fn unit_float_field_errors() {
    assert_eq!(UnitFloatField::from_str("X,mV").unwrap_err(), ParseNumberError::Shape);
    assert_eq!(UnitFloatField::from_str("X,mV,abc").unwrap_err(), ParseNumberError::ParseFloat);
    assert_eq!(UnitFloatField::from_str("X,mV,1.2.3").unwrap_err(), ParseNumberError::ParseFloat);
}

#[test]
fn float_syntax_accepts_decimals_and_exponents() {
    assert_eq!(SimpleFloatField::from_str("V, -12.4 ").unwrap().value, "-12.4");
    assert_eq!(SimpleFloatField::from_str("V,5.").unwrap().value, "5.");
    assert_eq!(SimpleFloatField::from_str("V,.5").unwrap().value, ".5");
    assert_eq!(SimpleFloatField::from_str("V,1e5").unwrap().value, "1e5");
    assert_eq!(SimpleFloatField::from_str("V,-2.5E-3").unwrap().value, "-2.5E-3");
    assert_eq!("-2.5E-3".parse::<f32>().unwrap(), -0.0025f32);
}

#[test]
fn float_syntax_rejects_malformed_tokens() {
    for bad in ["", ".", "+", "1e", "e5", "1.2.3", "1 2", "0x10", "--1"] {
        let line = format!("V,{}", bad);
        assert!(
            SimpleFloatField::from_str(&line).is_err(),
            "token {:?} should be rejected",
            bad
        );
    }
}

#[test]
fn bool_field_one_is_true() {
    let f = BoolField::from_str("X,1").unwrap();
    assert_eq!(f.name, "X");
    assert!(f.value);
}

#[test]
fn bool_field_zero_is_false() {
    assert!(!BoolField::from_str("X,0").unwrap().value);
}

#[test]
fn bool_field_any_other_integer_is_false_not_an_error() {
    assert!(!BoolField::from_str("X,2").unwrap().value);
    assert!(!BoolField::from_str("X,-1").unwrap().value);
    assert!(!BoolField::from_str("X, 37 ").unwrap().value);
}

#[test]
fn bool_field_non_numeric_is_an_error() {
    assert_eq!(BoolField::from_str("X,true").unwrap_err(), ParseNumberError::ParseInt);
}

#[test]
fn toggle_serializes_as_on_and_off() {
    assert_eq!(Toggle::On.to_string(), "on");
    assert_eq!(Toggle::Off.to_string(), "off");
}
