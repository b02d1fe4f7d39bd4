use warehouse_lab::model::{default_event_version, validate_identifier, Operation};
use warehouse_lab::text::{control, white_space};

fn operation() -> Operation {
    Operation { operation_id: "op-1".into(), owner_id: "owner-1".into(), sku: "sku-1".into(), delta: 1, event_version: 1 }
}

#[test]
fn accepts_valid_boundary_values() {
    let mut value = operation();
    value.delta = 1_000_000_000;
    assert!(value.validate().is_ok());
}

#[test]
fn rejects_invalid_business_values() {
    let mut value = operation();
    value.delta = 0;
    assert!(value.validate().is_err());
    value.delta = 1;
    value.operation_id = " op-1".into();
    assert!(value.validate().is_err());
    value.operation_id = "op-1".into();
    value.event_version = 2;
    assert!(value.validate().is_err());
}

#[test]
fn each_rule_has_its_message() {
    let length = "identifier must contain 1..=128 bytes";
    let shape = "identifier must not contain surrounding whitespace or control characters";
    assert_eq!(validate_identifier(""), Err(length));
    assert_eq!(validate_identifier(&"x".repeat(128)), Ok(()));
    assert_eq!(validate_identifier(&"x".repeat(129)), Err(length));
    assert_eq!(validate_identifier(&"\u{e9}".repeat(65)), Err(length));
    assert_eq!(validate_identifier("a b"), Ok(()));
    assert_eq!(validate_identifier("a "), Err(shape));
    assert_eq!(validate_identifier("\u{3000}a"), Err(shape));
    assert_eq!(validate_identifier("a\u{7f}b"), Err(shape));
    assert_eq!(validate_identifier("a\nb"), Err(shape));
    let mut value = operation();
    value.delta = -1_000_000_000;
    assert_eq!(value.validate(), Ok(()));
    for delta in [-1_000_000_001, 1_000_000_001, i64::MIN, i64::MAX] {
        value.delta = delta;
        assert_eq!(value.validate(), Err("delta absolute value must be <= 1000000000"));
    }
    value.delta = 0;
    assert_eq!(value.validate(), Err("delta must not be zero"));
    value.delta = 5;
    value.event_version = 0;
    assert_eq!(value.validate(), Err("unsupported event_version"));
    value.sku = String::new();
    assert_eq!(value.validate(), Err(length));
    assert_eq!(default_event_version(), 1);
}

#[test]
fn character_classes_agree_with_unicode() {
    for code in 0..=0x10_ffff_u32 {
        if let Some(c) = char::from_u32(code) {
            assert_eq!(white_space(c), c.is_whitespace(), "white space {code:x}");
            assert_eq!(control(c), c.is_control(), "control {code:x}");
        }
    }
}
