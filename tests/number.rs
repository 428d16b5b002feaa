use jtd_infer::{InferredNumber, JsonNumber, NumType, Type};

fn whole(v: i64) -> JsonNumber {
    JsonNumber::from_i64(v)
}

#[test]
fn inferred_number() {
    let n = InferredNumber::new();

    // At first, default always honored.
    assert_eq!(Type::Uint8, n.into_type(&NumType::Uint8));
    assert_eq!(Type::Int8, n.into_type(&NumType::Int8));
    assert_eq!(Type::Uint16, n.into_type(&NumType::Uint16));
    assert_eq!(Type::Int16, n.into_type(&NumType::Int16));
    assert_eq!(Type::Uint32, n.into_type(&NumType::Uint32));
    assert_eq!(Type::Int32, n.into_type(&NumType::Int32));
    assert_eq!(Type::Float32, n.into_type(&NumType::Float32));
    assert_eq!(Type::Float64, n.into_type(&NumType::Float64));

    // Test expanding to limits of uint8.
    let n = InferredNumber::new()
        .infer(whole(u8::MIN as i64))
        .infer(whole(u8::MAX as i64));

    assert_eq!(Type::Uint8, n.into_type(&NumType::Uint8));
    assert_eq!(Type::Uint8, n.into_type(&NumType::Int8));
    assert_eq!(Type::Uint16, n.into_type(&NumType::Uint16));
    assert_eq!(Type::Int16, n.into_type(&NumType::Int16));
    assert_eq!(Type::Uint32, n.into_type(&NumType::Uint32));
    assert_eq!(Type::Int32, n.into_type(&NumType::Int32));
    assert_eq!(Type::Float32, n.into_type(&NumType::Float32));
    assert_eq!(Type::Float64, n.into_type(&NumType::Float64));

    // Test expanding to limits of int8.
    let n = InferredNumber::new()
        .infer(whole(i8::MIN as i64))
        .infer(whole(i8::MAX as i64));

    assert_eq!(Type::Int8, n.into_type(&NumType::Uint8));
    assert_eq!(Type::Int8, n.into_type(&NumType::Int8));
    assert_eq!(Type::Int8, n.into_type(&NumType::Uint16));
    assert_eq!(Type::Int16, n.into_type(&NumType::Int16));
    assert_eq!(Type::Int8, n.into_type(&NumType::Uint32));
    assert_eq!(Type::Int32, n.into_type(&NumType::Int32));
    assert_eq!(Type::Float32, n.into_type(&NumType::Float32));
    assert_eq!(Type::Float64, n.into_type(&NumType::Float64));

    // Test including a non-integer: 0.5, rounded down to 0.
    let n = InferredNumber::new().infer(JsonNumber::from_floor(0));
    assert_eq!(Type::Float64, n.into_type(&NumType::Uint8));
    assert_eq!(Type::Float64, n.into_type(&NumType::Int8));
    assert_eq!(Type::Float64, n.into_type(&NumType::Uint16));
    assert_eq!(Type::Float64, n.into_type(&NumType::Int16));
    assert_eq!(Type::Float64, n.into_type(&NumType::Uint32));
    assert_eq!(Type::Float64, n.into_type(&NumType::Int32));
    assert_eq!(Type::Float32, n.into_type(&NumType::Float32));
    assert_eq!(Type::Float64, n.into_type(&NumType::Float64));
}

fn narrowest(v: i64) -> Type {
    InferredNumber::new().infer(whole(v)).into_type(&NumType::Uint8)
}

#[test]
fn number_boundaries_pick_narrowest_type() {
    assert_eq!(Type::Uint8, narrowest(0));
    assert_eq!(Type::Uint8, narrowest(127));
    assert_eq!(Type::Uint8, narrowest(128));
    assert_eq!(Type::Uint8, narrowest(255));
    assert_eq!(Type::Uint16, narrowest(256));
    assert_eq!(Type::Int8, narrowest(-1));
    assert_eq!(Type::Int8, narrowest(-128));
    assert_eq!(Type::Int16, narrowest(-129));
    assert_eq!(Type::Uint16, narrowest(65535));
    assert_eq!(Type::Uint32, narrowest(65536));
    assert_eq!(Type::Uint32, narrowest((1i64 << 31) - 1));
    assert_eq!(Type::Uint32, narrowest(1i64 << 31));
    assert_eq!(Type::Uint32, narrowest((1i64 << 32) - 1));
    assert_eq!(Type::Float64, narrowest(1i64 << 32));
    assert_eq!(Type::Int32, narrowest(-(1i64 << 31)));
    assert_eq!(Type::Float64, narrowest(-(1i64 << 31) - 1));
}

#[test]
fn number_range_spans_observations() {
    let n = InferredNumber::new().infer(whole(-5)).infer(whole(300));
    assert_eq!(-5, n.min);
    assert_eq!(300, n.max);
    assert!(n.integral);
    assert_eq!(Type::Int16, n.into_type(&NumType::Uint8));
}

#[test]
fn number_non_integral_forces_float() {
    let n = InferredNumber::new().infer(whole(3)).infer(JsonNumber::from_floor(2));
    assert!(!n.integral);
    assert_eq!(Type::Float64, n.into_type(&NumType::Uint8));
    assert_eq!(Type::Float32, n.into_type(&NumType::Float32));
}

#[test]
fn number_default_float32_kept_for_integers() {
    let n = InferredNumber::new().infer(whole(5));
    assert_eq!(Type::Float32, n.into_type(&NumType::Float32));
    assert_eq!(Type::Int32, n.into_type(&NumType::Int32));
}
