use xdr_codec::{decode, decode_prefix, encode, Arm, DecodeError, Limits, Schema, Ty, Value};

fn no_names() -> Schema {
    Schema::new(Vec::new())
}

fn roomy() -> Limits {
    Limits::new(64, 1 << 20)
}

fn round_trip(schema: &Schema, ty: &Ty, v: &Value) -> Vec<u8> {
    assert!(schema.conforms(ty, v));
    let bytes = encode(schema, ty, v);
    assert_eq!(bytes.len() % 4, 0);
    assert_eq!(decode(schema, ty, &bytes, roomy()).as_ref(), Ok(v));
    bytes
}

/// A list node: a value and an optional next node.
fn node_schema() -> Schema {
    Schema::new(vec![Ty::Struct(vec![Ty::Int, Ty::Optional(Box::new(Ty::Named(0)))])])
}

/// A chain: arm 0 ends it, arm 1 nests one more chain.
fn chain_schema() -> Schema {
    Schema::new(vec![Ty::Union(vec![
        Arm { tag: 0, ty: Ty::Void },
        Arm { tag: 1, ty: Ty::Named(0) },
    ])])
}

/// Bytes of a chain nested `levels` deep: `levels - 1` times tag 1, then tag 0.
fn chain_bytes(levels: usize) -> Vec<u8> {
    let mut b = Vec::new();
    for _ in 1..levels {
        b.extend_from_slice(&[0, 0, 0, 1]);
    }
    b.extend_from_slice(&[0, 0, 0, 0]);
    b
}

#[test]
fn struct_with_absent_optional_and_short_string() {
    let schema = no_names();
    let ty = Ty::Struct(vec![Ty::Optional(Box::new(Ty::UInt)), Ty::Str(4)]);
    let v = Value::Struct(vec![Value::Optional(None), Value::Bytes(b"ab".to_vec())]);
    let bytes = encode(&schema, &ty, &v);
    assert_eq!(bytes, vec![0, 0, 0, 0, 0, 0, 0, 2, 0x61, 0x62, 0, 0]);
    assert_eq!(decode(&schema, &ty, &bytes, roomy()), Ok(v));
}

#[test]
fn scalars_are_big_endian() {
    let s = no_names();
    assert_eq!(round_trip(&s, &Ty::UInt, &Value::UInt(0x0102_0304)), vec![1, 2, 3, 4]);
    assert_eq!(round_trip(&s, &Ty::Int, &Value::Int(-1)), vec![0xff; 4]);
    assert_eq!(round_trip(&s, &Ty::Int, &Value::Int(i32::MIN)), vec![0x80, 0, 0, 0]);
    assert_eq!(
        round_trip(&s, &Ty::UHyper, &Value::UHyper(0x0102_0304_0506_0708)),
        vec![1, 2, 3, 4, 5, 6, 7, 8]
    );
    assert_eq!(round_trip(&s, &Ty::Hyper, &Value::Hyper(-2)), vec![0xff, 0xff, 0xff, 0xff, 0xff, 0xff, 0xff, 0xfe]);
    assert_eq!(round_trip(&s, &Ty::Hyper, &Value::Hyper(i64::MIN)), vec![0x80, 0, 0, 0, 0, 0, 0, 0]);
    assert_eq!(round_trip(&s, &Ty::Bool, &Value::Bool(true)), vec![0, 0, 0, 1]);
    assert_eq!(round_trip(&s, &Ty::Bool, &Value::Bool(false)), vec![0, 0, 0, 0]);
    assert_eq!(round_trip(&s, &Ty::Void, &Value::Void), Vec::<u8>::new());
}

#[test]
fn boolean_other_than_zero_or_one_is_rejected() {
    let s = no_names();
    assert_eq!(decode(&s, &Ty::Bool, &[0, 0, 0, 2], roomy()), Err(DecodeError::InvalidBoolean));
}

#[test]
fn opaque_data_is_padded_to_four_bytes() {
    let s = no_names();
    assert_eq!(round_trip(&s, &Ty::Opaque(3), &Value::Bytes(vec![7, 8, 9])), vec![7, 8, 9, 0]);
    assert_eq!(round_trip(&s, &Ty::Opaque(4), &Value::Bytes(vec![1, 2, 3, 4])), vec![1, 2, 3, 4]);
    assert_eq!(
        round_trip(&s, &Ty::VarOpaque(10), &Value::Bytes(vec![1, 2, 3, 4, 5])),
        vec![0, 0, 0, 5, 1, 2, 3, 4, 5, 0, 0, 0]
    );
    assert_eq!(round_trip(&s, &Ty::VarOpaque(0), &Value::Bytes(vec![])), vec![0, 0, 0, 0]);
}

#[test]
fn length_prefix_above_max_is_rejected() {
    let s = no_names();
    let over = [0, 0, 0, 5, 1, 2, 3, 4, 5, 0, 0, 0];
    assert_eq!(decode(&s, &Ty::VarOpaque(4), &over, roomy()), Err(DecodeError::LengthExceedsMax));
    assert_eq!(decode(&s, &Ty::Str(4), &over, roomy()), Err(DecodeError::LengthExceedsMax));
    let arr = Ty::VarArray(Box::new(Ty::UInt), 2);
    assert_eq!(decode(&s, &arr, &[0, 0, 0, 3], roomy()), Err(DecodeError::LengthExceedsMax));
    // a huge prefix is refused before anything is read or reserved for it
    assert_eq!(decode(&s, &arr, &[0xff, 0xff, 0xff, 0xff], roomy()), Err(DecodeError::LengthExceedsMax));
}

#[test]
fn length_prefix_at_max_is_accepted() {
    let s = no_names();
    round_trip(&s, &Ty::VarOpaque(4), &Value::Bytes(vec![1, 2, 3, 4]));
    round_trip(&s, &Ty::Str(5), &Value::Bytes(b"hello".to_vec()));
    let arr = Ty::VarArray(Box::new(Ty::UInt), 2);
    let bytes = round_trip(&s, &arr, &Value::Array(vec![Value::UInt(1), Value::UInt(2)]));
    assert_eq!(bytes, vec![0, 0, 0, 2, 0, 0, 0, 1, 0, 0, 0, 2]);
}

#[test]
fn values_over_their_bounds_do_not_conform() {
    let s = no_names();
    assert!(!s.conforms(&Ty::VarOpaque(2), &Value::Bytes(vec![1, 2, 3])));
    assert!(!s.conforms(&Ty::Opaque(2), &Value::Bytes(vec![1])));
    assert!(!s.conforms(&Ty::Array(Box::new(Ty::Int), 2), &Value::Array(vec![Value::Int(1)])));
    assert!(!s.conforms(&Ty::Int, &Value::UInt(1)));
    assert!(!s.conforms(&Ty::Enum(vec![1, 2]), &Value::Enum(3)));
    assert!(s.conforms(&Ty::Enum(vec![1, 2]), &Value::Enum(2)));
}

#[test]
fn nonzero_padding_is_rejected() {
    let s = no_names();
    let ty = Ty::Struct(vec![Ty::Int, Ty::VarOpaque(8)]);
    let v = Value::Struct(vec![Value::Int(3), Value::Bytes(vec![9])]);
    let good = round_trip(&s, &ty, &v);
    assert_eq!(good, vec![0, 0, 0, 3, 0, 0, 0, 1, 9, 0, 0, 0]);
    for i in 9..12 {
        let mut bad = good.clone();
        bad[i] = 1;
        assert_eq!(decode(&s, &ty, &bad, roomy()), Err(DecodeError::NonZeroPadding));
    }
    assert_eq!(decode(&s, &Ty::Opaque(1), &[5, 0, 0x80, 0], roomy()), Err(DecodeError::NonZeroPadding));
}

#[test]
fn enum_discriminants_are_checked() {
    let s = no_names();
    let ty = Ty::Enum(vec![0, 1, 2]);
    assert_eq!(decode(&s, &ty, &[0, 0, 0, 0], roomy()), Ok(Value::Enum(0)));
    assert_eq!(decode(&s, &ty, &[0, 0, 0, 2], roomy()), Ok(Value::Enum(2)));
    assert_eq!(decode(&s, &ty, &[0, 0, 0, 3], roomy()), Err(DecodeError::InvalidDiscriminant(3)));
    assert_eq!(decode(&s, &ty, &[0xff; 4], roomy()), Err(DecodeError::InvalidDiscriminant(-1)));
}

#[test]
fn union_discriminants_select_arms() {
    let s = no_names();
    let ty = Ty::Union(vec![
        Arm { tag: 0, ty: Ty::Void },
        Arm { tag: 1, ty: Ty::UInt },
        Arm { tag: 2, ty: Ty::Bool },
    ]);
    assert_eq!(round_trip(&s, &ty, &Value::Union(0, Box::new(Value::Void))), vec![0, 0, 0, 0]);
    assert_eq!(
        round_trip(&s, &ty, &Value::Union(2, Box::new(Value::Bool(true)))),
        vec![0, 0, 0, 2, 0, 0, 0, 1]
    );
    assert_eq!(decode(&s, &ty, &[0, 0, 0, 3, 0, 0, 0, 0], roomy()), Err(DecodeError::InvalidDiscriminant(3)));
    assert!(!s.conforms(&ty, &Value::Union(3, Box::new(Value::Void))));
    assert!(!s.conforms(&ty, &Value::Union(1, Box::new(Value::Void))));
}

#[test]
fn optional_flag_must_be_zero_or_one() {
    let s = no_names();
    let ty = Ty::Optional(Box::new(Ty::UInt));
    assert_eq!(
        round_trip(&s, &ty, &Value::Optional(Some(Box::new(Value::UInt(5))))),
        vec![0, 0, 0, 1, 0, 0, 0, 5]
    );
    assert_eq!(decode(&s, &ty, &[0, 0, 0, 2, 0, 0, 0, 5], roomy()), Err(DecodeError::InvalidOptionFlag));
}

#[test]
fn nesting_to_the_limit_decodes_and_one_more_fails() {
    let s = chain_schema();
    assert!(s.check());
    let ty = Ty::Named(0);
    for levels in 1..6usize {
        let bytes = chain_bytes(levels);
        let limit = Limits::new(levels as u32, 1 << 20);
        assert!(decode(&s, &ty, &bytes, limit).is_ok());
        let short = Limits::new(levels as u32 - 1, 1 << 20);
        assert_eq!(decode(&s, &ty, &bytes, short), Err(DecodeError::DepthLimitExceeded));
    }
    let deep = chain_bytes(10_000);
    assert_eq!(decode(&s, &ty, &deep, Limits::new(500, 1 << 20)), Err(DecodeError::DepthLimitExceeded));
}

#[test]
fn recursive_list_round_trips() {
    let s = node_schema();
    assert!(s.check());
    let ty = Ty::Named(0);
    let tail = Value::Struct(vec![Value::Int(2), Value::Optional(None)]);
    let head = Value::Struct(vec![Value::Int(1), Value::Optional(Some(Box::new(tail)))]);
    let bytes = round_trip(&s, &ty, &head);
    assert_eq!(bytes, vec![0, 0, 0, 1, 0, 0, 0, 1, 0, 0, 0, 2, 0, 0, 0, 0]);
    // two nodes, each a struct holding an optional: four levels
    assert!(decode(&s, &ty, &bytes, Limits::new(4, 64)).is_ok());
    assert_eq!(decode(&s, &ty, &bytes, Limits::new(3, 64)), Err(DecodeError::DepthLimitExceeded));
}

#[test]
fn truncated_encodings_hit_end_of_input() {
    let s = node_schema();
    let ty = Ty::Struct(vec![Ty::Hyper, Ty::Str(9), Ty::Named(0)]);
    let v = Value::Struct(vec![
        Value::Hyper(-5),
        Value::Bytes(b"xdr".to_vec()),
        Value::Struct(vec![Value::Int(1), Value::Optional(None)]),
    ]);
    let bytes = round_trip(&s, &ty, &v);
    for k in 0..bytes.len() {
        assert_eq!(decode(&s, &ty, &bytes[..k], roomy()), Err(DecodeError::UnexpectedEof));
    }
}

#[test]
fn trailing_bytes_are_reported_or_left() {
    let s = no_names();
    let bytes = [0, 0, 0, 7, 0xaa, 0xbb, 0xcc, 0xdd];
    assert_eq!(decode(&s, &Ty::UInt, &bytes, roomy()), Err(DecodeError::TrailingBytes));
    assert_eq!(decode_prefix(&s, &Ty::UInt, &bytes, roomy()), Ok((Value::UInt(7), 4)));
}

#[test]
fn byte_budget_bounds_what_is_read() {
    let s = no_names();
    let bytes = [0, 0, 0, 0, 0, 0, 0, 9];
    assert_eq!(decode(&s, &Ty::UHyper, &bytes, Limits::new(8, 8)), Ok(Value::UHyper(9)));
    assert_eq!(decode(&s, &Ty::UHyper, &bytes, Limits::new(8, 7)), Err(DecodeError::UnexpectedEof));
    assert_eq!(decode_prefix(&s, &Ty::UInt, &bytes, Limits::new(8, 4)), Ok((Value::UInt(0), 4)));
}

#[test]
fn arrays_concatenate_their_elements() {
    let s = no_names();
    let ty = Ty::Array(Box::new(Ty::Opaque(1)), 3);
    let v = Value::Array(vec![Value::Bytes(vec![1]), Value::Bytes(vec![2]), Value::Bytes(vec![3])]);
    assert_eq!(round_trip(&s, &ty, &v), vec![1, 0, 0, 0, 2, 0, 0, 0, 3, 0, 0, 0]);
    let empty = Ty::VarArray(Box::new(Ty::Int), 0);
    assert_eq!(round_trip(&s, &empty, &Value::Array(vec![])), vec![0, 0, 0, 0]);
}

#[test]
fn schema_checks_refuse_dangling_or_aliased_names() {
    assert!(!Schema::new(vec![Ty::Named(0)]).check());
    assert!(!Schema::new(vec![Ty::Optional(Box::new(Ty::Named(3)))]).check());
    assert!(Schema::new(vec![Ty::Optional(Box::new(Ty::Named(0)))]).check());
    let s = node_schema();
    assert!(s.check_type(&Ty::Named(0)));
    assert!(!s.check_type(&Ty::Named(1)));
}
