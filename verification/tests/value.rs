use kdeconnect_bridge::dbus::value::{vstr, vvar, Piece, Value};

#[test]
fn signature_of_scalars() {
    assert_eq!(Value::Byte(1).signature(), "y");
    assert_eq!(Value::Bool(true).signature(), "b");
    assert_eq!(Value::Int32(-5).signature(), "i");
    assert_eq!(Value::Uint64(7).signature(), "t");
    assert_eq!(vstr("hi").signature(), "s");
}

#[test]
fn signature_of_containers() {
    assert_eq!(Value::Array("s".into(), vec![]).signature(), "as");
    assert_eq!(
        Value::Dict("s".into(), "v".into(), vec![]).signature(),
        "a{sv}"
    );
    assert_eq!(
        Value::Struct(vec![Value::Byte(1), vvar(vstr("x"))]).signature(),
        "(yv)"
    );
    assert_eq!(Value::Array("(yv)".into(), vec![]).signature(), "a(yv)");
}

#[test]
fn unwrap_variant_is_recursive() {
    let v = vvar(vvar(vstr("deep")));
    assert_eq!(v.unwrap_variant().as_str(), Some("deep"));
}

/// The compact form, with floating-point numbers written out.
fn shown(v: &Value) -> String {
    v.display()
        .into_iter()
        .map(|p| match p {
            Piece::Text(s) => s,
            Piece::Double(bits) => f64::from_bits(bits).to_string(),
        })
        .collect()
}

#[test]
fn compact_form() {
    assert_eq!(shown(&Value::Int64(i64::MIN)), "-9223372036854775808");
    assert_eq!(shown(&Value::Uint64(u64::MAX)), "18446744073709551615");
    assert_eq!(shown(&Value::Int16(-7)), "-7");
    assert_eq!(shown(&Value::Byte(0)), "0");
    assert_eq!(shown(&Value::Bool(false)), "false");
    assert_eq!(shown(&Value::Double(2.5f64.to_bits())), "2.5");
    assert_eq!(
        shown(&Value::Array("i".into(), vec![Value::Int32(1), Value::Int32(-2)])),
        "ai[1, -2]"
    );
    assert_eq!(
        shown(&Value::Struct(vec![vstr("a"), vvar(Value::Uint16(3)), Value::Struct(vec![])])),
        "(a, v(3), ())"
    );
    assert_eq!(
        shown(&Value::Dict(
            "s".into(),
            "u".into(),
            vec![(vstr("k"), Value::Uint32(1)), (vstr("l"), Value::Uint32(2))]
        )),
        "{k: 1, l: 2}"
    );
}

#[test]
fn accessors() {
    assert_eq!(Value::ObjectPath("/p".into()).as_str(), Some("/p"));
    assert_eq!(Value::Signature("s".into()).as_str(), Some("s"));
    assert_eq!(Value::Byte(1).as_str(), None);
    assert_eq!(Value::Int32(-4).as_i64(), Some(-4));
    assert_eq!(Value::Int64(-5).as_i64(), Some(-5));
    assert_eq!(Value::Uint32(5).as_i64(), None);
    assert_eq!(Value::Uint32(5).as_u32(), Some(5));
    assert_eq!(Value::Byte(5).as_byte(), Some(5));
    assert_eq!(Value::Bool(true).as_bool(), Some(true));
    assert_eq!(Value::Array("y".into(), vec![Value::Byte(1)]).as_array().unwrap().len(), 1);
    assert!(Value::Struct(vec![]).as_array().is_none());
    assert!(Value::Dict("s".into(), "s".into(), vec![]).as_dict().unwrap().is_empty());
    assert!(Value::Byte(1).as_dict().is_none());
}

#[test]
fn copies_are_equal() {
    let v = Value::Struct(vec![
        Value::Dict("s".into(), "v".into(), vec![(vstr("k"), vvar(Value::Double(1)))]),
        Value::Array("o".into(), vec![Value::ObjectPath("/x".into())]),
        Value::Signature("g".into()),
    ]);
    assert_eq!(v.clone(), v);
}
