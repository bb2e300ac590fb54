use dsconv::convert::cbor::Cbor;
use dsconv::convert::json::{Json, Number as JsonNumber};
use dsconv::convert::messagepack::MessagePack;
use dsconv::convert::ron::{Number as RonNumber, Ron};
use dsconv::convert::toml::{Datetime, Toml};
use dsconv::convert::yaml::{Number as YamlNumber, Yaml};
use dsconv::value::{Float, Value};

fn float(number: f64) -> Float {
    Float::from_bits(number.to_bits())
}

#[test]
fn cbor2ir() {
    assert_eq!(Cbor::Null.into_value().unwrap(), Value::Null);
    assert_eq!(
        Cbor::Bool(bool::default()).into_value().unwrap(),
        Value::Bool(bool::default())
    );
    assert_eq!(
        Cbor::Integer(i64::MIN.into()).into_value().unwrap(),
        Value::Integer(i64::MIN.into())
    );
    assert_eq!(
        Cbor::Integer(u64::MAX.into()).into_value().unwrap(),
        Value::Integer(u64::MAX.into())
    );
    assert_eq!(
        Cbor::Float(float(f64::default())).into_value().unwrap(),
        Value::Float(float(f64::default()))
    );
    assert!(Cbor::Bytes(vec![u8::MIN]).into_value().is_err());
    assert_eq!(
        Cbor::Text(String::default()).into_value().unwrap(),
        Value::String(String::default())
    );
    assert_eq!(
        Cbor::Array(vec![Cbor::Null]).into_value().unwrap(),
        Value::Array(vec![Value::Null])
    );
    assert_eq!(
        Cbor::Dict(
            vec![(Cbor::Text(String::default()), Cbor::Null)]
                .into_iter()
                .collect()
        )
        .into_value()
        .unwrap(),
        Value::Dict(vec![(String::default(), Value::Null)].into_iter().collect())
    );
    assert!(Cbor::Tag(u64::MIN, Box::new(Cbor::Null))
        .into_value()
        .is_err());

    assert!(
        Cbor::Dict(vec![(Cbor::Null, Cbor::Null)].into_iter().collect())
            .into_value()
            .is_err()
    );
}

#[test]
fn json2ir() {
    assert_eq!(Json::Null.into_value(), Value::Null);
    assert_eq!(
        Json::Bool(bool::default()).into_value(),
        Value::Bool(bool::default())
    );
    assert_eq!(
        Json::Number(i64::MIN.into()).into_value(),
        Value::Integer(i64::MIN.into())
    );
    assert_eq!(
        Json::Number(u64::MAX.into()).into_value(),
        Value::Integer(u64::MAX.into())
    );
    assert_eq!(
        Json::Number(JsonNumber::from_f64(float(f64::default())).unwrap()).into_value(),
        Value::Float(float(f64::default()))
    );
    assert_eq!(
        Json::String(String::default()).into_value(),
        Value::String(String::default())
    );
    assert_eq!(
        Json::Array(vec![Json::Null]).into_value(),
        Value::Array(vec![Value::Null])
    );
    assert_eq!(
        Json::Object(vec![(String::default(), Json::Null)].into_iter().collect()).into_value(),
        Value::Dict(vec![(String::default(), Value::Null)].into_iter().collect())
    );
}

#[test]
fn messagepack2ir() {
    assert_eq!(MessagePack::Nil.into_value().unwrap(), Value::Null);
    assert_eq!(
        MessagePack::Boolean(bool::default()).into_value().unwrap(),
        Value::Bool(bool::default())
    );
    assert_eq!(
        MessagePack::Integer(i64::MIN.into()).into_value().unwrap(),
        Value::Integer(i64::MIN.into())
    );
    assert_eq!(
        MessagePack::Integer(u64::MAX.into()).into_value().unwrap(),
        Value::Integer(u64::MAX.into())
    );
    assert_eq!(
        MessagePack::F32(float(f64::from(f32::default())))
            .into_value()
            .unwrap(),
        Value::Float(float(f64::default()))
    );
    assert_eq!(
        MessagePack::F64(float(f64::default())).into_value().unwrap(),
        Value::Float(float(f64::default()))
    );
    assert_eq!(
        MessagePack::String(String::default().into())
            .into_value()
            .unwrap(),
        Value::String(String::default())
    );
    assert!(MessagePack::Binary(vec![u8::MIN]).into_value().is_err());
    assert_eq!(
        MessagePack::Array(vec![MessagePack::Nil])
            .into_value()
            .unwrap(),
        Value::Array(vec![Value::Null])
    );
    assert_eq!(
        MessagePack::Dict(
            vec![(
                MessagePack::String(String::default().into()),
                MessagePack::Nil
            )]
            .into_iter()
            .collect()
        )
        .into_value()
        .unwrap(),
        Value::Dict(vec![(String::default(), Value::Null)].into_iter().collect())
    );
    assert!(MessagePack::Ext(i8::default(), vec![u8::MIN])
        .into_value()
        .is_err());

    assert!(MessagePack::Dict(
        vec![(MessagePack::Nil, MessagePack::Nil)]
            .into_iter()
            .collect()
    )
    .into_value()
    .is_err());
}

#[test]
fn ron2ir() {
    assert_eq!(
        Ron::Bool(bool::default()).into_value().unwrap(),
        Value::Bool(bool::default())
    );
    assert_eq!(
        Ron::Char(char::default()).into_value().unwrap(),
        Value::String(char::default().into())
    );
    assert_eq!(
        Ron::Dict(
            vec![(Ron::String(String::default()), Ron::Bool(bool::default()))]
                .into_iter()
                .collect()
        )
        .into_value()
        .unwrap(),
        Value::Dict(
            vec![(String::default(), Value::Bool(bool::default()))]
                .into_iter()
                .collect()
        )
    );
    assert_eq!(
        Ron::Number(i64::default().into()).into_value().unwrap(),
        Value::Integer(i64::default().into())
    );
    assert_eq!(
        Ron::Number(float(f64::default()).into())
            .into_value()
            .unwrap(),
        Value::Float(float(f64::default()))
    );
    assert!(Ron::Option(Option::default()).into_value().is_err());
    assert_eq!(
        Ron::String(String::default()).into_value().unwrap(),
        Value::String(String::default())
    );
    assert_eq!(
        Ron::Sequence(vec![Ron::Bool(bool::default())])
            .into_value()
            .unwrap(),
        Value::Array(vec![Value::Bool(bool::default())])
    );
    assert!(Ron::Unit.into_value().is_err());

    assert!(Ron::Dict(
        vec![(Ron::Bool(bool::default()), Ron::Bool(bool::default()))]
            .into_iter()
            .collect()
    )
    .into_value()
    .is_err());
}

#[test]
fn toml2ir() {
    assert_eq!(
        Toml::String(String::default()).into_value(),
        Value::String(String::default())
    );
    assert_eq!(
        Toml::Integer(i64::default()).into_value(),
        Value::Integer(i64::default().into())
    );
    assert_eq!(
        Toml::Float(float(f64::default())).into_value(),
        Value::Float(float(f64::default()))
    );
    assert_eq!(
        Toml::Boolean(bool::default()).into_value(),
        Value::Bool(bool::default())
    );
    assert_eq!(
        Toml::Datetime(Datetime::parse("1970-01-01T00:00:00Z").unwrap()).into_value(),
        Value::String("1970-01-01T00:00:00Z".to_string())
    );
    assert_eq!(
        Toml::Array(vec![Toml::Boolean(bool::default())]).into_value(),
        Value::Array(vec![Value::Bool(bool::default())])
    );
    assert_eq!(
        Toml::Table(
            vec![(String::default(), Toml::Boolean(bool::default()))]
                .into_iter()
                .collect()
        )
        .into_value(),
        Value::Dict(
            vec![(String::default(), Value::Bool(bool::default()))]
                .into_iter()
                .collect()
        )
    );
}

#[test]
fn yaml2ir() {
    assert_eq!(Yaml::Null.into_value().unwrap(), Value::Null);
    assert_eq!(
        Yaml::Bool(bool::default()).into_value().unwrap(),
        Value::Bool(bool::default())
    );
    assert_eq!(
        Yaml::Number(i64::MIN.into()).into_value().unwrap(),
        Value::Integer(i64::MIN.into())
    );
    assert_eq!(
        Yaml::Number(u64::MAX.into()).into_value().unwrap(),
        Value::Integer(u64::MAX.into())
    );
    assert_eq!(
        Yaml::Number(float(f64::default()).into())
            .into_value()
            .unwrap(),
        Value::Float(float(f64::default()))
    );
    assert_eq!(
        Yaml::String(String::default()).into_value().unwrap(),
        Value::String(String::default())
    );
    assert_eq!(
        Yaml::Sequence(vec![Yaml::Null]).into_value().unwrap(),
        Value::Array(vec![Value::Null])
    );
    assert_eq!(
        Yaml::Mapping(
            vec![(Yaml::String(String::default()), Yaml::Null)]
                .into_iter()
                .collect()
        )
        .into_value()
        .unwrap(),
        Value::Dict(vec![(String::default(), Value::Null)].into_iter().collect())
    );

    assert!(
        Yaml::Mapping(vec![(Yaml::Null, Yaml::Null)].into_iter().collect())
            .into_value()
            .is_err()
    );
}

#[test]
fn ir2cbor() {
    assert_eq!(Cbor::from_value(Value::Null), Cbor::Null);
    assert_eq!(
        Cbor::from_value(Value::Bool(bool::default())),
        Cbor::Bool(bool::default())
    );
    assert_eq!(
        Cbor::from_value(Value::Integer(i64::MIN.into())),
        Cbor::Integer(i64::MIN.into())
    );
    assert_eq!(
        Cbor::from_value(Value::Integer(u64::MAX.into())),
        Cbor::Integer(u64::MAX.into())
    );
    assert_eq!(
        Cbor::from_value(Value::Float(float(f64::default()))),
        Cbor::Float(float(f64::default()))
    );
    assert_eq!(
        Cbor::from_value(Value::String(String::default())),
        Cbor::Text(String::default())
    );
    assert_eq!(
        Cbor::from_value(Value::Array(vec![Value::Null])),
        Cbor::Array(vec![Cbor::Null])
    );
    assert_eq!(
        Cbor::from_value(Value::Dict(
            vec![(String::default(), Value::Null)].into_iter().collect()
        )),
        Cbor::Dict(
            vec![(Cbor::Text(String::default()), Cbor::Null)]
                .into_iter()
                .collect()
        )
    );
}

#[test]
fn ir2json() {
    assert_eq!(Json::from_value(Value::Null).unwrap(), Json::Null);
    assert_eq!(
        Json::from_value(Value::Bool(bool::default())).unwrap(),
        Json::Bool(bool::default())
    );
    assert_eq!(
        Json::from_value(Value::Integer(i64::MIN.into())).unwrap(),
        Json::Number(i64::MIN.into())
    );
    assert_eq!(
        Json::from_value(Value::Integer(u64::MAX.into())).unwrap(),
        Json::Number(u64::MAX.into())
    );
    assert_eq!(
        Json::from_value(Value::Float(float(f64::default()))).unwrap(),
        Json::Number(JsonNumber::from_f64(float(f64::default())).unwrap())
    );
    assert_eq!(
        Json::from_value(Value::String(String::default())).unwrap(),
        Json::String(String::default())
    );
    assert_eq!(
        Json::from_value(Value::Array(vec![Value::Null])).unwrap(),
        Json::Array(vec![Json::Null])
    );
    assert_eq!(
        Json::from_value(Value::Dict(
            vec![(String::default(), Value::Null)].into_iter().collect()
        ))
        .unwrap(),
        Json::Object(vec![(String::default(), Json::Null)].into_iter().collect())
    );

    assert!(Json::from_value(Value::Float(float(f64::NAN))).is_err());
    assert!(Json::from_value(Value::Float(float(f64::INFINITY))).is_err());
    assert!(Json::from_value(Value::Float(float(f64::NEG_INFINITY))).is_err());
}

#[test]
fn ir2messagepack() {
    assert_eq!(MessagePack::from_value(Value::Null), MessagePack::Nil);
    assert_eq!(
        MessagePack::from_value(Value::Bool(bool::default())),
        MessagePack::Boolean(bool::default())
    );
    assert_eq!(
        MessagePack::from_value(Value::Integer(i64::MIN.into())),
        MessagePack::Integer(i64::MIN.into())
    );
    assert_eq!(
        MessagePack::from_value(Value::Integer(u64::MAX.into())),
        MessagePack::Integer(u64::MAX.into())
    );
    assert_eq!(
        MessagePack::from_value(Value::Float(float(f64::default()))),
        MessagePack::F64(float(f64::default()))
    );
    assert_eq!(
        MessagePack::from_value(Value::String(String::default())),
        MessagePack::String(String::default().into())
    );
    assert_eq!(
        MessagePack::from_value(Value::Array(vec![Value::Null])),
        MessagePack::Array(vec![MessagePack::Nil])
    );
    assert_eq!(
        MessagePack::from_value(Value::Dict(
            vec![(String::default(), Value::Null)].into_iter().collect()
        )),
        MessagePack::Dict(
            vec![(
                MessagePack::String(String::default().into()),
                MessagePack::Nil
            )]
            .into_iter()
            .collect()
        )
    );
}

#[test]
fn ir2toml() {
    assert!(Toml::from_value(Value::Null).is_err());
    assert_eq!(
        Toml::from_value(Value::Bool(bool::default())).unwrap(),
        Toml::Boolean(bool::default())
    );
    assert_eq!(
        Toml::from_value(Value::Integer(i64::default().into())).unwrap(),
        Toml::Integer(i64::default())
    );
    assert_eq!(
        Toml::from_value(Value::Float(float(f64::default()))).unwrap(),
        Toml::Float(float(f64::default()))
    );
    assert_eq!(
        Toml::from_value(Value::String("1970-01-01T00:00:00Z".to_string())).unwrap(),
        Toml::Datetime(Datetime::parse("1970-01-01T00:00:00Z").unwrap())
    );
    assert_eq!(
        Toml::from_value(Value::String(String::default())).unwrap(),
        Toml::String(String::default())
    );
    assert_eq!(
        Toml::from_value(Value::Array(vec![Value::Bool(bool::default())])).unwrap(),
        Toml::Array(vec![Toml::Boolean(bool::default())])
    );
    assert_eq!(
        Toml::from_value(Value::Dict(
            vec![(String::default(), Value::Bool(bool::default()))]
                .into_iter()
                .collect()
        ))
        .unwrap(),
        Toml::Table(
            vec![(String::default(), Toml::Boolean(bool::default()))]
                .into_iter()
                .collect()
        )
    );

    assert!(Toml::from_value(Value::Integer(u64::MAX.into())).is_err());
}

#[test]
fn ir2yaml() {
    assert_eq!(Yaml::from_value(Value::Null), Yaml::Null);
    assert_eq!(
        Yaml::from_value(Value::Bool(bool::default())),
        Yaml::Bool(bool::default())
    );
    assert_eq!(
        Yaml::from_value(Value::Integer(i64::MIN.into())),
        Yaml::Number(i64::MIN.into())
    );
    assert_eq!(
        Yaml::from_value(Value::Integer(u64::MAX.into())),
        Yaml::Number(u64::MAX.into())
    );
    assert_eq!(
        Yaml::from_value(Value::Float(float(f64::default()))),
        Yaml::Number(float(f64::default()).into())
    );
    assert_eq!(
        Yaml::from_value(Value::String(String::default())),
        Yaml::String(String::default())
    );
    assert_eq!(
        Yaml::from_value(Value::Array(vec![Value::Null])),
        Yaml::Sequence(vec![Yaml::Null])
    );
    assert_eq!(
        Yaml::from_value(Value::Dict(
            vec![(String::default(), Value::Null)].into_iter().collect()
        )),
        Yaml::Mapping(
            vec![(Yaml::String(String::default()), Yaml::Null)]
                .into_iter()
                .collect()
        )
    );
}

#[test]
fn ron_number_keeps_the_two_kinds_apart() {
    assert_eq!(RonNumber::from(7i64).as_i64(), Some(7));
    assert_eq!(RonNumber::from(7i64).as_float(), None);
    assert_eq!(RonNumber::from(float(1.5)).as_i64(), None);
    assert_eq!(RonNumber::from(float(1.5)).as_float(), Some(float(1.5)));
}

#[test]
fn yaml_number_accessors() {
    assert_eq!(YamlNumber::from(-1i64).as_i64(), Some(-1));
    assert_eq!(YamlNumber::from(-1i64).as_u64(), None);
    assert_eq!(YamlNumber::from(u64::MAX).as_i64(), None);
    assert_eq!(YamlNumber::from(u64::MAX).as_u64(), Some(u64::MAX));
    assert_eq!(YamlNumber::from(float(f64::NAN)).as_float(), Some(float(f64::NAN)));
    assert_eq!(YamlNumber::from(float(2.0)).as_i64(), None);
    assert_eq!(YamlNumber::from(5u64), YamlNumber::from(5i64));
}

#[test]
fn json_number_accessors() {
    assert_eq!(JsonNumber::from(i64::MIN).as_i64(), Some(i64::MIN));
    assert_eq!(JsonNumber::from(i64::MIN).as_u64(), None);
    assert_eq!(JsonNumber::from(i64::MAX).as_u64(), Some(i64::MAX as u64));
    assert_eq!(JsonNumber::from(i64::MAX as u64 + 1).as_i64(), None);
    assert_eq!(JsonNumber::from(5u64), JsonNumber::from(5i64));
    assert_eq!(JsonNumber::from_f64(float(0.5)).unwrap().as_float(), Some(float(0.5)));
    assert_eq!(JsonNumber::from_f64(float(0.5)).unwrap().as_i64(), None);
    assert_eq!(JsonNumber::from_f64(float(0.5)).unwrap().as_u64(), None);
    assert_eq!(JsonNumber::from(3u64).as_float(), None);
    assert!(JsonNumber::from_f64(float(f64::NAN)).is_none());
    assert!(JsonNumber::from_f64(float(f64::INFINITY)).is_none());
    assert!(JsonNumber::from_f64(float(f64::NEG_INFINITY)).is_none());
    assert!(JsonNumber::from_f64(float(f64::MAX)).is_some());
}
