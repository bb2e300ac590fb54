use dsconv::convert::cbor::Cbor;
use dsconv::convert::json::{Json, Number as JsonNumber};
use dsconv::convert::messagepack::{MessagePack, Utf8String};
use dsconv::convert::ron::{Number as RonNumber, Ron};
use dsconv::convert::toml::{Date, Datetime, Offset, Time, Toml};
use dsconv::convert::yaml::{Number as YamlNumber, Yaml};
use dsconv::error::ConvertError;
use dsconv::format::Format;
use dsconv::value::{Float, Integer, Value};

fn float(number: f64) -> Float {
    Float::from_bits(number.to_bits())
}

fn number(float: Float) -> f64 {
    f64::from_bits(float.to_bits())
}

fn cbor_from_native(value: serde_cbor::Value) -> Cbor {
    match value {
        serde_cbor::Value::Null => Cbor::Null,
        serde_cbor::Value::Bool(b) => Cbor::Bool(b),
        serde_cbor::Value::Integer(integer) => Cbor::Integer(integer),
        serde_cbor::Value::Float(number) => Cbor::Float(float(number)),
        serde_cbor::Value::Bytes(bytes) => Cbor::Bytes(bytes),
        serde_cbor::Value::Text(text) => Cbor::Text(text),
        serde_cbor::Value::Array(items) => {
            Cbor::Array(items.into_iter().map(cbor_from_native).collect())
        }
        serde_cbor::Value::Map(entries) => Cbor::Dict(
            entries
                .into_iter()
                .map(|(key, value)| (cbor_from_native(key), cbor_from_native(value)))
                .collect(),
        ),
        serde_cbor::Value::Tag(tag, inner) => Cbor::Tag(tag, Box::new(cbor_from_native(*inner))),
        _ => panic!("a CBOR value of a kind that is not known"),
    }
}

fn cbor_to_native(cbor: Cbor) -> serde_cbor::Value {
    match cbor {
        Cbor::Null => serde_cbor::Value::Null,
        Cbor::Bool(b) => serde_cbor::Value::Bool(b),
        Cbor::Integer(integer) => serde_cbor::Value::Integer(integer),
        Cbor::Float(float) => serde_cbor::Value::Float(number(float)),
        Cbor::Bytes(bytes) => serde_cbor::Value::Bytes(bytes),
        Cbor::Text(text) => serde_cbor::Value::Text(text),
        Cbor::Array(items) => {
            serde_cbor::Value::Array(items.into_iter().map(cbor_to_native).collect())
        }
        Cbor::Dict(entries) => serde_cbor::Value::Map(
            entries
                .into_iter()
                .map(|(key, value)| (cbor_to_native(key), cbor_to_native(value)))
                .collect(),
        ),
        Cbor::Tag(tag, inner) => serde_cbor::Value::Tag(tag, Box::new(cbor_to_native(*inner))),
    }
}

fn json_from_native(value: serde_json::Value) -> Json {
    match value {
        serde_json::Value::Null => Json::Null,
        serde_json::Value::Bool(b) => Json::Bool(b),
        serde_json::Value::Number(native) => {
            if let Some(unsigned) = native.as_u64() {
                Json::Number(JsonNumber::from(unsigned))
            } else if let Some(signed) = native.as_i64() {
                Json::Number(JsonNumber::from(signed))
            } else {
                let finite = native.as_f64().expect("a JSON number is an integer or a float");
                Json::Number(JsonNumber::from_f64(float(finite)).expect("a JSON float is finite"))
            }
        }
        serde_json::Value::String(string) => Json::String(string),
        serde_json::Value::Array(items) => {
            Json::Array(items.into_iter().map(json_from_native).collect())
        }
        serde_json::Value::Object(members) => Json::Object(
            members
                .into_iter()
                .map(|(name, value)| (name, json_from_native(value)))
                .collect(),
        ),
    }
}

fn json_to_native(json: Json) -> serde_json::Value {
    match json {
        Json::Null => serde_json::Value::Null,
        Json::Bool(b) => serde_json::Value::Bool(b),
        Json::Number(model) => {
            if let Some(signed) = model.as_i64() {
                serde_json::Value::Number(signed.into())
            } else if let Some(unsigned) = model.as_u64() {
                serde_json::Value::Number(unsigned.into())
            } else {
                let finite = model.as_float().expect("a number is an integer or a float");
                serde_json::Value::Number(
                    serde_json::Number::from_f64(number(finite)).expect("a JSON float is finite"),
                )
            }
        }
        Json::String(string) => serde_json::Value::String(string),
        Json::Array(items) => {
            serde_json::Value::Array(items.into_iter().map(json_to_native).collect())
        }
        Json::Object(members) => serde_json::Value::Object(
            members
                .into_iter()
                .map(|(name, value)| (name, json_to_native(value)))
                .collect(),
        ),
    }
}

fn integer_from_native(native: rmpv::Integer) -> Integer {
    match native.as_u64() {
        Some(unsigned) => Integer::from(unsigned),
        None => Integer::from(native.as_i64().expect("a MessagePack integer fits 64 bits")),
    }
}

fn integer_to_native(integer: Integer) -> rmpv::Integer {
    match integer.as_i64() {
        Some(signed) => rmpv::Integer::from(signed),
        None => rmpv::Integer::from(integer.as_u64().expect("an integer fits 64 bits")),
    }
}

fn messagepack_from_native(value: rmpv::Value) -> MessagePack {
    match value {
        rmpv::Value::Nil => MessagePack::Nil,
        rmpv::Value::Boolean(b) => MessagePack::Boolean(b),
        rmpv::Value::Integer(integer) => MessagePack::Integer(integer_from_native(integer)),
        rmpv::Value::F32(number) => MessagePack::F32(float(f64::from(number))),
        rmpv::Value::F64(number) => MessagePack::F64(float(number)),
        rmpv::Value::String(string) => {
            if string.is_str() {
                let text = string.into_str().expect("the string is valid UTF-8");
                MessagePack::String(Utf8String::from(text))
            } else {
                MessagePack::String(Utf8String::from_bytes(string.into_bytes()))
            }
        }
        rmpv::Value::Binary(bytes) => MessagePack::Binary(bytes),
        rmpv::Value::Array(items) => {
            MessagePack::Array(items.into_iter().map(messagepack_from_native).collect())
        }
        rmpv::Value::Map(entries) => MessagePack::Dict(
            entries
                .into_iter()
                .map(|(key, value)| (messagepack_from_native(key), messagepack_from_native(value)))
                .collect(),
        ),
        rmpv::Value::Ext(kind, bytes) => MessagePack::Ext(kind, bytes),
    }
}

fn messagepack_to_native(messagepack: MessagePack) -> rmpv::Value {
    match messagepack {
        MessagePack::Nil => rmpv::Value::Nil,
        MessagePack::Boolean(b) => rmpv::Value::Boolean(b),
        MessagePack::Integer(integer) => rmpv::Value::Integer(integer_to_native(integer)),
        MessagePack::F32(float) => rmpv::Value::F32(number(float) as f32),
        MessagePack::F64(float) => rmpv::Value::F64(number(float)),
        MessagePack::String(string) => match string.into_str() {
            Some(text) => rmpv::Value::String(text.into()),
            None => panic!("a string that is not valid UTF-8 cannot be written"),
        },
        MessagePack::Binary(bytes) => rmpv::Value::Binary(bytes),
        MessagePack::Array(items) => {
            rmpv::Value::Array(items.into_iter().map(messagepack_to_native).collect())
        }
        MessagePack::Dict(entries) => rmpv::Value::Map(
            entries
                .into_iter()
                .map(|(key, value)| (messagepack_to_native(key), messagepack_to_native(value)))
                .collect(),
        ),
        MessagePack::Ext(kind, bytes) => rmpv::Value::Ext(kind, bytes),
    }
}

fn ron_from_native(value: ron::Value) -> Ron {
    match value {
        ron::Value::Bool(b) => Ron::Bool(b),
        ron::Value::Char(c) => Ron::Char(c),
        ron::Value::Map(entries) => Ron::Dict(
            entries
                .iter()
                .map(|(key, value)| (ron_from_native(key.clone()), ron_from_native(value.clone())))
                .collect(),
        ),
        ron::Value::Number(ron::Number::Integer(integer)) => Ron::Number(RonNumber::from(integer)),
        ron::Value::Number(ron::Number::Float(number)) => {
            Ron::Number(RonNumber::from(float(number.get())))
        }
        ron::Value::Option(inner) => {
            Ron::Option(inner.map(|inner| Box::new(ron_from_native(*inner))))
        }
        ron::Value::String(string) => Ron::String(string),
        ron::Value::Seq(items) => Ron::Sequence(items.into_iter().map(ron_from_native).collect()),
        ron::Value::Unit => Ron::Unit,
    }
}

fn datetime_from_native(native: toml::value::Datetime) -> Datetime {
    Datetime {
        date: native.date.map(|date| Date {
            year: date.year,
            month: date.month,
            day: date.day,
        }),
        time: native.time.map(|time| Time {
            hour: time.hour,
            minute: time.minute,
            second: time.second,
            nanosecond: time.nanosecond,
        }),
        offset: native.offset.map(|offset| match offset {
            toml::value::Offset::Z => Offset::Z,
            toml::value::Offset::Custom { hours, minutes } => Offset::Custom { hours, minutes },
        }),
    }
}

fn datetime_to_native(datetime: Datetime) -> toml::value::Datetime {
    toml::value::Datetime {
        date: datetime.date.map(|date| toml::value::Date {
            year: date.year,
            month: date.month,
            day: date.day,
        }),
        time: datetime.time.map(|time| toml::value::Time {
            hour: time.hour,
            minute: time.minute,
            second: time.second,
            nanosecond: time.nanosecond,
        }),
        offset: datetime.offset.map(|offset| match offset {
            Offset::Z => toml::value::Offset::Z,
            Offset::Custom { hours, minutes } => toml::value::Offset::Custom { hours, minutes },
        }),
    }
}

fn toml_from_native(value: toml::Value) -> Toml {
    match value {
        toml::Value::String(string) => Toml::String(string),
        toml::Value::Integer(integer) => Toml::Integer(integer),
        toml::Value::Float(number) => Toml::Float(float(number)),
        toml::Value::Boolean(b) => Toml::Boolean(b),
        toml::Value::Datetime(datetime) => Toml::Datetime(datetime_from_native(datetime)),
        toml::Value::Array(items) => {
            Toml::Array(items.into_iter().map(toml_from_native).collect())
        }
        toml::Value::Table(entries) => Toml::Table(
            entries
                .into_iter()
                .map(|(key, value)| (key, toml_from_native(value)))
                .collect(),
        ),
    }
}

fn toml_to_native(toml: Toml) -> toml::Value {
    match toml {
        Toml::String(string) => toml::Value::String(string),
        Toml::Integer(integer) => toml::Value::Integer(integer),
        Toml::Float(float) => toml::Value::Float(number(float)),
        Toml::Boolean(b) => toml::Value::Boolean(b),
        Toml::Datetime(datetime) => toml::Value::Datetime(datetime_to_native(datetime)),
        Toml::Array(items) => toml::Value::Array(items.into_iter().map(toml_to_native).collect()),
        Toml::Table(entries) => toml::Value::Table(
            entries
                .into_iter()
                .map(|(key, value)| (key, toml_to_native(value)))
                .collect(),
        ),
    }
}

fn yaml_from_native(value: serde_yaml::Value) -> Yaml {
    match value {
        serde_yaml::Value::Null => Yaml::Null,
        serde_yaml::Value::Bool(b) => Yaml::Bool(b),
        serde_yaml::Value::Number(native) => {
            if let Some(unsigned) = native.as_u64() {
                Yaml::Number(YamlNumber::from(unsigned))
            } else if let Some(signed) = native.as_i64() {
                Yaml::Number(YamlNumber::from(signed))
            } else {
                let any = native.as_f64().expect("a YAML number is an integer or a float");
                Yaml::Number(YamlNumber::from(float(any)))
            }
        }
        serde_yaml::Value::String(string) => Yaml::String(string),
        serde_yaml::Value::Sequence(items) => {
            Yaml::Sequence(items.into_iter().map(yaml_from_native).collect())
        }
        serde_yaml::Value::Mapping(entries) => Yaml::Mapping(
            entries
                .into_iter()
                .map(|(key, value)| (yaml_from_native(key), yaml_from_native(value)))
                .collect(),
        ),
    }
}

fn yaml_to_native(yaml: Yaml) -> serde_yaml::Value {
    match yaml {
        Yaml::Null => serde_yaml::Value::Null,
        Yaml::Bool(b) => serde_yaml::Value::Bool(b),
        Yaml::Number(model) => {
            if let Some(signed) = model.as_i64() {
                serde_yaml::Value::Number(signed.into())
            } else if let Some(unsigned) = model.as_u64() {
                serde_yaml::Value::Number(unsigned.into())
            } else {
                let any = model.as_float().expect("a number is an integer or a float");
                serde_yaml::Value::Number(number(any).into())
            }
        }
        Yaml::String(string) => serde_yaml::Value::String(string),
        Yaml::Sequence(items) => {
            serde_yaml::Value::Sequence(items.into_iter().map(yaml_to_native).collect())
        }
        Yaml::Mapping(entries) => serde_yaml::Value::Mapping(
            entries
                .into_iter()
                .map(|(key, value)| (yaml_to_native(key), yaml_to_native(value)))
                .collect(),
        ),
    }
}

fn from_json_text(text: &str) -> Value {
    json_from_native(serde_json::from_str::<serde_json::Value>(text).unwrap()).into_value()
}

fn to_json_text(value: Value) -> String {
    serde_json::to_string(&json_to_native(Json::from_value(value).unwrap())).unwrap()
}

fn from_yaml_text(text: &str) -> Value {
    yaml_from_native(serde_yaml::from_str::<serde_yaml::Value>(text).unwrap())
        .into_value()
        .unwrap()
}

fn to_yaml_text(value: Value) -> String {
    serde_yaml::to_string(&yaml_to_native(Yaml::from_value(value))).unwrap()
}

fn from_toml_text(text: &str) -> Value {
    toml_from_native(toml::from_str::<toml::Value>(text).unwrap()).into_value()
}

fn to_toml_text(value: Value) -> String {
    toml::to_string(&toml_to_native(Toml::from_value(value).unwrap())).unwrap()
}

fn from_cbor_bytes(bytes: &[u8]) -> Value {
    cbor_from_native(serde_cbor::from_slice::<serde_cbor::Value>(bytes).unwrap())
        .into_value()
        .unwrap()
}

fn to_cbor_bytes(value: Value) -> Vec<u8> {
    serde_cbor::to_vec(&cbor_to_native(Cbor::from_value(value))).unwrap()
}

fn from_messagepack_bytes(bytes: &[u8]) -> Value {
    let mut rest = bytes;
    messagepack_from_native(rmpv::decode::read_value(&mut rest).unwrap())
        .into_value()
        .unwrap()
}

fn to_messagepack_bytes(value: Value) -> Vec<u8> {
    let mut bytes = Vec::new();
    rmpv::encode::write_value(
        &mut bytes,
        &messagepack_to_native(MessagePack::from_value(value)),
    )
    .unwrap();
    bytes
}

#[test]
fn json_document_to_yaml() {
    let ir = from_json_text(r#"{"a": 1, "b": [true, null, "x"]}"#);
    assert_eq!(
        ir,
        Value::Dict(vec![
            ("a".to_string(), Value::Integer(1i64.into())),
            (
                "b".to_string(),
                Value::Array(vec![
                    Value::Bool(true),
                    Value::Null,
                    Value::String("x".to_string())
                ])
            ),
        ])
    );
    assert_eq!(
        Yaml::from_value(ir.clone()),
        Yaml::Mapping(vec![
            (
                Yaml::String("a".to_string()),
                Yaml::Number(YamlNumber::from(1i64))
            ),
            (
                Yaml::String("b".to_string()),
                Yaml::Sequence(vec![
                    Yaml::Bool(true),
                    Yaml::Null,
                    Yaml::String("x".to_string())
                ])
            ),
        ])
    );
    let written = to_yaml_text(ir.clone());
    assert_eq!(written, "---\na: 1\nb:\n  - true\n  - ~\n  - x\n");
    assert_eq!(from_yaml_text(&written), ir);
    assert_eq!(
        from_yaml_text("a: 1\nb:\n  - true\n  - null\n  - x\n"),
        ir
    );
}

#[test]
fn key_order_is_kept_from_text_to_text() {
    let json = r#"{"zeta":1,"alpha":{"y":true,"x":false},"mid":[]}"#;
    let ir = from_json_text(json);
    assert_eq!(to_json_text(ir.clone()), json);
    assert_eq!(
        to_yaml_text(ir.clone()),
        "---\nzeta: 1\nalpha:\n  y: true\n  x: false\nmid: []\n"
    );
    let toml = "zeta = 1\nmid = []\n\n[alpha]\ny = true\nx = false\n";
    assert_eq!(to_toml_text(ir.clone()), toml);
    assert_eq!(from_toml_text(toml), Value::Dict(vec![
        ("zeta".to_string(), Value::Integer(1i64.into())),
        ("mid".to_string(), Value::Array(vec![])),
        (
            "alpha".to_string(),
            Value::Dict(vec![
                ("y".to_string(), Value::Bool(true)),
                ("x".to_string(), Value::Bool(false)),
            ])
        ),
    ]));
}

#[test]
fn documents_come_back_byte_for_byte() {
    let json = r#"{"a":[1,-2,3.5,"s",null,true],"b":{"c":18446744073709551615}}"#;
    assert_eq!(to_json_text(from_json_text(json)), json);

    let yaml = "---\na:\n  - 1\n  - -2\n  - 3.5\n  - s\n  - ~\n  - true\nb:\n  c: 18446744073709551615\n";
    assert_eq!(to_yaml_text(from_yaml_text(yaml)), yaml);

    let toml = "when = 1979-05-27T07:32:00Z\nlist = [1, 2]\n\n[table]\nname = \"n\"\nratio = 0.5\n";
    assert_eq!(to_toml_text(from_toml_text(toml)), toml);

    let cbor = to_cbor_bytes(from_json_text(json));
    assert_eq!(to_cbor_bytes(from_cbor_bytes(&cbor)), cbor);

    let messagepack = to_messagepack_bytes(from_json_text(json));
    assert_eq!(
        to_messagepack_bytes(from_messagepack_bytes(&messagepack)),
        messagepack
    );
}

#[test]
fn a_document_comes_back_through_another_format() {
    let ir = from_json_text(
        r#"{"n":-9223372036854775808,"u":18446744073709551615,"f":1.5,"s":"plain","l":[[],{}]}"#,
    );
    assert_eq!(from_cbor_bytes(&to_cbor_bytes(ir.clone())), {
        // CBOR keeps the entries of a map in the order of its keys.
        Value::Dict(vec![
            ("f".to_string(), Value::Float(float(1.5))),
            (
                "l".to_string(),
                Value::Array(vec![Value::Array(vec![]), Value::Dict(vec![])])
            ),
            ("n".to_string(), Value::Integer(i64::MIN.into())),
            ("s".to_string(), Value::String("plain".to_string())),
            ("u".to_string(), Value::Integer(u64::MAX.into())),
        ])
    });
    assert_eq!(
        from_messagepack_bytes(&to_messagepack_bytes(ir.clone())),
        ir
    );
    assert_eq!(from_yaml_text(&to_yaml_text(ir.clone())), ir);
    assert_eq!(from_json_text(&to_json_text(ir.clone())), ir);
}

#[test]
fn a_toml_string_that_looks_like_a_date_time_becomes_one() {
    let ir = from_json_text(r#"{"at":"1970-01-01T00:00:00Z","name":"1970"}"#);
    assert_eq!(
        to_toml_text(ir),
        "at = 1970-01-01T00:00:00Z\nname = \"1970\"\n"
    );
    assert_eq!(
        to_json_text(from_toml_text("at = 1970-01-01 00:00:00Z\n")),
        r#"{"at":"1970-01-01T00:00:00Z"}"#
    );
}

#[test]
fn date_times_are_read_and_written_as_the_toml_crate_does() {
    let texts = [
        "1979-05-27T07:32:00Z",
        "1979-05-27T00:32:00-07:00",
        "1979-05-27T00:32:00.999999-07:00",
        "1979-05-27 07:32:00Z",
        "1979-05-27t07:32:00z",
        "1979-05-27T07:32:00",
        "1979-05-27T00:32:00.999999",
        "1979-05-27",
        "07:32:00",
        "00:32:00.999999",
        "24:00:00",
        "0000-01-01",
        "9999-12-31T23:59:59.123456789+12:45",
        "1979-05-27T07:32:00.1234567891Z",
        "",
        "a",
        "12",
        "1979",
        "1979-05-27T",
        "1979-05-27Z",
        "1979-00-27",
        "1979-13-01",
        "1979-05-00",
        "1979-05-32",
        "25:00:00",
        "07:60:00",
        "07:32:60",
        "07:32:00Z",
        "07:32:00.",
        "1979-05-27T07:32:00+7:00",
        "1979-05-27T07:32:00Z ",
        " 1979-05-27",
        "١٩٧٩-05-27",
        "1979-05-27T07:32:00.5é",
    ];
    for text in texts {
        let native = text.parse::<toml::value::Datetime>().ok();
        let model = Datetime::parse(text);
        assert_eq!(model, native.clone().map(datetime_from_native));
        if let (Some(native), Some(model)) = (native, model) {
            assert_eq!(model.to_text(), native.to_string());
            assert_eq!(datetime_to_native(model), native);
        }
    }
}

#[test]
fn numbers_are_taken_as_the_crates_take_them() {
    for text in [
        "0",
        "-0",
        "1",
        "-1",
        "9223372036854775807",
        "9223372036854775808",
        "18446744073709551615",
        "-9223372036854775808",
        "1.0",
        "-2.5e10",
        "18446744073709551616",
        "-9223372036854775809",
        "1e400",
    ] {
        if let Ok(native) = serde_json::from_str::<serde_json::Value>(text) {
            if let serde_json::Value::Number(number) = &native {
                let model = json_from_native(native.clone());
                if let Json::Number(converted) = &model {
                    assert_eq!(converted.as_i64(), number.as_i64());
                    assert_eq!(converted.as_u64(), number.as_u64());
                    assert_eq!(
                        converted.as_float().is_some(),
                        number.as_i64().is_none() && number.as_u64().is_none()
                    );
                }
                assert_eq!(json_to_native(model), native);
            }
        }
        if let Ok(native) = serde_yaml::from_str::<serde_yaml::Value>(text) {
            if let serde_yaml::Value::Number(number) = &native {
                let model = yaml_from_native(native.clone());
                if let Yaml::Number(converted) = &model {
                    assert_eq!(converted.as_i64(), number.as_i64());
                    assert_eq!(converted.as_u64(), number.as_u64());
                }
                assert_eq!(yaml_to_native(model), native);
            }
        }
    }
    for number in [i64::MIN, -1, 0, 1, i64::MAX] {
        let native = rmpv::Integer::from(number);
        assert_eq!(integer_from_native(native).as_i64(), native.as_i64());
        assert_eq!(integer_from_native(native).as_u64(), native.as_u64());
        assert_eq!(integer_to_native(Integer::from(number)), native);
    }
    for number in [0, 1, i64::MAX as u64, i64::MAX as u64 + 1, u64::MAX] {
        let native = rmpv::Integer::from(number);
        assert_eq!(integer_from_native(native).as_i64(), native.as_i64());
        assert_eq!(integer_from_native(native).as_u64(), native.as_u64());
        assert_eq!(integer_to_native(Integer::from(number)), native);
    }
}

#[test]
fn floats_that_json_refuses_are_those_that_the_crate_refuses() {
    for number in [
        0.0,
        -0.0,
        1.5,
        f64::MAX,
        f64::MIN,
        f64::MIN_POSITIVE,
        5e-324,
        f64::NAN,
        f64::INFINITY,
        f64::NEG_INFINITY,
    ] {
        assert_eq!(
            JsonNumber::from_f64(float(number)).is_some(),
            serde_json::Number::from_f64(number).is_some()
        );
        assert_eq!(
            Json::from_value(Value::Float(float(number))).is_ok(),
            serde_json::Number::from_f64(number).is_some()
        );
    }
}

#[test]
fn what_the_parsers_give_is_converted_or_refused() {
    let tagged = serde_cbor::from_slice::<serde_cbor::Value>(&[0xc1, 0x01]).unwrap();
    assert_eq!(
        cbor_from_native(tagged).into_value(),
        Err(ConvertError::SemanticTag)
    );
    let bytes = serde_cbor::from_slice::<serde_cbor::Value>(&[0x42, 0x01, 0x02]).unwrap();
    assert_eq!(
        cbor_from_native(bytes).into_value(),
        Err(ConvertError::ByteString)
    );
    let keyed = serde_cbor::from_slice::<serde_cbor::Value>(&[0xa1, 0x01, 0x02]).unwrap();
    assert_eq!(
        cbor_from_native(keyed).into_value(),
        Err(ConvertError::KeyNotString(Format::Cbor))
    );
    let wide = serde_cbor::from_slice::<serde_cbor::Value>(&[
        0x3b, 0xff, 0xff, 0xff, 0xff, 0xff, 0xff, 0xff, 0xff,
    ])
    .unwrap();
    assert_eq!(
        cbor_from_native(wide).into_value(),
        Err(ConvertError::IntegerTooWide(-(1 << 64)))
    );

    let mut invalid = &[0xa1u8, 0xff][..];
    assert_eq!(
        messagepack_from_native(rmpv::decode::read_value(&mut invalid).unwrap()).into_value(),
        Err(ConvertError::InvalidUtf8)
    );
    let mut binary = &[0xc4u8, 0x01, 0x00][..];
    assert_eq!(
        messagepack_from_native(rmpv::decode::read_value(&mut binary).unwrap()).into_value(),
        Err(ConvertError::ByteArray)
    );
    let mut extension = &[0xd4u8, 0x01, 0x00][..];
    assert_eq!(
        messagepack_from_native(rmpv::decode::read_value(&mut extension).unwrap()).into_value(),
        Err(ConvertError::Extension)
    );
    let mut narrow = &[0xcau8, 0x3f, 0xc0, 0x00, 0x00][..];
    assert_eq!(
        messagepack_from_native(rmpv::decode::read_value(&mut narrow).unwrap()).into_value(),
        Ok(Value::Float(float(1.5)))
    );
    let mut twice = &[0x82u8, 0xa1, b'k', 0x01, 0xa1, b'k', 0x02][..];
    assert_eq!(
        messagepack_from_native(rmpv::decode::read_value(&mut twice).unwrap()).into_value(),
        Ok(Value::Dict(vec![(
            "k".to_string(),
            Value::Integer(2u64.into())
        )]))
    );

    let ron = |text: &str| ron_from_native(ron::from_str::<ron::Value>(text).unwrap()).into_value();
    assert_eq!(ron("()"), Err(ConvertError::UnitType));
    assert_eq!(ron("Some(1)"), Err(ConvertError::OptionType));
    assert_eq!(ron("None"), Err(ConvertError::OptionType));
    assert_eq!(ron("{1: 2}"), Err(ConvertError::KeyNotString(Format::Ron)));
    assert_eq!(ron("{'c': 2}"), Err(ConvertError::KeyNotString(Format::Ron)));
    assert_eq!(ron("'c'"), Ok(Value::String("c".to_string())));
    assert_eq!(
        ron("{\"b\": 1, \"a\": [2.5, true]}"),
        Ok(Value::Dict(vec![
            ("b".to_string(), Value::Integer(1i64.into())),
            (
                "a".to_string(),
                Value::Array(vec![Value::Float(float(2.5)), Value::Bool(true)])
            ),
        ]))
    );
    assert_eq!(
        ron("18446744073709551615"),
        Ok(Value::Float(float(18446744073709551615.0)))
    );

    let yaml = |text: &str| {
        yaml_from_native(serde_yaml::from_str::<serde_yaml::Value>(text).unwrap()).into_value()
    };
    assert_eq!(yaml("1: 2"), Err(ConvertError::KeyNotString(Format::Yaml)));
    assert_eq!(yaml("~: 2"), Err(ConvertError::KeyNotString(Format::Yaml)));
    assert_eq!(yaml(".nan"), Ok(Value::Float(float(f64::NAN))));
    assert_eq!(yaml(".inf"), Ok(Value::Float(float(f64::INFINITY))));
}

#[test]
fn what_the_library_makes_is_what_the_crates_hold() {
    let ir = from_json_text(r#"{"k":[1,-1,0.5,"s",null,false,{"n":{}}],"u":18446744073709551615}"#);
    assert_eq!(
        cbor_from_native(cbor_to_native(Cbor::from_value(ir.clone()))).into_value(),
        Ok(ir.clone())
    );
    assert_eq!(
        json_from_native(json_to_native(Json::from_value(ir.clone()).unwrap())),
        Json::from_value(ir.clone()).unwrap()
    );
    assert_eq!(
        messagepack_from_native(messagepack_to_native(MessagePack::from_value(ir.clone()))),
        MessagePack::from_value(ir.clone())
    );
    assert_eq!(
        yaml_from_native(yaml_to_native(Yaml::from_value(ir.clone()))),
        Yaml::from_value(ir.clone())
    );
    let without_null = from_json_text(r#"{"k":[1,-1,0.5,"s",false,{"n":{}}],"d":"1979-05-27"}"#);
    assert_eq!(
        toml_from_native(toml_to_native(
            Toml::from_value(without_null.clone()).unwrap()
        )),
        Toml::from_value(without_null).unwrap()
    );
}
