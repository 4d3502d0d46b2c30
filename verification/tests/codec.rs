//! The frame codec and the message codec, exercised on concrete wire
//! bytes.

use oc_rs::BusError;
use oc_rs::frame::frame;
use oc_rs::frame::unframe;
use oc_rs::device_bus::BusCall;
use oc_rs::device_bus::BusReturn;
use oc_rs::device_bus::decode_return;
use oc_rs::device_bus::encode_call;
use oc_rs::json::JsonValue;
use oc_rs::json::Scalar;
use oc_rs::rpc_device::RPCDevice;

fn dev(text: &str) -> RPCDevice {
    RPCDevice::parse(text.to_string()).unwrap()
}

#[test]
fn frame_round_trip_plain_payload() {
    let payload = b"{\"type\":\"list\"}".to_vec();
    let framed = frame(&payload);
    assert_eq!(framed[0], 0u8);
    assert_eq!(framed[framed.len() - 1], 0u8);
    assert_eq!(unframe(&framed).unwrap(), payload);
}

#[test]
fn frame_round_trip_empty_payload() {
    let framed = frame(&[]);
    assert_eq!(framed, vec![0u8, 0u8]);
    assert_eq!(unframe(&framed).unwrap(), Vec::<u8>::new());
}

#[test]
fn unframe_rejects_missing_delimiters() {
    // A bare message with no delimiters at all must fail, never misparse.
    let r = unframe(b"{\"type\":\"list\",\"data\":[]}");
    assert!(matches!(r, Err(BusError::CorruptData)));
}

#[test]
fn unframe_rejects_missing_trailing_delimiter() {
    let r = unframe(b"\0{\"type\":\"list\",\"data\":[]}");
    assert!(matches!(r, Err(BusError::UnexpectedEof)));
}

#[test]
fn unframe_rejects_empty_stream() {
    let r = unframe(b"");
    assert!(matches!(r, Err(BusError::UnexpectedEof)));
}

#[test]
fn unframe_rejects_trailing_garbage() {
    let r = unframe(b"\0abc\0xyz");
    assert!(matches!(r, Err(BusError::CorruptData)));
}

#[test]
fn encode_list_call_exact_bytes() {
    let bytes = encode_call(&BusCall::List);
    assert_eq!(bytes, b"\0{\"type\":\"list\"}\0".to_vec());
}

#[test]
fn encode_methods_call_exact_bytes() {
    let d = dev("01234567-89ab-cdef-0123-456789abcdef");
    let bytes = encode_call(&BusCall::Methods(d));
    assert_eq!(
        bytes,
        b"\0{\"type\":\"methods\",\"data\":\"01234567-89ab-cdef-0123-456789abcdef\"}\0"
            .to_vec()
    );
}

#[test]
fn encode_invoke_call_exact_bytes() {
    let d = dev("01234567-89ab-cdef-0123-456789abcdef");
    let bytes = encode_call(&BusCall::Invoke {
        device_id: d,
        method_name: "setRedstoneOutput".to_string(),
        parameters: vec![
            JsonValue::Atom(Scalar::Str("up".to_string())),
            JsonValue::Atom(Scalar::Int(15)),
        ],
    });
    let expected = b"\0{\"type\":\"invoke\",\"data\":{\"deviceId\":\"01234567-89ab-cdef-0123-456789abcdef\",\"name\":\"setRedstoneOutput\",\"parameters\":[\"up\",15]}}\0".to_vec();
    assert_eq!(bytes, expected);
}

#[test]
fn encode_escapes_quote_backslash_and_controls() {
    let d = dev("01234567-89ab-cdef-0123-456789abcdef");
    let bytes = encode_call(&BusCall::Invoke {
        device_id: d,
        method_name: "playSound".to_string(),
        parameters: vec![JsonValue::Atom(Scalar::Str("a\"b\\c\nd".to_string()))],
    });
    let text = String::from_utf8(bytes[1..bytes.len() - 1].to_vec()).unwrap();
    assert!(text.contains("a\\\"b\\\\c\\u000ad"));
}

#[test]
fn encoded_call_payload_is_valid_json_for_serde() {
    // Cross-check the canonical encoding against an independent JSON
    // implementation.
    let d = dev("01234567-89ab-cdef-0123-456789abcdef");
    let bytes = encode_call(&BusCall::Invoke {
        device_id: d,
        method_name: "getItemStackInSlot".to_string(),
        parameters: vec![JsonValue::Atom(Scalar::Int(3))],
    });
    let payload = &bytes[1..bytes.len() - 1];
    let v: serde_json::Value = serde_json::from_slice(payload).unwrap();
    assert_eq!(v["type"], "invoke");
    assert_eq!(v["data"]["deviceId"], "01234567-89ab-cdef-0123-456789abcdef");
    assert_eq!(v["data"]["name"], "getItemStackInSlot");
    assert_eq!(v["data"]["parameters"][0], 3);
}

#[test]
fn decode_result_round_trip_ints() {
    let frame_bytes = b"\0{\"type\":\"result\",\"data\":-9223372036854775808}\0".to_vec();
    match decode_return(&frame_bytes).unwrap() {
        BusReturn::Result(JsonValue::Atom(Scalar::Int(i))) => assert_eq!(i, i64::MIN),
        other => panic!("wrong shape: {:?}", shape_name(&other)),
    }
    let frame_bytes = b"\0{\"type\":\"result\",\"data\":9223372036854775807}\0".to_vec();
    match decode_return(&frame_bytes).unwrap() {
        BusReturn::Result(JsonValue::Atom(Scalar::Int(i))) => assert_eq!(i, i64::MAX),
        other => panic!("wrong shape: {:?}", shape_name(&other)),
    }
}

fn shape_name(r: &BusReturn) -> &'static str {
    match r {
        BusReturn::List(_) => "list",
        BusReturn::Methods(_) => "methods",
        BusReturn::Error(_) => "error",
        BusReturn::Result(_) => "result",
    }
}

#[test]
fn decode_rejects_overflowing_int() {
    let frame_bytes = b"\0{\"type\":\"result\",\"data\":9223372036854775808}\0".to_vec();
    assert!(matches!(decode_return(&frame_bytes), Err(BusError::InvalidData)));
}

#[test]
fn decode_result_string_with_escapes() {
    let frame_bytes = b"\0{\"type\":\"result\",\"data\":\"a\\\"b\\\\c\\u000ad\"}\0".to_vec();
    match decode_return(&frame_bytes).unwrap() {
        BusReturn::Result(JsonValue::Atom(Scalar::Str(s))) => {
            assert_eq!(s, "a\"b\\c\nd");
        },
        other => panic!("wrong shape: {:?}", shape_name(&other)),
    }
}

#[test]
fn decode_result_missing_data_defaults_to_null() {
    // The one designated default: a result response without a payload
    // decodes to the empty default rather than failing.
    let frame_bytes = b"\0{\"type\":\"result\"}\0".to_vec();
    match decode_return(&frame_bytes).unwrap() {
        BusReturn::Result(JsonValue::Atom(Scalar::Null)) => {},
        other => panic!("wrong shape: {:?}", shape_name(&other)),
    }
}

#[test]
fn decode_rejects_invalid_utf8_payload() {
    let frame_bytes = vec![0u8, 0xffu8, 0xfeu8, 0u8];
    assert!(matches!(decode_return(&frame_bytes), Err(BusError::InvalidData)));
}

#[test]
fn decode_rejects_unknown_tag() {
    let frame_bytes = b"\0{\"type\":\"bogus\",\"data\":[]}\0".to_vec();
    assert!(matches!(decode_return(&frame_bytes), Err(BusError::InvalidData)));
}

#[test]
fn decode_surfaces_framing_failures() {
    assert!(matches!(
        decode_return(b"{\"type\":\"list\",\"data\":[]}"),
        Err(BusError::CorruptData)
    ));
    assert!(matches!(
        decode_return(b"\0{\"type\":\"list\",\"data\":[]}"),
        Err(BusError::UnexpectedEof)
    ));
}

#[test]
fn decode_list_round_trip() {
    let frame_bytes = b"\0{\"type\":\"list\",\"data\":[{\"deviceId\":\"01234567-89ab-cdef-0123-456789abcdef\",\"typeNames\":[\"redstone\",\"oc2:redstone\"]}]}\0".to_vec();
    match decode_return(&frame_bytes).unwrap() {
        BusReturn::List(ds) => {
            assert_eq!(ds.len(), 1);
            assert_eq!(
                ds[0].device_id.text(),
                "01234567-89ab-cdef-0123-456789abcdef"
            );
            assert_eq!(ds[0].components, vec!["redstone".to_string(), "oc2:redstone".to_string()]);
        },
        other => panic!("wrong shape: {:?}", shape_name(&other)),
    }
}

#[test]
fn decode_empty_list() {
    let frame_bytes = b"\0{\"type\":\"list\",\"data\":[]}\0".to_vec();
    match decode_return(&frame_bytes).unwrap() {
        BusReturn::List(ds) => assert_eq!(ds.len(), 0),
        other => panic!("wrong shape: {:?}", shape_name(&other)),
    }
}

#[test]
fn decode_rejects_malformed_device_id() {
    let frame_bytes = b"\0{\"type\":\"list\",\"data\":[{\"deviceId\":\"not-a-handle\",\"typeNames\":[]}]}\0".to_vec();
    assert!(matches!(decode_return(&frame_bytes), Err(BusError::InvalidData)));
}

#[test]
fn decode_methods_example() {
    // The end-to-end methods example: one descriptor with one string
    // parameter and an int return type.
    let frame_bytes = b"\0{\"type\":\"methods\",\"data\":[{\"name\":\"getRedstoneInput\",\"parameters\":[{\"type\":\"string\"}],\"returnType\":\"int\"}]}\0".to_vec();
    match decode_return(&frame_bytes).unwrap() {
        BusReturn::Methods(ms) => {
            assert_eq!(ms.len(), 1);
            assert_eq!(ms[0].name, "getRedstoneInput");
            assert_eq!(ms[0].parameters.len(), 1);
            assert_eq!(ms[0].parameters[0].data(), "string");
            assert_eq!(ms[0].return_type, "int");
            assert_eq!(ms[0].description, None);
            assert_eq!(ms[0].return_value_description, None);
        },
        other => panic!("wrong shape: {:?}", shape_name(&other)),
    }
}

#[test]
fn decode_method_with_descriptions_and_no_parameters() {
    let frame_bytes = b"\0{\"type\":\"methods\",\"data\":[{\"name\":\"reset\",\"returnType\":\"void\",\"description\":\"stop\",\"returnValueDescription\":\"nothing\"}]}\0".to_vec();
    match decode_return(&frame_bytes).unwrap() {
        BusReturn::Methods(ms) => {
            assert_eq!(ms.len(), 1);
            assert_eq!(ms[0].name, "reset");
            assert_eq!(ms[0].parameters.len(), 0);
            assert_eq!(ms[0].return_type, "void");
            assert_eq!(ms[0].description.as_deref(), Some("stop"));
            assert_eq!(ms[0].return_value_description.as_deref(), Some("nothing"));
        },
        other => panic!("wrong shape: {:?}", shape_name(&other)),
    }
}

#[test]
fn decode_error_response() {
    let frame_bytes = b"\0{\"type\":\"error\",\"data\":\"no such device\"}\0".to_vec();
    match decode_return(&frame_bytes).unwrap() {
        BusReturn::Error(msg) => assert_eq!(msg, "no such device"),
        other => panic!("wrong shape: {:?}", shape_name(&other)),
    }
}
