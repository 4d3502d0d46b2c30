//! The bus operations: device lookup, response expectations and the typed
//! result extractors.

use oc_rs::BusError;
use oc_rs::device_bus::BusReturn;
use oc_rs::device_bus::decode_return;
use oc_rs::device_bus::expect_list;
use oc_rs::device_bus::expect_methods;
use oc_rs::device_bus::find_in;
use oc_rs::device_bus::result_bool;
use oc_rs::device_bus::result_bytes;
use oc_rs::device_bus::result_file_info;
use oc_rs::device_bus::result_grant;
use oc_rs::device_bus::result_item;
use oc_rs::device_bus::result_string_list;
use oc_rs::device_bus::result_uint;
use oc_rs::json::JsonValue;
use oc_rs::json::Scalar;
use oc_rs::rpc_device::RPCDevice;
use oc_rs::rpc_device::RPCDeviceDescriptor;

const ID_A: &str = "aaaaaaaa-0000-0000-0000-000000000001";
const ID_B: &str = "bbbbbbbb-0000-0000-0000-000000000002";

fn dev(text: &str) -> RPCDevice {
    RPCDevice::parse(text.to_string()).unwrap()
}

fn descriptor(id: &str, components: &[&str]) -> RPCDeviceDescriptor {
    RPCDeviceDescriptor {
        device_id: dev(id),
        components: components.iter().map(|c| c.to_string()).collect(),
    }
}

#[test]
fn find_returns_first_match_in_list_order() {
    let devs = vec![descriptor(ID_A, &["x"]), descriptor(ID_B, &["x", "y"])];
    let found = find_in(&devs, &"x".to_string()).unwrap();
    assert_eq!(found.text(), ID_A);
    let found = find_in(&devs, &"y".to_string()).unwrap();
    assert_eq!(found.text(), ID_B);
}

#[test]
fn find_misses_with_not_found() {
    let devs = vec![descriptor(ID_A, &["x"]), descriptor(ID_B, &["x", "y"])];
    assert!(matches!(find_in(&devs, &"z".to_string()), Err(BusError::NotFound)));
    assert!(matches!(find_in(&Vec::new(), &"x".to_string()), Err(BusError::NotFound)));
}

#[test]
fn list_call_answered_with_error_surfaces_the_message() {
    // A peer error must become the call's failure, never an empty list.
    let frame_bytes = b"\0{\"type\":\"error\",\"data\":\"device bus offline\"}\0".to_vec();
    let ret = decode_return(&frame_bytes).unwrap();
    match expect_list(ret) {
        Err(BusError::Peer(msg)) => assert_eq!(msg, "device bus offline"),
        _ => panic!("the peer's message was not surfaced"),
    }
}

#[test]
fn list_call_answered_with_wrong_shape_is_invalid_data() {
    let ret = BusReturn::Result(JsonValue::Atom(Scalar::Bool(true)));
    assert!(matches!(expect_list(ret), Err(BusError::InvalidData)));
}

#[test]
fn methods_call_answered_with_error_surfaces_the_message() {
    let ret = BusReturn::Error("unknown device".to_string());
    match expect_methods(ret) {
        Err(BusError::Peer(msg)) => assert_eq!(msg, "unknown device"),
        _ => panic!("the peer's message was not surfaced"),
    }
}

#[test]
fn expect_list_passes_descriptors_through() {
    let ret = BusReturn::List(vec![descriptor(ID_A, &["redstone"])]);
    let ds = expect_list(ret).unwrap();
    assert_eq!(ds.len(), 1);
    assert_eq!(ds[0].device_id.text(), ID_A);
}

#[test]
fn result_uint_accepts_only_nonnegative_ints() {
    assert_eq!(result_uint(BusReturn::Result(JsonValue::Atom(Scalar::Int(42)))).unwrap(), 42);
    assert!(matches!(
        result_uint(BusReturn::Result(JsonValue::Atom(Scalar::Int(-1)))),
        Err(BusError::InvalidData)
    ));
    assert!(matches!(
        result_uint(BusReturn::Result(JsonValue::Atom(Scalar::Bool(true)))),
        Err(BusError::InvalidData)
    ));
    match result_uint(BusReturn::Error("boom".to_string())) {
        Err(BusError::Peer(msg)) => assert_eq!(msg, "boom"),
        _ => panic!("the peer's message was not surfaced"),
    }
}

#[test]
fn result_bool_reads_booleans() {
    assert!(result_bool(BusReturn::Result(JsonValue::Atom(Scalar::Bool(true)))).unwrap());
    assert!(!result_bool(BusReturn::Result(JsonValue::Atom(Scalar::Bool(false)))).unwrap());
    assert!(matches!(
        result_bool(BusReturn::Result(JsonValue::Atom(Scalar::Int(1)))),
        Err(BusError::InvalidData)
    ));
}

#[test]
fn result_bytes_reads_byte_arrays() {
    let ret = BusReturn::Result(JsonValue::Arr(vec![
        Scalar::Int(0),
        Scalar::Int(127),
        Scalar::Int(255),
    ]));
    assert_eq!(result_bytes(ret).unwrap(), vec![0u8, 127u8, 255u8]);
    let ret = BusReturn::Result(JsonValue::Arr(vec![Scalar::Int(256)]));
    assert!(matches!(result_bytes(ret), Err(BusError::InvalidData)));
    let ret = BusReturn::Result(JsonValue::Arr(vec![Scalar::Str("x".to_string())]));
    assert!(matches!(result_bytes(ret), Err(BusError::InvalidData)));
}

#[test]
fn result_string_list_reads_string_arrays() {
    let ret = BusReturn::Result(JsonValue::Arr(vec![
        Scalar::Str("block.anvil.use".to_string()),
        Scalar::Str("block.anvil.land".to_string()),
    ]));
    assert_eq!(
        result_string_list(ret).unwrap(),
        vec!["block.anvil.use".to_string(), "block.anvil.land".to_string()]
    );
    let ret = BusReturn::Result(JsonValue::Arr(vec![Scalar::Int(1)]));
    assert!(matches!(result_string_list(ret), Err(BusError::InvalidData)));
}

#[test]
fn result_item_reads_the_two_fields_in_any_order() {
    let ret = BusReturn::Result(JsonValue::Obj(vec![
        ("Count".to_string(), Scalar::Int(64)),
        ("id".to_string(), Scalar::Str("minecraft:stone".to_string())),
        ("extra".to_string(), Scalar::Null),
    ]));
    let item = result_item(ret).unwrap();
    assert_eq!(item.id(), "minecraft:stone");
    assert_eq!(item.count(), 64);
    let ret = BusReturn::Result(JsonValue::Obj(vec![(
        "id".to_string(),
        Scalar::Str("minecraft:stone".to_string()),
    )]));
    assert!(matches!(result_item(ret), Err(BusError::InvalidData)));
}

#[test]
fn result_file_info_reads_name_and_size() {
    let ret = BusReturn::Result(JsonValue::Obj(vec![
        ("name".to_string(), Scalar::Str("notes.txt".to_string())),
        ("size".to_string(), Scalar::Int(1024)),
    ]));
    let info = result_file_info(ret).unwrap();
    assert_eq!(info.get_name(), "notes.txt");
    assert_eq!(info.size(), 1024);
    let ret = BusReturn::Result(JsonValue::Obj(vec![(
        "size".to_string(),
        Scalar::Int(1024),
    )]));
    assert!(matches!(result_file_info(ret), Err(BusError::InvalidData)));
}

#[test]
fn result_grant_distinguishes_denial() {
    assert!(result_grant(BusReturn::Result(JsonValue::Atom(Scalar::Bool(true)))).is_ok());
    assert!(matches!(
        result_grant(BusReturn::Result(JsonValue::Atom(Scalar::Bool(false)))),
        Err(BusError::Denied)
    ));
    match result_grant(BusReturn::Error("busy".to_string())) {
        Err(BusError::Peer(msg)) => assert_eq!(msg, "busy"),
        _ => panic!("the peer's message was not surfaced"),
    }
}
