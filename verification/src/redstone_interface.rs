//! The redstone port facade: typed builders for the three redstone
//! operations, each producing the exact framed request the bus writes.

use vstd::prelude::*;

use crate::device_bus::SpecCall;
use crate::device_bus::invoke_request;
use crate::device_bus::values_view;
use crate::device_bus::wire_of_call;
use crate::json::JsonValue;
use crate::json::Scalar;
use crate::json::SpecJson;
use crate::json::SpecScalar;
use crate::rpc_device::RPCDevice;
use crate::rpc_device::Side;
use crate::rpc_device::side_name_chars;

verus! {

/// One redstone port, addressed by its device handle.
pub struct RedstoneInterface {
    pub device: RPCDevice,
}

impl RedstoneInterface {
    /// The framed request that asks for the emitted redstone level on one
    /// side.
    pub fn get_redstone_output_request(&self, side: Side) -> (r: Vec<u8>)
        ensures
            r@ == wire_of_call(SpecCall::Invoke {
                device_id: self.device@,
                method_name: "getRedstoneOutput"@,
                parameters: seq![SpecJson::Atom(SpecScalar::Str(side_name_chars(side)))],
            }),
    {
        let mut parameters: Vec<JsonValue> = Vec::new();
        parameters.push(JsonValue::Atom(Scalar::Str(side.name().to_owned())));
        proof {
            assert(values_view(parameters@)
                =~= seq![SpecJson::Atom(SpecScalar::Str(side_name_chars(side)))]);
        }
        invoke_request(&self.device, "getRedstoneOutput".to_owned(), parameters)
    }

    /// The framed request that asks for the received redstone level on one
    /// side.
    pub fn get_redstone_input_request(&self, side: Side) -> (r: Vec<u8>)
        ensures
            r@ == wire_of_call(SpecCall::Invoke {
                device_id: self.device@,
                method_name: "getRedstoneInput"@,
                parameters: seq![SpecJson::Atom(SpecScalar::Str(side_name_chars(side)))],
            }),
    {
        let mut parameters: Vec<JsonValue> = Vec::new();
        parameters.push(JsonValue::Atom(Scalar::Str(side.name().to_owned())));
        proof {
            assert(values_view(parameters@)
                =~= seq![SpecJson::Atom(SpecScalar::Str(side_name_chars(side)))]);
        }
        invoke_request(&self.device, "getRedstoneInput".to_owned(), parameters)
    }

    /// The framed request that sets the emitted redstone level on one
    /// side; the peer sends no response for it.
    pub fn set_redstone_output_request(&self, side: Side, power: u64) -> (r: Vec<u8>)
        requires
            power <= i64::MAX,
        ensures
            r@ == wire_of_call(SpecCall::Invoke {
                device_id: self.device@,
                method_name: "setRedstoneOutput"@,
                parameters: seq![
                    SpecJson::Atom(SpecScalar::Str(side_name_chars(side))),
                    SpecJson::Atom(SpecScalar::Int(power as int)),
                ],
            }),
    {
        let mut parameters: Vec<JsonValue> = Vec::new();
        parameters.push(JsonValue::Atom(Scalar::Str(side.name().to_owned())));
        parameters.push(JsonValue::Atom(Scalar::Int(power as i64)));
        proof {
            assert(values_view(parameters@) =~= seq![
                SpecJson::Atom(SpecScalar::Str(side_name_chars(side))),
                SpecJson::Atom(SpecScalar::Int(power as int)),
            ]);
        }
        invoke_request(&self.device, "setRedstoneOutput".to_owned(), parameters)
    }
}

} // verus!
