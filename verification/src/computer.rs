//! The computer facade: typed builders for the inventory and energy
//! introspection methods.

use vstd::prelude::*;

use crate::device_bus::SpecCall;
use crate::device_bus::invoke_request;
use crate::device_bus::values_view;
use crate::device_bus::wire_of_call;
use crate::json::JsonValue;
use crate::json::Scalar;
use crate::json::SpecJson;
use crate::json::SpecScalar;
use crate::rpc_device::RPCDevice;

verus! {

/// One computer-attached block, addressed by its device handle.
pub struct Computer {
    pub device: RPCDevice,
}

impl Computer {
    /// The framed request for one niladic introspection method.
    fn plain_request(&self, method_name: String) -> (r: Vec<u8>)
        ensures
            r@ == wire_of_call(SpecCall::Invoke {
                device_id: self.device@,
                method_name: method_name@,
                parameters: Seq::empty(),
            }),
    {
        let parameters: Vec<JsonValue> = Vec::new();
        proof {
            assert(values_view(parameters@) =~= Seq::<SpecJson>::empty());
        }
        invoke_request(&self.device, method_name, parameters)
    }

    /// The framed request for one slot-scoped introspection method.
    fn slot_request(&self, method_name: String, slot: u64) -> (r: Vec<u8>)
        requires
            slot <= i64::MAX,
        ensures
            r@ == wire_of_call(SpecCall::Invoke {
                device_id: self.device@,
                method_name: method_name@,
                parameters: seq![SpecJson::Atom(SpecScalar::Int(slot as int))],
            }),
    {
        let mut parameters: Vec<JsonValue> = Vec::new();
        parameters.push(JsonValue::Atom(Scalar::Int(slot as i64)));
        proof {
            assert(values_view(parameters@)
                =~= seq![SpecJson::Atom(SpecScalar::Int(slot as int))]);
        }
        invoke_request(&self.device, method_name, parameters)
    }

    /// The framed request that asks how many item slots the device has.
    pub fn get_item_slot_count_request(&self) -> (r: Vec<u8>)
        ensures
            r@ == wire_of_call(SpecCall::Invoke {
                device_id: self.device@,
                method_name: "getItemSlotCount"@,
                parameters: Seq::empty(),
            }),
    {
        self.plain_request("getItemSlotCount".to_owned())
    }

    /// The framed request that asks what item stack one slot holds.
    pub fn get_item_stack_in_slot_request(&self, slot: u64) -> (r: Vec<u8>)
        requires
            slot <= i64::MAX,
        ensures
            r@ == wire_of_call(SpecCall::Invoke {
                device_id: self.device@,
                method_name: "getItemStackInSlot"@,
                parameters: seq![SpecJson::Atom(SpecScalar::Int(slot as int))],
            }),
    {
        self.slot_request("getItemStackInSlot".to_owned(), slot)
    }

    /// The framed request that asks for one slot's stacking limit.
    pub fn get_item_slot_limit_request(&self, slot: u64) -> (r: Vec<u8>)
        requires
            slot <= i64::MAX,
        ensures
            r@ == wire_of_call(SpecCall::Invoke {
                device_id: self.device@,
                method_name: "getItemSlotLimit"@,
                parameters: seq![SpecJson::Atom(SpecScalar::Int(slot as int))],
            }),
    {
        self.slot_request("getItemSlotLimit".to_owned(), slot)
    }

    /// The framed request that asks for the stored energy.
    pub fn get_energy_stored_request(&self) -> (r: Vec<u8>)
        ensures
            r@ == wire_of_call(SpecCall::Invoke {
                device_id: self.device@,
                method_name: "getEnergyStored"@,
                parameters: Seq::empty(),
            }),
    {
        self.plain_request("getEnergyStored".to_owned())
    }

    /// The framed request that asks for the energy capacity.
    pub fn get_max_energy_stored_request(&self) -> (r: Vec<u8>)
        ensures
            r@ == wire_of_call(SpecCall::Invoke {
                device_id: self.device@,
                method_name: "getMaxEnergyStored"@,
                parameters: Seq::empty(),
            }),
    {
        self.plain_request("getMaxEnergyStored".to_owned())
    }

    /// The framed request that asks whether energy can be drawn out.
    pub fn can_extract_energy_request(&self) -> (r: Vec<u8>)
        ensures
            r@ == wire_of_call(SpecCall::Invoke {
                device_id: self.device@,
                method_name: "canExtractEnergy"@,
                parameters: Seq::empty(),
            }),
    {
        self.plain_request("canExtractEnergy".to_owned())
    }

    /// The framed request that asks whether energy can be fed in.
    pub fn can_receive_energy_request(&self) -> (r: Vec<u8>)
        ensures
            r@ == wire_of_call(SpecCall::Invoke {
                device_id: self.device@,
                method_name: "canReceiveEnergy"@,
                parameters: Seq::empty(),
            }),
    {
        self.plain_request("canReceiveEnergy".to_owned())
    }
}

} // verus!
