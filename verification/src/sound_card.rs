//! The sound card facade: typed builders for looking up and playing
//! sounds.

use vstd::prelude::*;

use crate::device_bus::SpecCall;
use crate::device_bus::invoke_request;
use crate::device_bus::values_view;
use crate::device_bus::wire_of_call;
use crate::json::JsonValue;
use crate::json::Scalar;
use crate::json::SpecJson;
use crate::json::SpecScalar;
use crate::rpc_device::RPCDevice;

verus! {

/// One sound card, addressed by its device handle.
pub struct SoundCard {
    pub device: RPCDevice,
}

impl SoundCard {
    /// The framed request that looks up sound names matching `sound`.
    pub fn find_sound_request(&self, sound: String) -> (r: Vec<u8>)
        ensures
            r@ == wire_of_call(SpecCall::Invoke {
                device_id: self.device@,
                method_name: "findSound"@,
                parameters: seq![SpecJson::Atom(SpecScalar::Str(sound@))],
            }),
    {
        let ghost sv = sound@;
        let mut parameters: Vec<JsonValue> = Vec::new();
        parameters.push(JsonValue::Atom(Scalar::Str(sound)));
        proof {
            assert(values_view(parameters@) =~= seq![SpecJson::Atom(SpecScalar::Str(sv))]);
        }
        invoke_request(&self.device, "findSound".to_owned(), parameters)
    }

    /// The framed request that plays the named sound; the peer sends no
    /// response for it.
    pub fn play_sound_request(&self, sound: String) -> (r: Vec<u8>)
        ensures
            r@ == wire_of_call(SpecCall::Invoke {
                device_id: self.device@,
                method_name: "playSound"@,
                parameters: seq![SpecJson::Atom(SpecScalar::Str(sound@))],
            }),
    {
        let ghost sv = sound@;
        let mut parameters: Vec<JsonValue> = Vec::new();
        parameters.push(JsonValue::Atom(Scalar::Str(sound)));
        proof {
            assert(values_view(parameters@) =~= seq![SpecJson::Atom(SpecScalar::Str(sv))]);
        }
        invoke_request(&self.device, "playSound".to_owned(), parameters)
    }
}

} // verus!
