//! The bus protocol: the calls a client can issue, the responses the peer
//! sends back, the exact bytes either puts on the wire, and the pure
//! operations the bus is built from — request building, response
//! decoding, and name-based device lookup.

use vstd::prelude::*;
use vstd::string::StrSliceExecFns;
use vstd::string::StringExecFns;
use vstd::string::StringSliceAdditionalSpecFns;
use vstd::utf8::encode_utf8;
use vstd::utf8::valid_utf8;
use vstd::utf8::decode_utf8;

use crate::BusError;
use crate::frame::frame;
use crate::frame::frame_of;
use crate::frame::unframe;
use crate::frame::unframe_spec;
use crate::json::JsonValue;
use crate::json::SpecJson;
use crate::json::SpecScalar;
use crate::json::json_wf;
use crate::json::value_chars;
use crate::json::str_chars;
use crate::json::parse_lit;
use crate::json::parse_string;
use crate::json::parse_value;
use crate::json::push_quoted;
use crate::json::push_value;
use crate::json::expect_lit;
use crate::json::p_string;
use crate::json::p_value;
use crate::rpc_device::RPCDevice;
use crate::rpc_device::RPCDeviceDescriptor;
use crate::rpc_device::RPCDeviceMethod;
use crate::rpc_device::RPCParamType;
use crate::rpc_device::SpecDescriptor;
use crate::rpc_device::SpecMethod;
use crate::rpc_device::is_uuid_chars;
use crate::rpc_device::params_view;

verus! {

/// The model of a call.
pub enum SpecCall {
    List,
    Methods(Seq<char>),
    Invoke { device_id: Seq<char>, method_name: Seq<char>, parameters: Seq<SpecJson> },
}

/// One call to the peer: enumerate devices, enumerate one device's
/// methods, or invoke a named method with a list of parameter values.
pub enum BusCall {
    List,
    Methods(RPCDevice),
    Invoke { device_id: RPCDevice, method_name: String, parameters: Vec<JsonValue> },
}

/// The models of a parameter value list.
pub open spec fn values_view(vs: Seq<JsonValue>) -> Seq<SpecJson> {
    vs.map_values(|v: JsonValue| v@)
}

impl View for BusCall {
    type V = SpecCall;

    open spec fn view(&self) -> SpecCall {
        match self {
            BusCall::List => SpecCall::List,
            BusCall::Methods(d) => SpecCall::Methods(d@),
            BusCall::Invoke { device_id, method_name, parameters } => SpecCall::Invoke {
                device_id: device_id@,
                method_name: method_name@,
                parameters: values_view(parameters@),
            },
        }
    }
}

/// The model of a response.
pub enum SpecReturn {
    List(Seq<SpecDescriptor>),
    Methods(Seq<SpecMethod>),
    Error(Seq<char>),
    Result(SpecJson),
}

/// One response from the peer: the device list, one device's method
/// list, an error message, or an invoked method's returned value.
pub enum BusReturn {
    List(Vec<RPCDeviceDescriptor>),
    Methods(Vec<RPCDeviceMethod>),
    Error(String),
    Result(JsonValue),
}

/// The models of a descriptor list.
pub open spec fn descs_view(ds: Seq<RPCDeviceDescriptor>) -> Seq<SpecDescriptor> {
    ds.map_values(|d: RPCDeviceDescriptor| d@)
}

/// The models of a method list.
pub open spec fn methods_view(ms: Seq<RPCDeviceMethod>) -> Seq<SpecMethod> {
    ms.map_values(|m: RPCDeviceMethod| m@)
}

impl View for BusReturn {
    type V = SpecReturn;

    open spec fn view(&self) -> SpecReturn {
        match self {
            BusReturn::List(ds) => SpecReturn::List(descs_view(ds@)),
            BusReturn::Methods(ms) => SpecReturn::Methods(methods_view(ms@)),
            BusReturn::Error(e) => SpecReturn::Error(e@),
            BusReturn::Result(v) => SpecReturn::Result(v@),
        }
    }
}

/// Whether a response model is representable on the wire: descriptor
/// handles carry canonical text and result payloads are representable.
pub open spec fn return_wf(r: SpecReturn) -> bool {
    match r {
        SpecReturn::List(ds) => forall|i: int| 0 <= i < ds.len()
            ==> is_uuid_chars(#[trigger] ds[i].device_id),
        SpecReturn::Methods(ms) => true,
        SpecReturn::Error(e) => true,
        SpecReturn::Result(v) => json_wf(v),
    }
}

// ------------------------------------------------------------------
// Canonical wire text
// ------------------------------------------------------------------

/// The parameter values after the first, each preceded by a comma.
pub open spec fn values_tail_chars(vs: Seq<SpecJson>) -> Seq<char>
    decreases vs.len()
{
    if vs.len() == 0 {
        Seq::empty()
    } else {
        seq![','] + value_chars(vs[0]) + values_tail_chars(vs.drop_first())
    }
}

/// The comma-separated parameter values.
pub open spec fn values_body_chars(vs: Seq<SpecJson>) -> Seq<char> {
    if vs.len() == 0 {
        Seq::empty()
    } else {
        value_chars(vs[0]) + values_tail_chars(vs.drop_first())
    }
}

/// The canonical text of one call.
pub open spec fn call_chars(c: SpecCall) -> Seq<char> {
    match c {
        SpecCall::List => "{\"type\":\"list\"}"@,
        SpecCall::Methods(id) => "{\"type\":\"methods\",\"data\":"@ + str_chars(id) + "}"@,
        SpecCall::Invoke { device_id, method_name, parameters } =>
            "{\"type\":\"invoke\",\"data\":{\"deviceId\":"@ + str_chars(device_id)
                + ",\"name\":"@ + str_chars(method_name)
                + ",\"parameters\":["@ + values_body_chars(parameters) + "]}}"@,
    }
}

/// The strings after the first in a string array.
pub open spec fn strs_tail_chars(ss: Seq<Seq<char>>) -> Seq<char>
    decreases ss.len()
{
    if ss.len() == 0 {
        Seq::empty()
    } else {
        seq![','] + str_chars(ss[0]) + strs_tail_chars(ss.drop_first())
    }
}

/// The comma-separated strings of a string array.
pub open spec fn strs_body_chars(ss: Seq<Seq<char>>) -> Seq<char> {
    if ss.len() == 0 {
        Seq::empty()
    } else {
        str_chars(ss[0]) + strs_tail_chars(ss.drop_first())
    }
}

/// The canonical text of one device descriptor.
pub open spec fn descriptor_chars(d: SpecDescriptor) -> Seq<char> {
    "{\"deviceId\":"@ + str_chars(d.device_id) + ",\"typeNames\":"@
        + seq!['['] + strs_body_chars(d.components) + seq![']'] + seq!['}']
}

/// The descriptors after the first.
pub open spec fn descs_tail_chars(ds: Seq<SpecDescriptor>) -> Seq<char>
    decreases ds.len()
{
    if ds.len() == 0 {
        Seq::empty()
    } else {
        seq![','] + descriptor_chars(ds[0]) + descs_tail_chars(ds.drop_first())
    }
}

/// The comma-separated descriptors.
pub open spec fn descs_body_chars(ds: Seq<SpecDescriptor>) -> Seq<char> {
    if ds.len() == 0 {
        Seq::empty()
    } else {
        descriptor_chars(ds[0]) + descs_tail_chars(ds.drop_first())
    }
}

/// The canonical text of one parameter type tag.
pub open spec fn param_obj_chars(p: Seq<char>) -> Seq<char> {
    "{\"type\":"@ + str_chars(p) + "}"@
}

/// The parameter type tags after the first.
pub open spec fn params_tail_chars(ps: Seq<Seq<char>>) -> Seq<char>
    decreases ps.len()
{
    if ps.len() == 0 {
        Seq::empty()
    } else {
        seq![','] + param_obj_chars(ps[0]) + params_tail_chars(ps.drop_first())
    }
}

/// The comma-separated parameter type tags.
pub open spec fn params_body_chars(ps: Seq<Seq<char>>) -> Seq<char> {
    if ps.len() == 0 {
        Seq::empty()
    } else {
        param_obj_chars(ps[0]) + params_tail_chars(ps.drop_first())
    }
}

/// The canonical text of one method descriptor.  The parameter list is
/// omitted when empty and each description is omitted when absent,
/// exactly as a field-skipping serializer writes them.
pub open spec fn method_chars(m: SpecMethod) -> Seq<char> {
    "{\"name\":"@ + str_chars(m.name)
        + (if m.parameters.len() == 0 {
            Seq::<char>::empty()
        } else {
            ",\"parameters\":"@ + seq!['['] + params_body_chars(m.parameters) + seq![']']
        })
        + ",\"returnType\":"@ + str_chars(m.return_type)
        + (match m.description {
            Option::None => Seq::<char>::empty(),
            Option::Some(d) => ",\"description\":"@ + str_chars(d),
        })
        + (match m.return_value_description {
            Option::None => Seq::<char>::empty(),
            Option::Some(d) => ",\"returnValueDescription\":"@ + str_chars(d),
        })
        + seq!['}']
}

/// The method descriptors after the first.
pub open spec fn methods_tail_chars(ms: Seq<SpecMethod>) -> Seq<char>
    decreases ms.len()
{
    if ms.len() == 0 {
        Seq::empty()
    } else {
        seq![','] + method_chars(ms[0]) + methods_tail_chars(ms.drop_first())
    }
}

/// The comma-separated method descriptors.
pub open spec fn methods_body_chars(ms: Seq<SpecMethod>) -> Seq<char> {
    if ms.len() == 0 {
        Seq::empty()
    } else {
        method_chars(ms[0]) + methods_tail_chars(ms.drop_first())
    }
}

/// The canonical text of one response.
pub open spec fn return_chars(r: SpecReturn) -> Seq<char> {
    match r {
        SpecReturn::List(ds) => "{\"type\":\"list\",\"data\":"@ + seq!['[']
            + descs_body_chars(ds) + seq![']'] + seq!['}'],
        SpecReturn::Methods(ms) => "{\"type\":\"methods\",\"data\":"@ + seq!['[']
            + methods_body_chars(ms) + seq![']'] + seq!['}'],
        SpecReturn::Error(e) => "{\"type\":\"error\",\"data\":"@ + str_chars(e)
            + seq!['}'],
        SpecReturn::Result(v) => "{\"type\":\"result\",\"data\":"@ + value_chars(v)
            + seq!['}'],
    }
}

/// The bytes a call puts on the wire: its canonical text, UTF-8 encoded,
/// framed in delimiters.
pub open spec fn wire_of_call(c: SpecCall) -> Seq<u8> {
    frame_of(encode_utf8(call_chars(c)))
}

/// The bytes a response occupies on the wire.
pub open spec fn wire_of_return(r: SpecReturn) -> Seq<u8> {
    frame_of(encode_utf8(return_chars(r)))
}

// ------------------------------------------------------------------
// Request encoding
// ------------------------------------------------------------------

/// Append the parameter values from index `i` on, each preceded by a
/// comma.
fn push_values_tail(out: &mut String, vs: &Vec<JsonValue>, i: usize)
    requires
        1 <= i <= vs.len(),
    ensures
        final(out)@ == old(out)@ + values_tail_chars(values_view(vs@).skip(i as int)),
    decreases vs.len() - i,
{
    proof {
        assert(values_view(vs@).len() == vs@.len());
    }
    if i < vs.len() {
        crate::json::string_push(out, ',');
        push_value(out, &vs[i]);
        push_values_tail(out, vs, i + 1);
        proof {
            let vv = values_view(vs@);
            assert(vv[i as int] == vs@[i as int]@);
            assert(vv.skip(i as int).drop_first() =~= vv.skip(i as int + 1));
            assert(vv.skip(i as int)[0] == vv[i as int]);
        }
    } else {
        proof {
            assert(values_view(vs@).skip(i as int) =~= Seq::<SpecJson>::empty());
        }
    }
}

/// Append the comma-separated parameter values.
fn push_values_body(out: &mut String, vs: &Vec<JsonValue>)
    ensures
        final(out)@ == old(out)@ + values_body_chars(values_view(vs@)),
{
    if vs.len() > 0 {
        push_value(out, &vs[0]);
        push_values_tail(out, vs, 1);
        proof {
            let vv = values_view(vs@);
            assert(vv[0] == vs@[0]@);
            assert(vv.skip(1) =~= vv.drop_first());
        }
    } else {
        proof {
            assert(values_view(vs@).len() == 0);
        }
    }
}

/// Serialize one call to the exact bytes it occupies on the wire,
/// delimiters included.
pub fn encode_call(c: &BusCall) -> (r: Vec<u8>)
    ensures
        r@ == wire_of_call(c@),
{
    let mut text = String::new();
    match c {
        BusCall::List => {
            text.append("{\"type\":\"list\"}");
        },
        BusCall::Methods(d) => {
            text.append("{\"type\":\"methods\",\"data\":");
            push_quoted(&mut text, d.text().as_str());
            text.append("}");
        },
        BusCall::Invoke { device_id, method_name, parameters } => {
            text.append("{\"type\":\"invoke\",\"data\":{\"deviceId\":");
            push_quoted(&mut text, device_id.text().as_str());
            text.append(",\"name\":");
            push_quoted(&mut text, method_name.as_str());
            text.append(",\"parameters\":[");
            push_values_body(&mut text, parameters);
            text.append("]}}");
        },
    }
    proof {
        assert(text@ == call_chars(c@));
    }
    let bytes = text.as_str().as_bytes_vec();
    frame(bytes.as_slice())
}

} // verus!

verus! {

// ------------------------------------------------------------------
// Response parsing: specification
// ------------------------------------------------------------------

/// Consume the strings of a string array after the first.
pub open spec fn parse_strs_tail(t: Seq<char>, pos: int) -> Option<(Seq<Seq<char>>, int)>
    decreases t.len() - pos when 0 <= pos <= t.len()
{
    if pos < t.len() && t[pos] == ']' {
        Some((Seq::empty(), pos + 1))
    } else if pos < t.len() && t[pos] == ',' {
        match parse_string(t, pos + 1) {
            Some((s, end)) => {
                if pos + 1 < end && end <= t.len() {
                    match parse_strs_tail(t, end) {
                        Some((ss, e2)) => Some((seq![s] + ss, e2)),
                        None => None,
                    }
                } else {
                    None
                }
            },
            None => None,
        }
    } else {
        None
    }
}

/// Consume a bracketed array of strings.
pub open spec fn parse_strs(t: Seq<char>, pos: int) -> Option<(Seq<Seq<char>>, int)> {
    if 0 <= pos < t.len() && t[pos] == '[' {
        if pos + 1 < t.len() && t[pos + 1] == ']' {
            Some((Seq::empty(), pos + 2))
        } else {
            match parse_string(t, pos + 1) {
                Some((s, end)) => {
                    if pos + 1 < end && end <= t.len() {
                        match parse_strs_tail(t, end) {
                            Some((ss, e2)) => Some((seq![s] + ss, e2)),
                            None => None,
                        }
                    } else {
                        None
                    }
                },
                None => None,
            }
        }
    } else {
        None
    }
}

/// Consume one device descriptor object; its handle text must be
/// canonical.
pub open spec fn parse_descriptor(t: Seq<char>, pos: int) -> Option<(SpecDescriptor, int)> {
    match parse_lit(t, pos, "{\"deviceId\":"@) {
        Some(p1) => match parse_string(t, p1) {
            Some((id, p2)) => {
                if is_uuid_chars(id) {
                    match parse_lit(t, p2, ",\"typeNames\":"@) {
                        Some(p3) => match parse_strs(t, p3) {
                            Some((cs, p4)) => match parse_lit(t, p4, "}"@) {
                                Some(p5) => Some((
                                    SpecDescriptor { device_id: id, components: cs },
                                    p5,
                                )),
                                None => None,
                            },
                            None => None,
                        },
                        None => None,
                    }
                } else {
                    None
                }
            },
            None => None,
        },
        None => None,
    }
}

/// Consume the descriptors after the first.
pub open spec fn parse_descs_tail(t: Seq<char>, pos: int) -> Option<(Seq<SpecDescriptor>, int)>
    decreases t.len() - pos when 0 <= pos <= t.len()
{
    if pos < t.len() && t[pos] == ']' {
        Some((Seq::empty(), pos + 1))
    } else if pos < t.len() && t[pos] == ',' {
        match parse_descriptor(t, pos + 1) {
            Some((d, end)) => {
                if pos + 1 < end && end <= t.len() {
                    match parse_descs_tail(t, end) {
                        Some((ds, e2)) => Some((seq![d] + ds, e2)),
                        None => None,
                    }
                } else {
                    None
                }
            },
            None => None,
        }
    } else {
        None
    }
}

/// Consume a bracketed array of device descriptors.
pub open spec fn parse_descs(t: Seq<char>, pos: int) -> Option<(Seq<SpecDescriptor>, int)> {
    if 0 <= pos < t.len() && t[pos] == '[' {
        if pos + 1 < t.len() && t[pos + 1] == ']' {
            Some((Seq::empty(), pos + 2))
        } else {
            match parse_descriptor(t, pos + 1) {
                Some((d, end)) => {
                    if pos + 1 < end && end <= t.len() {
                        match parse_descs_tail(t, end) {
                            Some((ds, e2)) => Some((seq![d] + ds, e2)),
                            None => None,
                        }
                    } else {
                        None
                    }
                },
                None => None,
            }
        }
    } else {
        None
    }
}

/// Consume one parameter type tag object.
pub open spec fn parse_param_obj(t: Seq<char>, pos: int) -> Option<(Seq<char>, int)> {
    match parse_lit(t, pos, "{\"type\":"@) {
        Some(p1) => match parse_string(t, p1) {
            Some((s, p2)) => match parse_lit(t, p2, "}"@) {
                Some(p3) => Some((s, p3)),
                None => None,
            },
            None => None,
        },
        None => None,
    }
}

/// Consume the parameter type tags after the first.
pub open spec fn parse_params_tail(t: Seq<char>, pos: int) -> Option<(Seq<Seq<char>>, int)>
    decreases t.len() - pos when 0 <= pos <= t.len()
{
    if pos < t.len() && t[pos] == ']' {
        Some((Seq::empty(), pos + 1))
    } else if pos < t.len() && t[pos] == ',' {
        match parse_param_obj(t, pos + 1) {
            Some((p, end)) => {
                if pos + 1 < end && end <= t.len() {
                    match parse_params_tail(t, end) {
                        Some((ps, e2)) => Some((seq![p] + ps, e2)),
                        None => None,
                    }
                } else {
                    None
                }
            },
            None => None,
        }
    } else {
        None
    }
}

/// Consume a bracketed array of parameter type tag objects.
pub open spec fn parse_params(t: Seq<char>, pos: int) -> Option<(Seq<Seq<char>>, int)> {
    if 0 <= pos < t.len() && t[pos] == '[' {
        if pos + 1 < t.len() && t[pos + 1] == ']' {
            Some((Seq::empty(), pos + 2))
        } else {
            match parse_param_obj(t, pos + 1) {
                Some((p, end)) => {
                    if pos + 1 < end && end <= t.len() {
                        match parse_params_tail(t, end) {
                            Some((ps, e2)) => Some((seq![p] + ps, e2)),
                            None => None,
                        }
                    } else {
                        None
                    }
                },
                None => None,
            }
        }
    } else {
        None
    }
}

/// Consume one method descriptor object.  The parameter list and the two
/// descriptions may be absent, as the canonical form omits them.
pub open spec fn parse_method(t: Seq<char>, pos: int) -> Option<(SpecMethod, int)> {
    match parse_lit(t, pos, "{\"name\":"@) {
        Some(p1) => match parse_string(t, p1) {
            Some((name, p2)) => {
                let after_params: Option<(Seq<Seq<char>>, int)> =
                    match parse_lit(t, p2, ",\"parameters\":"@) {
                        Some(q) => parse_params(t, q),
                        None => Some((Seq::empty(), p2)),
                    };
                match after_params {
                    Some((params, p3)) => match parse_lit(t, p3, ",\"returnType\":"@) {
                        Some(p4) => match parse_string(t, p4) {
                            Some((rt, p5)) => {
                                let after_desc: Option<(Option<Seq<char>>, int)> =
                                    match parse_lit(t, p5, ",\"description\":"@) {
                                        Some(q) => match parse_string(t, q) {
                                            Some((d, e)) => Some((Some(d), e)),
                                            None => None,
                                        },
                                        None => Some((None, p5)),
                                    };
                                match after_desc {
                                    Some((desc, p6)) => {
                                        let after_rvd: Option<(Option<Seq<char>>, int)> =
                                            match parse_lit(
                                                t,
                                                p6,
                                                ",\"returnValueDescription\":"@,
                                            ) {
                                                Some(q) => match parse_string(t, q) {
                                                    Some((d, e)) => Some((Some(d), e)),
                                                    None => None,
                                                },
                                                None => Some((None, p6)),
                                            };
                                        match after_rvd {
                                            Some((rvd, p7)) => match parse_lit(t, p7, "}"@) {
                                                Some(p8) => Some((
                                                    SpecMethod {
                                                        name: name,
                                                        parameters: params,
                                                        return_type: rt,
                                                        description: desc,
                                                        return_value_description: rvd,
                                                    },
                                                    p8,
                                                )),
                                                None => None,
                                            },
                                            None => None,
                                        }
                                    },
                                    None => None,
                                }
                            },
                            None => None,
                        },
                        None => None,
                    },
                    None => None,
                }
            },
            None => None,
        },
        None => None,
    }
}

/// Consume the method descriptors after the first.
pub open spec fn parse_methods_tail(t: Seq<char>, pos: int) -> Option<(Seq<SpecMethod>, int)>
    decreases t.len() - pos when 0 <= pos <= t.len()
{
    if pos < t.len() && t[pos] == ']' {
        Some((Seq::empty(), pos + 1))
    } else if pos < t.len() && t[pos] == ',' {
        match parse_method(t, pos + 1) {
            Some((m, end)) => {
                if pos + 1 < end && end <= t.len() {
                    match parse_methods_tail(t, end) {
                        Some((ms, e2)) => Some((seq![m] + ms, e2)),
                        None => None,
                    }
                } else {
                    None
                }
            },
            None => None,
        }
    } else {
        None
    }
}

/// Consume a bracketed array of method descriptors.
pub open spec fn parse_methods(t: Seq<char>, pos: int) -> Option<(Seq<SpecMethod>, int)> {
    if 0 <= pos < t.len() && t[pos] == '[' {
        if pos + 1 < t.len() && t[pos + 1] == ']' {
            Some((Seq::empty(), pos + 2))
        } else {
            match parse_method(t, pos + 1) {
                Some((m, end)) => {
                    if pos + 1 < end && end <= t.len() {
                        match parse_methods_tail(t, end) {
                            Some((ms, e2)) => Some((seq![m] + ms, e2)),
                            None => None,
                        }
                    } else {
                        None
                    }
                },
                None => None,
            }
        }
    } else {
        None
    }
}

/// Parse one whole response text.  The tagged object drives the shape of
/// its payload; a `result` response whose payload is absent decodes to
/// the empty default, the null value.
pub open spec fn parse_return(t: Seq<char>) -> Option<SpecReturn> {
    match parse_lit(t, 0, "{\"type\":\"list\",\"data\":"@) {
        Some(p) => match parse_descs(t, p) {
            Some((ds, p2)) => {
                if parse_lit(t, p2, "}"@) == Some(t.len() as int) {
                    Some(SpecReturn::List(ds))
                } else {
                    None
                }
            },
            None => None,
        },
        None => match parse_lit(t, 0, "{\"type\":\"methods\",\"data\":"@) {
            Some(p) => match parse_methods(t, p) {
                Some((ms, p2)) => {
                    if parse_lit(t, p2, "}"@) == Some(t.len() as int) {
                        Some(SpecReturn::Methods(ms))
                    } else {
                        None
                    }
                },
                None => None,
            },
            None => match parse_lit(t, 0, "{\"type\":\"error\",\"data\":"@) {
                Some(p) => match parse_string(t, p) {
                    Some((e, p2)) => {
                        if parse_lit(t, p2, "}"@) == Some(t.len() as int) {
                            Some(SpecReturn::Error(e))
                        } else {
                            None
                        }
                    },
                    None => None,
                },
                None => match parse_lit(t, 0, "{\"type\":\"result\",\"data\":"@) {
                    Some(p) => match parse_value(t, p) {
                        Some((v, p2)) => {
                            if parse_lit(t, p2, "}"@) == Some(t.len() as int) {
                                Some(SpecReturn::Result(v))
                            } else {
                                None
                            }
                        },
                        None => None,
                    },
                    None => {
                        if parse_lit(t, 0, "{\"type\":\"result\"}"@) == Some(t.len() as int) {
                            Some(SpecReturn::Result(SpecJson::Atom(SpecScalar::Null)))
                        } else {
                            None
                        }
                    },
                },
            },
        },
    }
}

} // verus!

verus! {

// ------------------------------------------------------------------
// Response parsing: executable code
// ------------------------------------------------------------------

/// The declared shape of std's UTF-8 validation error.
#[verifier::external_type_specification]
#[verifier::external_body]
pub struct ExUtf8Error(core::str::Utf8Error);

/// Relies on `core::str::from_utf8`: succeeds exactly on valid UTF-8 and
/// then views the same bytes as text.
pub assume_specification<'a>[ core::str::from_utf8 ](v: &'a [u8]) -> (r: Result<
    &'a str,
    core::str::Utf8Error,
>)
    ensures
        match r {
            Ok(s) => valid_utf8(v@) && s.spec_bytes() == v@,
            Err(_) => !valid_utf8(v@),
        },
;

/// Consume the strings of a string array after the first.
fn p_strs_tail(t: &str, n: usize, pos: usize) -> (r: Option<(Vec<String>, usize)>)
    requires
        n == t@.len(),
        pos <= n,
    ensures
        match r {
            Some((ss, end)) => parse_strs_tail(t@, pos as int)
                == Some((ss.deep_view(), end as int)) && pos < end <= n,
            None => parse_strs_tail(t@, pos as int) is None,
        },
    decreases n - pos,
{
    if pos >= n {
        return None;
    }
    let c = t.get_char(pos);
    if c == ']' {
        let ss: Vec<String> = Vec::new();
        proof {
            assert(ss.deep_view() =~= Seq::<Seq<char>>::empty());
        }
        return Some((ss, pos + 1));
    }
    if c == ',' {
        match p_string(t, n, pos + 1) {
            Some((s, end)) => {
                match p_strs_tail(t, n, end) {
                    Some((mut ss, e2)) => {
                        let ghost old_ss = ss.deep_view();
                        let ghost sv = s@;
                        ss.insert(0, s);
                        proof {
                            assert(ss.deep_view() =~= seq![sv] + old_ss);
                        }
                        Some((ss, e2))
                    },
                    None => None,
                }
            },
            None => None,
        }
    } else {
        None
    }
}

/// Consume a bracketed array of strings.
fn p_strs(t: &str, n: usize, pos: usize) -> (r: Option<(Vec<String>, usize)>)
    requires
        n == t@.len(),
        pos <= n,
    ensures
        match r {
            Some((ss, end)) => parse_strs(t@, pos as int)
                == Some((ss.deep_view(), end as int)) && pos < end <= n,
            None => parse_strs(t@, pos as int) is None,
        },
{
    if pos >= n {
        return None;
    }
    if t.get_char(pos) != '[' {
        return None;
    }
    if pos + 1 < n && t.get_char(pos + 1) == ']' {
        let ss: Vec<String> = Vec::new();
        proof {
            assert(ss.deep_view() =~= Seq::<Seq<char>>::empty());
        }
        return Some((ss, pos + 2));
    }
    match p_string(t, n, pos + 1) {
        Some((s, end)) => {
            match p_strs_tail(t, n, end) {
                Some((mut ss, e2)) => {
                    let ghost old_ss = ss.deep_view();
                    let ghost sv = s@;
                    ss.insert(0, s);
                    proof {
                        assert(ss.deep_view() =~= seq![sv] + old_ss);
                    }
                    Some((ss, e2))
                },
                None => None,
            }
        },
        None => None,
    }
}

/// Consume one device descriptor object.
fn p_descriptor(t: &str, n: usize, pos: usize) -> (r: Option<(RPCDeviceDescriptor, usize)>)
    requires
        n == t@.len(),
        pos <= n,
    ensures
        match r {
            Some((d, end)) => parse_descriptor(t@, pos as int) == Some((d@, end as int))
                && pos < end <= n && d.wf(),
            None => parse_descriptor(t@, pos as int) is None,
        },
{
    let p1 = match expect_lit(t, n, pos, "{\"deviceId\":") {
        Some(p) => p,
        None => {
            return None;
        },
    };
    let (id_text, p2) = match p_string(t, n, p1) {
        Some(x) => x,
        None => {
            return None;
        },
    };
    let id = match RPCDevice::parse(id_text) {
        Some(d) => d,
        None => {
            return None;
        },
    };
    let p3 = match expect_lit(t, n, p2, ",\"typeNames\":") {
        Some(p) => p,
        None => {
            return None;
        },
    };
    let (cs, p4) = match p_strs(t, n, p3) {
        Some(x) => x,
        None => {
            return None;
        },
    };
    let p5 = match expect_lit(t, n, p4, "}") {
        Some(p) => p,
        None => {
            return None;
        },
    };
    proof {
        reveal_strlit("{\"deviceId\":");
        reveal_strlit("}");
    }
    Some((RPCDeviceDescriptor { device_id: id, components: cs }, p5))
}

/// Consume the descriptors after the first.
fn p_descs_tail(t: &str, n: usize, pos: usize) -> (r: Option<(Vec<RPCDeviceDescriptor>, usize)>)
    requires
        n == t@.len(),
        pos <= n,
    ensures
        match r {
            Some((ds, end)) => parse_descs_tail(t@, pos as int)
                == Some((descs_view(ds@), end as int)) && pos < end <= n
                && forall|i: int| 0 <= i < ds.len() ==> (#[trigger] ds@[i]).wf(),
            None => parse_descs_tail(t@, pos as int) is None,
        },
    decreases n - pos,
{
    if pos >= n {
        return None;
    }
    let c = t.get_char(pos);
    if c == ']' {
        let ds: Vec<RPCDeviceDescriptor> = Vec::new();
        proof {
            assert(descs_view(ds@) =~= Seq::<SpecDescriptor>::empty());
        }
        return Some((ds, pos + 1));
    }
    if c == ',' {
        match p_descriptor(t, n, pos + 1) {
            Some((d, end)) => {
                match p_descs_tail(t, n, end) {
                    Some((mut ds, e2)) => {
                        let ghost old_ds = ds@;
                        let ghost dv = d@;
                        ds.insert(0, d);
                        proof {
                            assert(descs_view(ds@) =~= seq![dv] + descs_view(old_ds));
                        }
                        Some((ds, e2))
                    },
                    None => None,
                }
            },
            None => None,
        }
    } else {
        None
    }
}

/// Consume a bracketed array of device descriptors.
fn p_descs(t: &str, n: usize, pos: usize) -> (r: Option<(Vec<RPCDeviceDescriptor>, usize)>)
    requires
        n == t@.len(),
        pos <= n,
    ensures
        match r {
            Some((ds, end)) => parse_descs(t@, pos as int)
                == Some((descs_view(ds@), end as int)) && pos < end <= n
                && forall|i: int| 0 <= i < ds.len() ==> (#[trigger] ds@[i]).wf(),
            None => parse_descs(t@, pos as int) is None,
        },
{
    if pos >= n {
        return None;
    }
    if t.get_char(pos) != '[' {
        return None;
    }
    if pos + 1 < n && t.get_char(pos + 1) == ']' {
        let ds: Vec<RPCDeviceDescriptor> = Vec::new();
        proof {
            assert(descs_view(ds@) =~= Seq::<SpecDescriptor>::empty());
        }
        return Some((ds, pos + 2));
    }
    match p_descriptor(t, n, pos + 1) {
        Some((d, end)) => {
            match p_descs_tail(t, n, end) {
                Some((mut ds, e2)) => {
                    let ghost old_ds = ds@;
                    let ghost dv = d@;
                    ds.insert(0, d);
                    proof {
                        assert(descs_view(ds@) =~= seq![dv] + descs_view(old_ds));
                    }
                    Some((ds, e2))
                },
                None => None,
            }
        },
        None => None,
    }
}

/// Consume one parameter type tag object.
fn p_param_obj(t: &str, n: usize, pos: usize) -> (r: Option<(RPCParamType, usize)>)
    requires
        n == t@.len(),
        pos <= n,
    ensures
        match r {
            Some((p, end)) => parse_param_obj(t@, pos as int) == Some((p@.data, end as int))
                && pos < end <= n,
            None => parse_param_obj(t@, pos as int) is None,
        },
{
    let p1 = match expect_lit(t, n, pos, "{\"type\":") {
        Some(p) => p,
        None => {
            return None;
        },
    };
    let (s, p2) = match p_string(t, n, p1) {
        Some(x) => x,
        None => {
            return None;
        },
    };
    let p3 = match expect_lit(t, n, p2, "}") {
        Some(p) => p,
        None => {
            return None;
        },
    };
    proof {
        reveal_strlit("{\"type\":");
    }
    Some((RPCParamType::new(s), p3))
}

/// Consume the parameter type tags after the first.
fn p_params_tail(t: &str, n: usize, pos: usize) -> (r: Option<(Vec<RPCParamType>, usize)>)
    requires
        n == t@.len(),
        pos <= n,
    ensures
        match r {
            Some((ps, end)) => parse_params_tail(t@, pos as int)
                == Some((params_view(ps@), end as int)) && pos < end <= n,
            None => parse_params_tail(t@, pos as int) is None,
        },
    decreases n - pos,
{
    if pos >= n {
        return None;
    }
    let c = t.get_char(pos);
    if c == ']' {
        let ps: Vec<RPCParamType> = Vec::new();
        proof {
            assert(params_view(ps@) =~= Seq::<Seq<char>>::empty());
        }
        return Some((ps, pos + 1));
    }
    if c == ',' {
        match p_param_obj(t, n, pos + 1) {
            Some((p, end)) => {
                match p_params_tail(t, n, end) {
                    Some((mut ps, e2)) => {
                        let ghost old_ps = ps@;
                        let ghost pv = p@.data;
                        ps.insert(0, p);
                        proof {
                            assert(params_view(ps@) =~= seq![pv] + params_view(old_ps));
                        }
                        Some((ps, e2))
                    },
                    None => None,
                }
            },
            None => None,
        }
    } else {
        None
    }
}

/// Consume a bracketed array of parameter type tag objects.
fn p_params(t: &str, n: usize, pos: usize) -> (r: Option<(Vec<RPCParamType>, usize)>)
    requires
        n == t@.len(),
        pos <= n,
    ensures
        match r {
            Some((ps, end)) => parse_params(t@, pos as int)
                == Some((params_view(ps@), end as int)) && pos < end <= n,
            None => parse_params(t@, pos as int) is None,
        },
{
    if pos >= n {
        return None;
    }
    if t.get_char(pos) != '[' {
        return None;
    }
    if pos + 1 < n && t.get_char(pos + 1) == ']' {
        let ps: Vec<RPCParamType> = Vec::new();
        proof {
            assert(params_view(ps@) =~= Seq::<Seq<char>>::empty());
        }
        return Some((ps, pos + 2));
    }
    match p_param_obj(t, n, pos + 1) {
        Some((p, end)) => {
            match p_params_tail(t, n, end) {
                Some((mut ps, e2)) => {
                    let ghost old_ps = ps@;
                    let ghost pv = p@.data;
                    ps.insert(0, p);
                    proof {
                        assert(params_view(ps@) =~= seq![pv] + params_view(old_ps));
                    }
                    Some((ps, e2))
                },
                None => None,
            }
        },
        None => None,
    }
}

/// Consume one method descriptor object.
fn p_method(t: &str, n: usize, pos: usize) -> (r: Option<(RPCDeviceMethod, usize)>)
    requires
        n == t@.len(),
        pos <= n,
    ensures
        match r {
            Some((m, end)) => parse_method(t@, pos as int) == Some((m@, end as int))
                && pos < end <= n,
            None => parse_method(t@, pos as int) is None,
        },
{
    let p1 = match expect_lit(t, n, pos, "{\"name\":") {
        Some(p) => p,
        None => {
            return None;
        },
    };
    let (name, p2) = match p_string(t, n, p1) {
        Some(x) => x,
        None => {
            return None;
        },
    };
    let (params, p3) = match expect_lit(t, n, p2, ",\"parameters\":") {
        Some(q) => {
            match p_params(t, n, q) {
                Some(x) => x,
                None => {
                    return None;
                },
            }
        },
        None => (Vec::new(), p2),
    };
    let p4 = match expect_lit(t, n, p3, ",\"returnType\":") {
        Some(p) => p,
        None => {
            return None;
        },
    };
    let (rt, p5) = match p_string(t, n, p4) {
        Some(x) => x,
        None => {
            return None;
        },
    };
    let (desc, p6) = match expect_lit(t, n, p5, ",\"description\":") {
        Some(q) => {
            match p_string(t, n, q) {
                Some((d, e)) => (Some(d), e),
                None => {
                    return None;
                },
            }
        },
        None => (None, p5),
    };
    let (rvd, p7) = match expect_lit(t, n, p6, ",\"returnValueDescription\":") {
        Some(q) => {
            match p_string(t, n, q) {
                Some((d, e)) => (Some(d), e),
                None => {
                    return None;
                },
            }
        },
        None => (None, p6),
    };
    let p8 = match expect_lit(t, n, p7, "}") {
        Some(p) => p,
        None => {
            return None;
        },
    };
    proof {
        reveal_strlit("{\"name\":");
        assert(params_view(Seq::<RPCParamType>::empty()) =~= Seq::<Seq<char>>::empty());
    }
    let m = RPCDeviceMethod {
        name,
        parameters: params,
        return_type: rt,
        description: desc,
        return_value_description: rvd,
    };
    Some((m, p8))
}

/// Consume the method descriptors after the first.
fn p_methods_tail(t: &str, n: usize, pos: usize) -> (r: Option<(Vec<RPCDeviceMethod>, usize)>)
    requires
        n == t@.len(),
        pos <= n,
    ensures
        match r {
            Some((ms, end)) => parse_methods_tail(t@, pos as int)
                == Some((methods_view(ms@), end as int)) && pos < end <= n,
            None => parse_methods_tail(t@, pos as int) is None,
        },
    decreases n - pos,
{
    if pos >= n {
        return None;
    }
    let c = t.get_char(pos);
    if c == ']' {
        let ms: Vec<RPCDeviceMethod> = Vec::new();
        proof {
            assert(methods_view(ms@) =~= Seq::<SpecMethod>::empty());
        }
        return Some((ms, pos + 1));
    }
    if c == ',' {
        match p_method(t, n, pos + 1) {
            Some((m, end)) => {
                match p_methods_tail(t, n, end) {
                    Some((mut ms, e2)) => {
                        let ghost old_ms = ms@;
                        let ghost mv = m@;
                        ms.insert(0, m);
                        proof {
                            assert(methods_view(ms@) =~= seq![mv] + methods_view(old_ms));
                        }
                        Some((ms, e2))
                    },
                    None => None,
                }
            },
            None => None,
        }
    } else {
        None
    }
}

/// Consume a bracketed array of method descriptors.
fn p_methods(t: &str, n: usize, pos: usize) -> (r: Option<(Vec<RPCDeviceMethod>, usize)>)
    requires
        n == t@.len(),
        pos <= n,
    ensures
        match r {
            Some((ms, end)) => parse_methods(t@, pos as int)
                == Some((methods_view(ms@), end as int)) && pos < end <= n,
            None => parse_methods(t@, pos as int) is None,
        },
{
    if pos >= n {
        return None;
    }
    if t.get_char(pos) != '[' {
        return None;
    }
    if pos + 1 < n && t.get_char(pos + 1) == ']' {
        let ms: Vec<RPCDeviceMethod> = Vec::new();
        proof {
            assert(methods_view(ms@) =~= Seq::<SpecMethod>::empty());
        }
        return Some((ms, pos + 2));
    }
    match p_method(t, n, pos + 1) {
        Some((m, end)) => {
            match p_methods_tail(t, n, end) {
                Some((mut ms, e2)) => {
                    let ghost old_ms = ms@;
                    let ghost mv = m@;
                    ms.insert(0, m);
                    proof {
                        assert(methods_view(ms@) =~= seq![mv] + methods_view(old_ms));
                    }
                    Some((ms, e2))
                },
                None => None,
            }
        },
        None => None,
    }
}

/// Parse one whole response text into the shape its tag names.
fn p_return(t: &str, n: usize) -> (r: Option<BusReturn>)
    requires
        n == t@.len(),
    ensures
        match r {
            Some(ret) => parse_return(t@) == Some(ret@)
                && (ret matches BusReturn::List(ds)
                    ==> forall|i: int| 0 <= i < ds.len() ==> (#[trigger] ds@[i]).wf()),
            None => parse_return(t@) is None,
        },
{
    if let Some(p) = expect_lit(t, n, 0, "{\"type\":\"list\",\"data\":") {
        match p_descs(t, n, p) {
            Some((ds, p2)) => {
                match expect_lit(t, n, p2, "}") {
                    Some(e) => {
                        if e == n {
                            Some(BusReturn::List(ds))
                        } else {
                            None
                        }
                    },
                    None => None,
                }
            },
            None => None,
        }
    } else if let Some(p) = expect_lit(t, n, 0, "{\"type\":\"methods\",\"data\":") {
        match p_methods(t, n, p) {
            Some((ms, p2)) => {
                match expect_lit(t, n, p2, "}") {
                    Some(e) => {
                        if e == n {
                            Some(BusReturn::Methods(ms))
                        } else {
                            None
                        }
                    },
                    None => None,
                }
            },
            None => None,
        }
    } else if let Some(p) = expect_lit(t, n, 0, "{\"type\":\"error\",\"data\":") {
        match p_string(t, n, p) {
            Some((e_msg, p2)) => {
                match expect_lit(t, n, p2, "}") {
                    Some(e) => {
                        if e == n {
                            Some(BusReturn::Error(e_msg))
                        } else {
                            None
                        }
                    },
                    None => None,
                }
            },
            None => None,
        }
    } else if let Some(p) = expect_lit(t, n, 0, "{\"type\":\"result\",\"data\":") {
        match p_value(t, n, p) {
            Some((v, p2)) => {
                match expect_lit(t, n, p2, "}") {
                    Some(e) => {
                        if e == n {
                            Some(BusReturn::Result(v))
                        } else {
                            None
                        }
                    },
                    None => None,
                }
            },
            None => None,
        }
    } else if let Some(e) = expect_lit(t, n, 0, "{\"type\":\"result\"}") {
        if e == n {
            Some(BusReturn::Result(JsonValue::Atom(crate::json::Scalar::Null)))
        } else {
            None
        }
    } else {
        None
    }
}

/// What decoding one response frame yields: the framing failure, an
/// `InvalidData` failure when the payload is not UTF-8 text or not a
/// response of the expected shape, or the decoded response.
pub open spec fn decode_return_spec(b: Seq<u8>) -> Result<SpecReturn, BusError> {
    match unframe_spec(b) {
        Err(e) => Err(e),
        Ok(payload) => {
            if !valid_utf8(payload) {
                Err(BusError::InvalidData)
            } else {
                match parse_return(decode_utf8(payload)) {
                    Some(r) => Ok(r),
                    None => Err(BusError::InvalidData),
                }
            }
        },
    }
}

/// Decode exactly one framed response: check the delimiters, read the
/// payload as UTF-8 text, and parse the response the text encodes.
pub fn decode_return(b: &[u8]) -> (r: Result<BusReturn, BusError>)
    ensures
        match r {
            Ok(ret) => decode_return_spec(b@) == Ok::<SpecReturn, BusError>(ret@)
                && (ret matches BusReturn::List(ds)
                    ==> forall|i: int| 0 <= i < ds.len() ==> (#[trigger] ds@[i]).wf()),
            Err(e) => decode_return_spec(b@) == Err::<SpecReturn, BusError>(e),
        },
{
    let payload = match unframe(b) {
        Ok(p) => p,
        Err(e) => {
            return Err(e);
        },
    };
    let text = match core::str::from_utf8(payload.as_slice()) {
        Ok(t) => t,
        Err(_) => {
            return Err(BusError::InvalidData);
        },
    };
    proof {
        vstd::utf8::encode_utf8_decode_utf8(text@);
        assert(decode_utf8(payload@) == text@);
    }
    let n = text.unicode_len();
    match p_return(text, n) {
        Some(ret) => Ok(ret),
        None => Err(BusError::InvalidData),
    }
}

} // verus!

verus! {

// ------------------------------------------------------------------
// Completeness: canonical response texts parse back to their values
// ------------------------------------------------------------------

use crate::json::has_at;
use crate::json::lemma_has_at_concat;
use crate::json::lemma_has_at_char;
use crate::json::lemma_parse_string_of;
use crate::json::lemma_parse_value_of;

proof fn lemma_str_chars_first(s: Seq<char>)
    ensures
        str_chars(s).len() >= 2,
        str_chars(s)[0] == '"',
{
    assert(str_chars(s)[0] == '"');
}

proof fn lemma_parse_strs_tail_of(t: Seq<char>, pos: int, ss: Seq<Seq<char>>)
    requires
        has_at(t, pos, strs_tail_chars(ss) + seq![']']),
    ensures
        parse_strs_tail(t, pos) == Some((ss, pos + strs_tail_chars(ss).len() + 1)),
    decreases ss.len(),
{
    if ss.len() == 0 {
        assert(strs_tail_chars(ss) + seq![']'] =~= seq![']']);
        lemma_has_at_char(t, pos, ']');
    } else {
        let s0 = ss[0];
        let rest = ss.drop_first();
        let tail_region = strs_tail_chars(rest) + seq![']'];
        assert(strs_tail_chars(ss) + seq![']'] =~= seq![','] + (str_chars(s0) + tail_region));
        lemma_has_at_concat(t, pos, seq![','], str_chars(s0) + tail_region);
        lemma_has_at_char(t, pos, ',');
        lemma_has_at_concat(t, pos + 1, str_chars(s0), tail_region);
        lemma_parse_string_of(t, pos + 1, s0);
        lemma_str_chars_first(s0);
        lemma_parse_strs_tail_of(t, pos + 1 + str_chars(s0).len(), rest);
        assert(seq![s0] + rest =~= ss);
    }
}

proof fn lemma_parse_strs_of(t: Seq<char>, pos: int, ss: Seq<Seq<char>>)
    requires
        has_at(t, pos, seq!['['] + strs_body_chars(ss) + seq![']']),
    ensures
        parse_strs(t, pos) == Some((ss, pos + strs_body_chars(ss).len() + 2)),
{
    assert(seq!['['] + strs_body_chars(ss) + seq![']']
        =~= seq!['['] + (strs_body_chars(ss) + seq![']']));
    lemma_has_at_concat(t, pos, seq!['['], strs_body_chars(ss) + seq![']']);
    lemma_has_at_char(t, pos, '[');
    if ss.len() == 0 {
        assert(strs_body_chars(ss) + seq![']'] =~= seq![']']);
        lemma_has_at_char(t, pos + 1, ']');
    } else {
        let s0 = ss[0];
        let rest = ss.drop_first();
        let tail_region = strs_tail_chars(rest) + seq![']'];
        assert(strs_body_chars(ss) + seq![']'] =~= str_chars(s0) + tail_region);
        lemma_has_at_concat(t, pos + 1, str_chars(s0), tail_region);
        lemma_str_chars_first(s0);
        assert(t.subrange(pos + 1, pos + 1 + str_chars(s0).len() as int)[0] == t[pos + 1]);
        assert(t[pos + 1] == '"');
        lemma_parse_string_of(t, pos + 1, s0);
        lemma_parse_strs_tail_of(t, pos + 1 + str_chars(s0).len(), rest);
        assert(seq![s0] + rest =~= ss);
    }
}

proof fn lemma_parse_descriptor_of(t: Seq<char>, pos: int, d: SpecDescriptor)
    requires
        has_at(t, pos, descriptor_chars(d)),
        is_uuid_chars(d.device_id),
    ensures
        parse_descriptor(t, pos) == Some((d, pos + descriptor_chars(d).len())),
{
    let lit1 = "{\"deviceId\":"@;
    let lit2 = ",\"typeNames\":"@;
    reveal_strlit("{\"deviceId\":");
    reveal_strlit(",\"typeNames\":");
    reveal_strlit("}");
    let strs_region = seq!['['] + strs_body_chars(d.components) + seq![']'];
    assert(descriptor_chars(d)
        =~= lit1 + (str_chars(d.device_id) + (lit2 + (strs_region + seq!['}']))));
    lemma_has_at_concat(t, pos, lit1, str_chars(d.device_id) + (lit2 + (strs_region
        + seq!['}'])));
    let p1 = pos + lit1.len();
    lemma_has_at_concat(t, p1, str_chars(d.device_id), lit2 + (strs_region + seq!['}']));
    lemma_parse_string_of(t, p1, d.device_id);
    let p2 = p1 + str_chars(d.device_id).len();
    lemma_has_at_concat(t, p2, lit2, strs_region + seq!['}']);
    let p3 = p2 + lit2.len();
    lemma_has_at_concat(t, p3, strs_region, seq!['}']);
    lemma_parse_strs_of(t, p3, d.components);
    let p4 = p3 + strs_region.len();
    lemma_has_at_char(t, p4, '}');
    assert("}"@ =~= seq!['}']);
    assert(has_at(t, p4, "}"@)) by {
        assert(t.subrange(p4, p4 + 1) =~= seq![t[p4]]);
    }
}

proof fn lemma_descriptor_chars_first(d: SpecDescriptor)
    ensures
        descriptor_chars(d).len() >= 1,
        descriptor_chars(d)[0] == '{',
{
    reveal_strlit("{\"deviceId\":");
    assert(descriptor_chars(d)[0] == "{\"deviceId\":"@[0]);
}

proof fn lemma_parse_descs_tail_of(t: Seq<char>, pos: int, ds: Seq<SpecDescriptor>)
    requires
        has_at(t, pos, descs_tail_chars(ds) + seq![']']),
        forall|i: int| 0 <= i < ds.len() ==> is_uuid_chars(#[trigger] ds[i].device_id),
    ensures
        parse_descs_tail(t, pos) == Some((ds, pos + descs_tail_chars(ds).len() + 1)),
    decreases ds.len(),
{
    if ds.len() == 0 {
        assert(descs_tail_chars(ds) + seq![']'] =~= seq![']']);
        lemma_has_at_char(t, pos, ']');
    } else {
        let d0 = ds[0];
        let rest = ds.drop_first();
        let tail_region = descs_tail_chars(rest) + seq![']'];
        assert(descs_tail_chars(ds) + seq![']']
            =~= seq![','] + (descriptor_chars(d0) + tail_region));
        lemma_has_at_concat(t, pos, seq![','], descriptor_chars(d0) + tail_region);
        lemma_has_at_char(t, pos, ',');
        lemma_has_at_concat(t, pos + 1, descriptor_chars(d0), tail_region);
        lemma_parse_descriptor_of(t, pos + 1, d0);
        lemma_descriptor_chars_first(d0);
        assert forall|i: int| 0 <= i < rest.len()
            implies is_uuid_chars(#[trigger] rest[i].device_id) by {
            assert(rest[i] == ds[i + 1]);
        }
        lemma_parse_descs_tail_of(t, pos + 1 + descriptor_chars(d0).len(), rest);
        assert(seq![d0] + rest =~= ds);
    }
}

proof fn lemma_parse_descs_of(t: Seq<char>, pos: int, ds: Seq<SpecDescriptor>)
    requires
        has_at(t, pos, seq!['['] + descs_body_chars(ds) + seq![']']),
        forall|i: int| 0 <= i < ds.len() ==> is_uuid_chars(#[trigger] ds[i].device_id),
    ensures
        parse_descs(t, pos) == Some((ds, pos + descs_body_chars(ds).len() + 2)),
{
    assert(seq!['['] + descs_body_chars(ds) + seq![']']
        =~= seq!['['] + (descs_body_chars(ds) + seq![']']));
    lemma_has_at_concat(t, pos, seq!['['], descs_body_chars(ds) + seq![']']);
    lemma_has_at_char(t, pos, '[');
    if ds.len() == 0 {
        assert(descs_body_chars(ds) + seq![']'] =~= seq![']']);
        lemma_has_at_char(t, pos + 1, ']');
    } else {
        let d0 = ds[0];
        let rest = ds.drop_first();
        let tail_region = descs_tail_chars(rest) + seq![']'];
        assert(descs_body_chars(ds) + seq![']'] =~= descriptor_chars(d0) + tail_region);
        lemma_has_at_concat(t, pos + 1, descriptor_chars(d0), tail_region);
        lemma_descriptor_chars_first(d0);
        assert(t.subrange(pos + 1, pos + 1 + descriptor_chars(d0).len() as int)[0]
            == t[pos + 1]);
        assert(t[pos + 1] == '{');
        lemma_parse_descriptor_of(t, pos + 1, d0);
        assert forall|i: int| 0 <= i < rest.len()
            implies is_uuid_chars(#[trigger] rest[i].device_id) by {
            assert(rest[i] == ds[i + 1]);
        }
        lemma_parse_descs_tail_of(t, pos + 1 + descriptor_chars(d0).len(), rest);
        assert(seq![d0] + rest =~= ds);
    }
}

proof fn lemma_parse_param_obj_of(t: Seq<char>, pos: int, p: Seq<char>)
    requires
        has_at(t, pos, param_obj_chars(p)),
    ensures
        parse_param_obj(t, pos) == Some((p, pos + param_obj_chars(p).len())),
{
    let lit1 = "{\"type\":"@;
    reveal_strlit("{\"type\":");
    reveal_strlit("}");
    assert(param_obj_chars(p) =~= lit1 + (str_chars(p) + "}"@));
    lemma_has_at_concat(t, pos, lit1, str_chars(p) + "}"@);
    let p1 = pos + lit1.len();
    lemma_has_at_concat(t, p1, str_chars(p), "}"@);
    lemma_parse_string_of(t, p1, p);
}

proof fn lemma_param_obj_chars_first(p: Seq<char>)
    ensures
        param_obj_chars(p).len() >= 1,
        param_obj_chars(p)[0] == '{',
{
    reveal_strlit("{\"type\":");
    assert(param_obj_chars(p)[0] == "{\"type\":"@[0]);
}

proof fn lemma_parse_params_tail_of(t: Seq<char>, pos: int, ps: Seq<Seq<char>>)
    requires
        has_at(t, pos, params_tail_chars(ps) + seq![']']),
    ensures
        parse_params_tail(t, pos) == Some((ps, pos + params_tail_chars(ps).len() + 1)),
    decreases ps.len(),
{
    if ps.len() == 0 {
        assert(params_tail_chars(ps) + seq![']'] =~= seq![']']);
        lemma_has_at_char(t, pos, ']');
    } else {
        let p0 = ps[0];
        let rest = ps.drop_first();
        let tail_region = params_tail_chars(rest) + seq![']'];
        assert(params_tail_chars(ps) + seq![']']
            =~= seq![','] + (param_obj_chars(p0) + tail_region));
        lemma_has_at_concat(t, pos, seq![','], param_obj_chars(p0) + tail_region);
        lemma_has_at_char(t, pos, ',');
        lemma_has_at_concat(t, pos + 1, param_obj_chars(p0), tail_region);
        lemma_parse_param_obj_of(t, pos + 1, p0);
        lemma_param_obj_chars_first(p0);
        lemma_parse_params_tail_of(t, pos + 1 + param_obj_chars(p0).len(), rest);
        assert(seq![p0] + rest =~= ps);
    }
}

proof fn lemma_parse_params_of(t: Seq<char>, pos: int, ps: Seq<Seq<char>>)
    requires
        has_at(t, pos, seq!['['] + params_body_chars(ps) + seq![']']),
    ensures
        parse_params(t, pos) == Some((ps, pos + params_body_chars(ps).len() + 2)),
{
    assert(seq!['['] + params_body_chars(ps) + seq![']']
        =~= seq!['['] + (params_body_chars(ps) + seq![']']));
    lemma_has_at_concat(t, pos, seq!['['], params_body_chars(ps) + seq![']']);
    lemma_has_at_char(t, pos, '[');
    if ps.len() == 0 {
        assert(params_body_chars(ps) + seq![']'] =~= seq![']']);
        lemma_has_at_char(t, pos + 1, ']');
    } else {
        let p0 = ps[0];
        let rest = ps.drop_first();
        let tail_region = params_tail_chars(rest) + seq![']'];
        assert(params_body_chars(ps) + seq![']'] =~= param_obj_chars(p0) + tail_region);
        lemma_has_at_concat(t, pos + 1, param_obj_chars(p0), tail_region);
        lemma_param_obj_chars_first(p0);
        assert(t.subrange(pos + 1, pos + 1 + param_obj_chars(p0).len() as int)[0]
            == t[pos + 1]);
        assert(t[pos + 1] == '{');
        lemma_parse_param_obj_of(t, pos + 1, p0);
        lemma_parse_params_tail_of(t, pos + 1 + param_obj_chars(p0).len(), rest);
        assert(seq![p0] + rest =~= ps);
    }
}

} // verus!

verus! {

#[verifier::rlimit(100)]
#[verifier::spinoff_prover]
proof fn lemma_parse_method_of(t: Seq<char>, pos: int, m: SpecMethod)
    requires
        has_at(t, pos, method_chars(m)),
    ensures
        parse_method(t, pos) == Some((m, pos + method_chars(m).len())),
{
    reveal_strlit("{\"name\":");
    reveal_strlit(",\"parameters\":");
    reveal_strlit(",\"returnType\":");
    reveal_strlit(",\"description\":");
    reveal_strlit(",\"returnValueDescription\":");
    reveal_strlit("}");
    let lit_name = "{\"name\":"@;
    let lit_params = ",\"parameters\":"@;
    let lit_rt = ",\"returnType\":"@;
    let lit_desc = ",\"description\":"@;
    let lit_rvd = ",\"returnValueDescription\":"@;
    assert("}"@ =~= seq!['}']);
    let seg_params: Seq<char> = if m.parameters.len() == 0 {
        Seq::empty()
    } else {
        lit_params + seq!['['] + params_body_chars(m.parameters) + seq![']']
    };
    let seg_desc: Seq<char> = match m.description {
        Option::None => Seq::empty(),
        Option::Some(d) => lit_desc + str_chars(d),
    };
    let seg_rvd: Seq<char> = match m.return_value_description {
        Option::None => Seq::empty(),
        Option::Some(d) => lit_rvd + str_chars(d),
    };
    assert(method_chars(m) =~= lit_name + (str_chars(m.name) + (seg_params + (lit_rt
        + (str_chars(m.return_type) + (seg_desc + (seg_rvd + seq!['}'])))))));
    lemma_has_at_concat(t, pos, lit_name, str_chars(m.name) + (seg_params + (lit_rt
        + (str_chars(m.return_type) + (seg_desc + (seg_rvd + seq!['}']))))));
    let p1 = pos + lit_name.len();
    lemma_has_at_concat(t, p1, str_chars(m.name), seg_params + (lit_rt
        + (str_chars(m.return_type) + (seg_desc + (seg_rvd + seq!['}'])))));
    lemma_parse_string_of(t, p1, m.name);
    let p2 = p1 + str_chars(m.name).len();
    lemma_has_at_concat(t, p2, seg_params, lit_rt
        + (str_chars(m.return_type) + (seg_desc + (seg_rvd + seq!['}']))));
    let p3 = p2 + seg_params.len();
    lemma_has_at_concat(t, p3, lit_rt, str_chars(m.return_type) + (seg_desc + (seg_rvd
        + seq!['}'])));
    assert(t.subrange(p3, p3 + lit_rt.len() as int)[2] == t[p3 + 2]);
    assert(t[p3 + 2] == 'r');
    if m.parameters.len() == 0 {
        assert(p3 == p2);
        if parse_lit(t, p2, lit_params) is Some {
            assert(t.subrange(p2, p2 + lit_params.len() as int) == lit_params);
            assert(t.subrange(p2, p2 + lit_params.len() as int)[2] == t[p2 + 2]);
            assert(false);
        }
        assert(m.parameters =~= Seq::<Seq<char>>::empty());
    } else {
        assert(seg_params =~= lit_params + (seq!['['] + params_body_chars(m.parameters)
            + seq![']']));
        lemma_has_at_concat(t, p2, lit_params, seq!['['] + params_body_chars(m.parameters)
            + seq![']']);
        lemma_parse_params_of(t, p2 + lit_params.len(), m.parameters);
    }
    let p4 = p3 + lit_rt.len();
    lemma_has_at_concat(t, p4, str_chars(m.return_type), seg_desc + (seg_rvd + seq!['}']));
    lemma_parse_string_of(t, p4, m.return_type);
    let p5 = p4 + str_chars(m.return_type).len();
    lemma_has_at_concat(t, p5, seg_desc, seg_rvd + seq!['}']);
    let p6 = p5 + seg_desc.len();
    lemma_has_at_concat(t, p6, seg_rvd, seq!['}']);
    let p7 = p6 + seg_rvd.len();
    lemma_has_at_char(t, p7, '}');
    assert(has_at(t, p7, "}"@)) by {
        assert(t.subrange(p7, p7 + 1) =~= seq![t[p7]]);
    }
    match m.description {
        Option::None => {
            assert(p6 == p5);
            if parse_lit(t, p5, lit_desc) is Some {
                assert(t.subrange(p5, p5 + lit_desc.len() as int) == lit_desc);
                match m.return_value_description {
                    Option::None => {
                        assert(t.subrange(p5, p5 + lit_desc.len() as int)[0] == t[p5]);
                        assert(t[p5] == '}');
                        assert(false);
                    },
                    Option::Some(d2) => {
                        assert(t.subrange(p6, p6 + seg_rvd.len() as int)[2] == t[p6 + 2]);
                        assert(t[p5 + 2] == 'r');
                        assert(t.subrange(p5, p5 + lit_desc.len() as int)[2] == t[p5 + 2]);
                        assert(false);
                    },
                }
            }
        },
        Option::Some(d) => {
            lemma_has_at_concat(t, p5, lit_desc, str_chars(d));
            lemma_parse_string_of(t, p5 + lit_desc.len(), d);
        },
    }
    match m.return_value_description {
        Option::None => {
            assert(p7 == p6);
            if parse_lit(t, p6, lit_rvd) is Some {
                assert(t.subrange(p6, p6 + lit_rvd.len() as int) == lit_rvd);
                assert(t.subrange(p6, p6 + lit_rvd.len() as int)[0] == t[p6]);
                assert(t[p6] == '}');
                assert(false);
            }
        },
        Option::Some(d2) => {
            lemma_has_at_concat(t, p6, lit_rvd, str_chars(d2));
            lemma_parse_string_of(t, p6 + lit_rvd.len(), d2);
        },
    }
    assert(params_view(Seq::<RPCParamType>::empty()) =~= Seq::<Seq<char>>::empty());
}

proof fn lemma_method_chars_first(m: SpecMethod)
    ensures
        method_chars(m).len() >= 1,
        method_chars(m)[0] == '{',
{
    reveal_strlit("{\"name\":");
    assert(method_chars(m)[0] == "{\"name\":"@[0]);
}

#[verifier::rlimit(100)]
#[verifier::spinoff_prover]
proof fn lemma_parse_methods_tail_of(t: Seq<char>, pos: int, ms: Seq<SpecMethod>)
    requires
        has_at(t, pos, methods_tail_chars(ms) + seq![']']),
    ensures
        parse_methods_tail(t, pos) == Some((ms, pos + methods_tail_chars(ms).len() + 1)),
    decreases ms.len(),
{
    if ms.len() == 0 {
        assert(methods_tail_chars(ms) + seq![']'] =~= seq![']']);
        lemma_has_at_char(t, pos, ']');
    } else {
        let m0 = ms[0];
        let rest = ms.drop_first();
        let tail_region = methods_tail_chars(rest) + seq![']'];
        assert(methods_tail_chars(ms) + seq![']']
            =~= seq![','] + (method_chars(m0) + tail_region));
        lemma_has_at_concat(t, pos, seq![','], method_chars(m0) + tail_region);
        lemma_has_at_char(t, pos, ',');
        lemma_has_at_concat(t, pos + 1, method_chars(m0), tail_region);
        lemma_parse_method_of(t, pos + 1, m0);
        lemma_method_chars_first(m0);
        lemma_parse_methods_tail_of(t, pos + 1 + method_chars(m0).len(), rest);
        assert(seq![m0] + rest =~= ms);
    }
}

#[verifier::rlimit(100)]
#[verifier::spinoff_prover]
proof fn lemma_parse_methods_of(t: Seq<char>, pos: int, ms: Seq<SpecMethod>)
    requires
        has_at(t, pos, seq!['['] + methods_body_chars(ms) + seq![']']),
    ensures
        parse_methods(t, pos) == Some((ms, pos + methods_body_chars(ms).len() + 2)),
{
    assert(seq!['['] + methods_body_chars(ms) + seq![']']
        =~= seq!['['] + (methods_body_chars(ms) + seq![']']));
    lemma_has_at_concat(t, pos, seq!['['], methods_body_chars(ms) + seq![']']);
    lemma_has_at_char(t, pos, '[');
    if ms.len() == 0 {
        assert(methods_body_chars(ms) + seq![']'] =~= seq![']']);
        lemma_has_at_char(t, pos + 1, ']');
    } else {
        let m0 = ms[0];
        let rest = ms.drop_first();
        let tail_region = methods_tail_chars(rest) + seq![']'];
        assert(methods_body_chars(ms) + seq![']'] =~= method_chars(m0) + tail_region);
        lemma_has_at_concat(t, pos + 1, method_chars(m0), tail_region);
        lemma_method_chars_first(m0);
        assert(t.subrange(pos + 1, pos + 1 + method_chars(m0).len() as int)[0] == t[pos + 1]);
        assert(t[pos + 1] == '{');
        lemma_parse_method_of(t, pos + 1, m0);
        lemma_parse_methods_tail_of(t, pos + 1 + method_chars(m0).len(), rest);
        assert(seq![m0] + rest =~= ms);
    }
}

/// Every response text carries the nine-character tagged-object prefix,
/// then its tag.
proof fn lemma_return_tag_char(r: SpecReturn)
    ensures
        return_chars(r).len() > 9,
        r is List ==> return_chars(r)[9] == 'l',
        r is Methods ==> return_chars(r)[9] == 'm',
        r is Error ==> return_chars(r)[9] == 'e',
        r is Result ==> return_chars(r)[9] == 'r',
{
    reveal_strlit("{\"type\":\"list\",\"data\":");
    reveal_strlit("{\"type\":\"methods\",\"data\":");
    reveal_strlit("{\"type\":\"error\",\"data\":");
    reveal_strlit("{\"type\":\"result\",\"data\":");
    match r {
        SpecReturn::List(ds) => {
            assert(return_chars(r)[9] == "{\"type\":\"list\",\"data\":"@[9]);
        },
        SpecReturn::Methods(ms) => {
            assert(return_chars(r)[9] == "{\"type\":\"methods\",\"data\":"@[9]);
        },
        SpecReturn::Error(e) => {
            assert(return_chars(r)[9] == "{\"type\":\"error\",\"data\":"@[9]);
        },
        SpecReturn::Result(v) => {
            assert(return_chars(r)[9] == "{\"type\":\"result\",\"data\":"@[9]);
        },
    }
}

/// A text whose tenth character is not the one a prefix literal carries
/// there does not start with that literal.
proof fn lemma_not_tag(t: Seq<char>, lit: Seq<char>, c: char)
    requires
        lit.len() > 9,
        lit[9] == c,
        t.len() > 9,
        t[9] != c,
    ensures
        parse_lit(t, 0, lit) is None,
{
    if parse_lit(t, 0, lit) is Some {
        assert(t.subrange(0, lit.len() as int) == lit);
        assert(t.subrange(0, lit.len() as int)[9] == t[9]);
        assert(false);
    }
}

#[verifier::rlimit(100)]
#[verifier::spinoff_prover]
proof fn lemma_parse_return_list(ds: Seq<SpecDescriptor>)
    requires
        forall|i: int| 0 <= i < ds.len() ==> is_uuid_chars(#[trigger] ds[i].device_id),
    ensures
        parse_return(return_chars(SpecReturn::List(ds))) == Some(SpecReturn::List(ds)),
{
    reveal_strlit("{\"type\":\"list\",\"data\":");
    reveal_strlit("}");
    let t = return_chars(SpecReturn::List(ds));
    let lit_list = "{\"type\":\"list\",\"data\":"@;
    assert("}"@ =~= seq!['}']);
    assert(t =~= lit_list + ((seq!['['] + descs_body_chars(ds) + seq![']']) + "}"@));
    assert(has_at(t, 0, t)) by {
        assert(t.subrange(0, t.len() as int) =~= t);
    }
    lemma_has_at_concat(t, 0, lit_list, (seq!['['] + descs_body_chars(ds) + seq![']'])
        + "}"@);
    let p = lit_list.len() as int;
    lemma_has_at_concat(t, p, seq!['['] + descs_body_chars(ds) + seq![']'], "}"@);
    lemma_parse_descs_of(t, p, ds);
}

#[verifier::rlimit(100)]
#[verifier::spinoff_prover]
proof fn lemma_parse_return_methods(ms: Seq<SpecMethod>)
    ensures
        parse_return(return_chars(SpecReturn::Methods(ms)))
            == Some(SpecReturn::Methods(ms)),
{
    reveal_strlit("{\"type\":\"list\",\"data\":");
    reveal_strlit("{\"type\":\"methods\",\"data\":");
    reveal_strlit("}");
    let t = return_chars(SpecReturn::Methods(ms));
    let lit_list = "{\"type\":\"list\",\"data\":"@;
    let lit_methods = "{\"type\":\"methods\",\"data\":"@;
    assert("}"@ =~= seq!['}']);
    assert(t =~= lit_methods + ((seq!['['] + methods_body_chars(ms) + seq![']']) + "}"@));
    assert(has_at(t, 0, t)) by {
        assert(t.subrange(0, t.len() as int) =~= t);
    }
    lemma_return_tag_char(SpecReturn::Methods(ms));
    lemma_not_tag(t, lit_list, 'l');
    lemma_has_at_concat(t, 0, lit_methods, (seq!['['] + methods_body_chars(ms)
        + seq![']']) + "}"@);
    let p = lit_methods.len() as int;
    lemma_has_at_concat(t, p, seq!['['] + methods_body_chars(ms) + seq![']'], "}"@);
    lemma_parse_methods_of(t, p, ms);
}

#[verifier::rlimit(100)]
#[verifier::spinoff_prover]
proof fn lemma_parse_return_error(e: Seq<char>)
    ensures
        parse_return(return_chars(SpecReturn::Error(e))) == Some(SpecReturn::Error(e)),
{
    reveal_strlit("{\"type\":\"list\",\"data\":");
    reveal_strlit("{\"type\":\"methods\",\"data\":");
    reveal_strlit("{\"type\":\"error\",\"data\":");
    reveal_strlit("}");
    let t = return_chars(SpecReturn::Error(e));
    let lit_list = "{\"type\":\"list\",\"data\":"@;
    let lit_methods = "{\"type\":\"methods\",\"data\":"@;
    let lit_error = "{\"type\":\"error\",\"data\":"@;
    assert("}"@ =~= seq!['}']);
    assert(t =~= lit_error + (str_chars(e) + "}"@));
    assert(has_at(t, 0, t)) by {
        assert(t.subrange(0, t.len() as int) =~= t);
    }
    lemma_return_tag_char(SpecReturn::Error(e));
    lemma_not_tag(t, lit_list, 'l');
    lemma_not_tag(t, lit_methods, 'm');
    lemma_has_at_concat(t, 0, lit_error, str_chars(e) + "}"@);
    let p = lit_error.len() as int;
    lemma_has_at_concat(t, p, str_chars(e), "}"@);
    lemma_parse_string_of(t, p, e);
    assert("}"@ =~= seq!['}']);
    lemma_has_at_char(t, p + str_chars(e).len(), '}');
}

#[verifier::rlimit(100)]
#[verifier::spinoff_prover]
proof fn lemma_parse_return_result(v: SpecJson)
    requires
        json_wf(v),
    ensures
        parse_return(return_chars(SpecReturn::Result(v))) == Some(SpecReturn::Result(v)),
{
    reveal_strlit("{\"type\":\"list\",\"data\":");
    reveal_strlit("{\"type\":\"methods\",\"data\":");
    reveal_strlit("{\"type\":\"error\",\"data\":");
    reveal_strlit("{\"type\":\"result\",\"data\":");
    reveal_strlit("}");
    let t = return_chars(SpecReturn::Result(v));
    let lit_list = "{\"type\":\"list\",\"data\":"@;
    let lit_methods = "{\"type\":\"methods\",\"data\":"@;
    let lit_error = "{\"type\":\"error\",\"data\":"@;
    let lit_result = "{\"type\":\"result\",\"data\":"@;
    assert("}"@ =~= seq!['}']);
    assert(t =~= lit_result + (value_chars(v) + "}"@));
    assert(has_at(t, 0, t)) by {
        assert(t.subrange(0, t.len() as int) =~= t);
    }
    lemma_return_tag_char(SpecReturn::Result(v));
    lemma_not_tag(t, lit_list, 'l');
    lemma_not_tag(t, lit_methods, 'm');
    lemma_not_tag(t, lit_error, 'e');
    lemma_has_at_concat(t, 0, lit_result, value_chars(v) + "}"@);
    let p = lit_result.len() as int;
    lemma_has_at_concat(t, p, value_chars(v), "}"@);
    let p2 = p + value_chars(v).len();
    assert("}"@ =~= seq!['}']);
    lemma_has_at_char(t, p2, '}');
    lemma_parse_value_of(t, p, v);
}

/// The canonical text of every representable response parses back to
/// exactly that response.
pub proof fn lemma_parse_return_of(r: SpecReturn)
    requires
        return_wf(r),
    ensures
        parse_return(return_chars(r)) == Some(r),
{
    match r {
        SpecReturn::List(ds) => lemma_parse_return_list(ds),
        SpecReturn::Methods(ms) => lemma_parse_return_methods(ms),
        SpecReturn::Error(e) => lemma_parse_return_error(e),
        SpecReturn::Result(v) => lemma_parse_return_result(v),
    }
}

} // verus!

verus! {

// ------------------------------------------------------------------
// The wire round trip
// ------------------------------------------------------------------

use crate::frame::framable;
use crate::frame::DELIMITER;
use crate::json::esc_char;
use crate::json::str_body_chars;
use crate::json::dec_chars;
use crate::json::int_chars;
use crate::json::digit_char;
use crate::json::scalar_chars;
use crate::json::arr_tail_chars;
use crate::json::arr_body_chars;
use crate::json::member_chars;
use crate::json::obj_tail_chars;
use crate::json::obj_body_chars;
use crate::json::SpecScalar as JScalar;

/// Every character of `s` is outside the control range, so its UTF-8
/// bytes are never the frame delimiter.
pub open spec fn no_ctl(s: Seq<char>) -> bool {
    forall|i: int| 0 <= i < s.len() ==> (#[trigger] s[i]) as u32 >= 32
}

proof fn lemma_no_ctl_concat(a: Seq<char>, b: Seq<char>)
    requires
        no_ctl(a),
        no_ctl(b),
    ensures
        no_ctl(a + b),
{
    assert forall|i: int| 0 <= i < (a + b).len() implies ((a + b)[i]) as u32 >= 32 by {
        if i < a.len() {
            assert((a + b)[i] == a[i]);
        } else {
            assert((a + b)[i] == b[i - a.len()]);
        }
    }
}

proof fn lemma_digit_char_no_ctl(d: int)
    ensures
        digit_char(d) as u32 >= 32,
{
}

proof fn lemma_esc_no_ctl(c: char)
    ensures
        no_ctl(esc_char(c)),
{
    lemma_digit_char_no_ctl(c as u32 as int / 16);
    lemma_digit_char_no_ctl(c as u32 as int % 16);
}

proof fn lemma_str_body_no_ctl(s: Seq<char>)
    ensures
        no_ctl(str_body_chars(s)),
    decreases s.len(),
{
    if s.len() > 0 {
        lemma_esc_no_ctl(s[0]);
        lemma_str_body_no_ctl(s.drop_first());
        lemma_no_ctl_concat(esc_char(s[0]), str_body_chars(s.drop_first()));
    }
}

proof fn lemma_str_no_ctl(s: Seq<char>)
    ensures
        no_ctl(str_chars(s)),
{
    lemma_str_body_no_ctl(s);
    lemma_no_ctl_concat(seq!['"'], str_body_chars(s));
    lemma_no_ctl_concat(seq!['"'] + str_body_chars(s), seq!['"']);
    assert(str_chars(s) =~= (seq!['"'] + str_body_chars(s)) + seq!['"']);
}

proof fn lemma_dec_no_ctl(n: nat)
    ensures
        no_ctl(dec_chars(n)),
    decreases n,
{
    lemma_digit_char_no_ctl((n % 10) as int);
    lemma_digit_char_no_ctl(n as int);
    if n >= 10 {
        lemma_dec_no_ctl(n / 10);
        lemma_no_ctl_concat(dec_chars(n / 10), seq![digit_char((n % 10) as int)]);
    }
}

proof fn lemma_int_no_ctl(i: int)
    ensures
        no_ctl(int_chars(i)),
{
    if i < 0 {
        lemma_dec_no_ctl((-i) as nat);
        lemma_no_ctl_concat(seq!['-'], dec_chars((-i) as nat));
    } else {
        lemma_dec_no_ctl(i as nat);
    }
}

proof fn lemma_scalar_no_ctl(v: JScalar)
    ensures
        no_ctl(scalar_chars(v)),
{
    reveal_strlit("null");
    reveal_strlit("true");
    reveal_strlit("false");
    match v {
        JScalar::Null => {},
        JScalar::Bool(b) => {},
        JScalar::Int(i) => lemma_int_no_ctl(i),
        JScalar::Str(s) => lemma_str_no_ctl(s),
    }
}

proof fn lemma_arr_tail_no_ctl(vs: Seq<JScalar>)
    ensures
        no_ctl(arr_tail_chars(vs)),
    decreases vs.len(),
{
    if vs.len() > 0 {
        lemma_scalar_no_ctl(vs[0]);
        lemma_arr_tail_no_ctl(vs.drop_first());
        lemma_no_ctl_concat(seq![','], scalar_chars(vs[0]));
        lemma_no_ctl_concat(seq![','] + scalar_chars(vs[0]), arr_tail_chars(vs.drop_first()));
        assert(arr_tail_chars(vs)
            =~= (seq![','] + scalar_chars(vs[0])) + arr_tail_chars(vs.drop_first()));
    }
}

proof fn lemma_member_no_ctl(k: Seq<char>, v: JScalar)
    ensures
        no_ctl(member_chars(k, v)),
{
    lemma_str_no_ctl(k);
    lemma_scalar_no_ctl(v);
    lemma_no_ctl_concat(str_chars(k), seq![':']);
    lemma_no_ctl_concat(str_chars(k) + seq![':'], scalar_chars(v));
}

proof fn lemma_obj_tail_no_ctl(ms: Seq<(Seq<char>, JScalar)>)
    ensures
        no_ctl(obj_tail_chars(ms)),
    decreases ms.len(),
{
    if ms.len() > 0 {
        lemma_member_no_ctl(ms[0].0, ms[0].1);
        lemma_obj_tail_no_ctl(ms.drop_first());
        lemma_no_ctl_concat(seq![','], member_chars(ms[0].0, ms[0].1));
        lemma_no_ctl_concat(seq![','] + member_chars(ms[0].0, ms[0].1),
            obj_tail_chars(ms.drop_first()));
        assert(obj_tail_chars(ms) =~= (seq![','] + member_chars(ms[0].0, ms[0].1))
            + obj_tail_chars(ms.drop_first()));
    }
}

proof fn lemma_value_no_ctl(v: SpecJson)
    ensures
        no_ctl(value_chars(v)),
{
    match v {
        SpecJson::Atom(s) => lemma_scalar_no_ctl(s),
        SpecJson::Arr(vs) => {
            if vs.len() > 0 {
                lemma_scalar_no_ctl(vs[0]);
                lemma_arr_tail_no_ctl(vs.drop_first());
                lemma_no_ctl_concat(scalar_chars(vs[0]), arr_tail_chars(vs.drop_first()));
            }
            lemma_no_ctl_concat(seq!['['], arr_body_chars(vs));
            lemma_no_ctl_concat(seq!['['] + arr_body_chars(vs), seq![']']);
            assert(value_chars(v) =~= (seq!['['] + arr_body_chars(vs)) + seq![']']);
        },
        SpecJson::Obj(ms) => {
            if ms.len() > 0 {
                lemma_member_no_ctl(ms[0].0, ms[0].1);
                lemma_obj_tail_no_ctl(ms.drop_first());
                lemma_no_ctl_concat(member_chars(ms[0].0, ms[0].1),
                    obj_tail_chars(ms.drop_first()));
            }
            lemma_no_ctl_concat(seq!['{'], obj_body_chars(ms));
            lemma_no_ctl_concat(seq!['{'] + obj_body_chars(ms), seq!['}']);
            assert(value_chars(v) =~= (seq!['{'] + obj_body_chars(ms)) + seq!['}']);
        },
    }
}

proof fn lemma_strs_tail_no_ctl(ss: Seq<Seq<char>>)
    ensures
        no_ctl(strs_tail_chars(ss)),
    decreases ss.len(),
{
    if ss.len() > 0 {
        lemma_str_no_ctl(ss[0]);
        lemma_strs_tail_no_ctl(ss.drop_first());
        lemma_no_ctl_concat(seq![','], str_chars(ss[0]));
        lemma_no_ctl_concat(seq![','] + str_chars(ss[0]), strs_tail_chars(ss.drop_first()));
        assert(strs_tail_chars(ss)
            =~= (seq![','] + str_chars(ss[0])) + strs_tail_chars(ss.drop_first()));
    }
}

proof fn lemma_strs_body_no_ctl(ss: Seq<Seq<char>>)
    ensures
        no_ctl(strs_body_chars(ss)),
{
    if ss.len() > 0 {
        lemma_str_no_ctl(ss[0]);
        lemma_strs_tail_no_ctl(ss.drop_first());
        lemma_no_ctl_concat(str_chars(ss[0]), strs_tail_chars(ss.drop_first()));
    }
}

proof fn lemma_descriptor_no_ctl(d: SpecDescriptor)
    ensures
        no_ctl(descriptor_chars(d)),
{
    reveal_strlit("{\"deviceId\":");
    reveal_strlit(",\"typeNames\":");
    lemma_str_no_ctl(d.device_id);
    lemma_strs_body_no_ctl(d.components);
    let a = "{\"deviceId\":"@;
    let b = str_chars(d.device_id);
    let c = ",\"typeNames\":"@;
    assert(no_ctl(a)) by {
        assert forall|i: int| 0 <= i < a.len() implies (a[i]) as u32 >= 32 by {}
    }
    assert(no_ctl(c)) by {
        assert forall|i: int| 0 <= i < c.len() implies (c[i]) as u32 >= 32 by {}
    }
    lemma_no_ctl_concat(a, b);
    lemma_no_ctl_concat(a + b, c);
    lemma_no_ctl_concat(a + b + c, seq!['[']);
    lemma_no_ctl_concat(a + b + c + seq!['['], strs_body_chars(d.components));
    lemma_no_ctl_concat(a + b + c + seq!['['] + strs_body_chars(d.components), seq![']']);
    lemma_no_ctl_concat(a + b + c + seq!['['] + strs_body_chars(d.components) + seq![']'],
        seq!['}']);
}

proof fn lemma_descs_tail_no_ctl(ds: Seq<SpecDescriptor>)
    ensures
        no_ctl(descs_tail_chars(ds)),
    decreases ds.len(),
{
    if ds.len() > 0 {
        lemma_descriptor_no_ctl(ds[0]);
        lemma_descs_tail_no_ctl(ds.drop_first());
        lemma_no_ctl_concat(seq![','], descriptor_chars(ds[0]));
        lemma_no_ctl_concat(seq![','] + descriptor_chars(ds[0]),
            descs_tail_chars(ds.drop_first()));
        assert(descs_tail_chars(ds) =~= (seq![','] + descriptor_chars(ds[0]))
            + descs_tail_chars(ds.drop_first()));
    }
}

proof fn lemma_descs_body_no_ctl(ds: Seq<SpecDescriptor>)
    ensures
        no_ctl(descs_body_chars(ds)),
{
    if ds.len() > 0 {
        lemma_descriptor_no_ctl(ds[0]);
        lemma_descs_tail_no_ctl(ds.drop_first());
        lemma_no_ctl_concat(descriptor_chars(ds[0]), descs_tail_chars(ds.drop_first()));
    }
}

proof fn lemma_params_tail_no_ctl(ps: Seq<Seq<char>>)
    ensures
        no_ctl(params_tail_chars(ps)),
    decreases ps.len(),
{
    reveal_strlit("{\"type\":");
    if ps.len() > 0 {
        lemma_str_no_ctl(ps[0]);
        lemma_params_tail_no_ctl(ps.drop_first());
        let a = "{\"type\":"@;
        assert(no_ctl(a)) by {
            assert forall|i: int| 0 <= i < a.len() implies (a[i]) as u32 >= 32 by {}
        }
        assert(no_ctl("}"@)) by {
            reveal_strlit("}");
            assert forall|i: int| 0 <= i < "}"@.len() implies ("}"@[i]) as u32 >= 32 by {}
        }
        lemma_no_ctl_concat(a, str_chars(ps[0]));
        lemma_no_ctl_concat(a + str_chars(ps[0]), "}"@);
        lemma_no_ctl_concat(seq![','], param_obj_chars(ps[0]));
        lemma_no_ctl_concat(seq![','] + param_obj_chars(ps[0]),
            params_tail_chars(ps.drop_first()));
        assert(params_tail_chars(ps) =~= (seq![','] + param_obj_chars(ps[0]))
            + params_tail_chars(ps.drop_first()));
    }
}

proof fn lemma_param_obj_no_ctl(p: Seq<char>)
    ensures
        no_ctl(param_obj_chars(p)),
{
    reveal_strlit("{\"type\":");
    reveal_strlit("}");
    lemma_str_no_ctl(p);
    let a = "{\"type\":"@;
    assert(no_ctl(a)) by {
        assert forall|i: int| 0 <= i < a.len() implies (a[i]) as u32 >= 32 by {}
    }
    assert(no_ctl("}"@)) by {
        assert forall|i: int| 0 <= i < "}"@.len() implies ("}"@[i]) as u32 >= 32 by {}
    }
    lemma_no_ctl_concat(a, str_chars(p));
    lemma_no_ctl_concat(a + str_chars(p), "}"@);
}

proof fn lemma_params_body_no_ctl(ps: Seq<Seq<char>>)
    ensures
        no_ctl(params_body_chars(ps)),
{
    if ps.len() > 0 {
        lemma_param_obj_no_ctl(ps[0]);
        lemma_params_tail_no_ctl(ps.drop_first());
        lemma_no_ctl_concat(param_obj_chars(ps[0]), params_tail_chars(ps.drop_first()));
    }
}

#[verifier::rlimit(100)]
#[verifier::spinoff_prover]
proof fn lemma_method_no_ctl(m: SpecMethod)
    ensures
        no_ctl(method_chars(m)),
{
    reveal_strlit("{\"name\":");
    reveal_strlit(",\"parameters\":");
    reveal_strlit(",\"returnType\":");
    reveal_strlit(",\"description\":");
    reveal_strlit(",\"returnValueDescription\":");
    let lit_name = "{\"name\":"@;
    let lit_params = ",\"parameters\":"@;
    let lit_rt = ",\"returnType\":"@;
    let lit_desc = ",\"description\":"@;
    let lit_rvd = ",\"returnValueDescription\":"@;
    assert(no_ctl(lit_name)) by {
        assert forall|i: int| 0 <= i < lit_name.len() implies (lit_name[i]) as u32 >= 32 by {}
    }
    assert(no_ctl(lit_params)) by {
        assert forall|i: int| 0 <= i < lit_params.len()
            implies (lit_params[i]) as u32 >= 32 by {}
    }
    assert(no_ctl(lit_rt)) by {
        assert forall|i: int| 0 <= i < lit_rt.len() implies (lit_rt[i]) as u32 >= 32 by {}
    }
    assert(no_ctl(lit_desc)) by {
        assert forall|i: int| 0 <= i < lit_desc.len() implies (lit_desc[i]) as u32 >= 32 by {}
    }
    assert(no_ctl(lit_rvd)) by {
        assert forall|i: int| 0 <= i < lit_rvd.len() implies (lit_rvd[i]) as u32 >= 32 by {}
    }
    lemma_str_no_ctl(m.name);
    lemma_str_no_ctl(m.return_type);
    lemma_params_body_no_ctl(m.parameters);
    let seg_params: Seq<char> = if m.parameters.len() == 0 {
        Seq::empty()
    } else {
        lit_params + seq!['['] + params_body_chars(m.parameters) + seq![']']
    };
    assert(no_ctl(seg_params)) by {
        if m.parameters.len() > 0 {
            lemma_no_ctl_concat(lit_params, seq!['[']);
            lemma_no_ctl_concat(lit_params + seq!['['], params_body_chars(m.parameters));
            lemma_no_ctl_concat(lit_params + seq!['['] + params_body_chars(m.parameters),
                seq![']']);
        }
    }
    let seg_desc: Seq<char> = match m.description {
        Option::None => Seq::empty(),
        Option::Some(d) => lit_desc + str_chars(d),
    };
    assert(no_ctl(seg_desc)) by {
        match m.description {
            Option::None => {},
            Option::Some(d) => {
                lemma_str_no_ctl(d);
                lemma_no_ctl_concat(lit_desc, str_chars(d));
            },
        }
    }
    let seg_rvd: Seq<char> = match m.return_value_description {
        Option::None => Seq::empty(),
        Option::Some(d) => lit_rvd + str_chars(d),
    };
    assert(no_ctl(seg_rvd)) by {
        match m.return_value_description {
            Option::None => {},
            Option::Some(d) => {
                lemma_str_no_ctl(d);
                lemma_no_ctl_concat(lit_rvd, str_chars(d));
            },
        }
    }
    lemma_no_ctl_concat(lit_name, str_chars(m.name));
    lemma_no_ctl_concat(lit_name + str_chars(m.name), seg_params);
    lemma_no_ctl_concat(lit_name + str_chars(m.name) + seg_params, lit_rt);
    lemma_no_ctl_concat(lit_name + str_chars(m.name) + seg_params + lit_rt,
        str_chars(m.return_type));
    lemma_no_ctl_concat(lit_name + str_chars(m.name) + seg_params + lit_rt
        + str_chars(m.return_type), seg_desc);
    lemma_no_ctl_concat(lit_name + str_chars(m.name) + seg_params + lit_rt
        + str_chars(m.return_type) + seg_desc, seg_rvd);
    lemma_no_ctl_concat(lit_name + str_chars(m.name) + seg_params + lit_rt
        + str_chars(m.return_type) + seg_desc + seg_rvd, seq!['}']);
    assert(method_chars(m) =~= lit_name + str_chars(m.name) + seg_params + lit_rt
        + str_chars(m.return_type) + seg_desc + seg_rvd + seq!['}']);
}

proof fn lemma_methods_tail_no_ctl(ms: Seq<SpecMethod>)
    ensures
        no_ctl(methods_tail_chars(ms)),
    decreases ms.len(),
{
    if ms.len() > 0 {
        lemma_method_no_ctl(ms[0]);
        lemma_methods_tail_no_ctl(ms.drop_first());
        lemma_no_ctl_concat(seq![','], method_chars(ms[0]));
        lemma_no_ctl_concat(seq![','] + method_chars(ms[0]),
            methods_tail_chars(ms.drop_first()));
        assert(methods_tail_chars(ms) =~= (seq![','] + method_chars(ms[0]))
            + methods_tail_chars(ms.drop_first()));
    }
}

proof fn lemma_methods_body_no_ctl(ms: Seq<SpecMethod>)
    ensures
        no_ctl(methods_body_chars(ms)),
{
    if ms.len() > 0 {
        lemma_method_no_ctl(ms[0]);
        lemma_methods_tail_no_ctl(ms.drop_first());
        lemma_no_ctl_concat(method_chars(ms[0]), methods_tail_chars(ms.drop_first()));
    }
}

/// The canonical text of a response never holds a control character.
proof fn lemma_return_no_ctl(r: SpecReturn)
    ensures
        no_ctl(return_chars(r)),
{
    reveal_strlit("{\"type\":\"list\",\"data\":");
    reveal_strlit("{\"type\":\"methods\",\"data\":");
    reveal_strlit("{\"type\":\"error\",\"data\":");
    reveal_strlit("{\"type\":\"result\",\"data\":");
    match r {
        SpecReturn::List(ds) => {
            let a = "{\"type\":\"list\",\"data\":"@;
            assert(no_ctl(a)) by {
                assert forall|i: int| 0 <= i < a.len() implies (a[i]) as u32 >= 32 by {}
            }
            lemma_descs_body_no_ctl(ds);
            lemma_no_ctl_concat(a, seq!['[']);
            lemma_no_ctl_concat(a + seq!['['], descs_body_chars(ds));
            lemma_no_ctl_concat(a + seq!['['] + descs_body_chars(ds), seq![']']);
            lemma_no_ctl_concat(a + seq!['['] + descs_body_chars(ds) + seq![']'],
                seq!['}']);
        },
        SpecReturn::Methods(ms) => {
            let a = "{\"type\":\"methods\",\"data\":"@;
            assert(no_ctl(a)) by {
                assert forall|i: int| 0 <= i < a.len() implies (a[i]) as u32 >= 32 by {}
            }
            lemma_methods_body_no_ctl(ms);
            lemma_no_ctl_concat(a, seq!['[']);
            lemma_no_ctl_concat(a + seq!['['], methods_body_chars(ms));
            lemma_no_ctl_concat(a + seq!['['] + methods_body_chars(ms), seq![']']);
            lemma_no_ctl_concat(a + seq!['['] + methods_body_chars(ms) + seq![']'],
                seq!['}']);
        },
        SpecReturn::Error(e) => {
            let a = "{\"type\":\"error\",\"data\":"@;
            assert(no_ctl(a)) by {
                assert forall|i: int| 0 <= i < a.len() implies (a[i]) as u32 >= 32 by {}
            }
            lemma_str_no_ctl(e);
            lemma_no_ctl_concat(a, str_chars(e));
            lemma_no_ctl_concat(a + str_chars(e), seq!['}']);
        },
        SpecReturn::Result(v) => {
            let a = "{\"type\":\"result\",\"data\":"@;
            assert(no_ctl(a)) by {
                assert forall|i: int| 0 <= i < a.len() implies (a[i]) as u32 >= 32 by {}
            }
            lemma_value_no_ctl(v);
            lemma_no_ctl_concat(a, value_chars(v));
            lemma_no_ctl_concat(a + value_chars(v), seq!['}']);
        },
    }
}

/// Control-free text encodes to bytes among which the frame delimiter
/// never occurs.
proof fn lemma_encode_no_nul(chars: Seq<char>)
    requires
        no_ctl(chars),
    ensures
        framable(encode_utf8(chars)),
    decreases chars.len(),
{
    if chars.len() > 0 {
        let c = chars[0];
        let scalar = c as u32;
        vstd::utf8::char_is_scalar(c);
        let head = vstd::utf8::encode_scalar(scalar);
        assert(forall|i: int| 0 <= i < head.len() ==> #[trigger] head[i] != DELIMITER) by {
            if vstd::utf8::has_width_1_encoding(scalar) {
                assert((scalar & 0x7F) as u8 != 0) by (bit_vector)
                    requires 32 <= scalar <= 0x7F;
            } else if vstd::utf8::has_width_2_encoding(scalar) {
                assert(0xC0u8 | ((scalar >> 6) & 0x1F) as u8 != 0) by (bit_vector);
                assert(0x80u8 | (scalar & 0x3F) as u8 != 0) by (bit_vector);
            } else if vstd::utf8::has_width_3_encoding(scalar) {
                assert(0xE0u8 | ((scalar >> 12) & 0x0F) as u8 != 0) by (bit_vector);
                assert(0x80u8 | ((scalar >> 6) & 0x3F) as u8 != 0) by (bit_vector);
                assert(0x80u8 | (scalar & 0x3F) as u8 != 0) by (bit_vector);
            } else {
                assert(0xF0u8 | ((scalar >> 18) & 0x7) as u8 != 0) by (bit_vector);
                assert(0x80u8 | ((scalar >> 12) & 0x3F) as u8 != 0) by (bit_vector);
                assert(0x80u8 | ((scalar >> 6) & 0x3F) as u8 != 0) by (bit_vector);
                assert(0x80u8 | (scalar & 0x3F) as u8 != 0) by (bit_vector);
            }
        }
        assert(no_ctl(chars.drop_first())) by {
            assert(forall|i: int| 0 <= i < chars.drop_first().len()
                ==> (#[trigger] chars.drop_first()[i]) == chars[i + 1]);
        }
        lemma_encode_no_nul(chars.drop_first());
        let rest = encode_utf8(chars.drop_first());
        assert forall|i: int| 0 <= i < (head + rest).len()
            implies (head + rest)[i] != DELIMITER by {
            if i < head.len() {
                assert((head + rest)[i] == head[i]);
            } else {
                assert((head + rest)[i] == rest[i - head.len()]);
            }
        }
    }
}

/// The response round trip: for every representable response, the wire
/// bytes the peer's encoder emits decode back to exactly that response.
pub proof fn lemma_return_round_trip(r: SpecReturn)
    requires
        return_wf(r),
    ensures
        decode_return_spec(wire_of_return(r)) == Ok::<SpecReturn, BusError>(r),
{
    let text = return_chars(r);
    let payload = encode_utf8(text);
    lemma_return_no_ctl(r);
    lemma_encode_no_nul(text);
    crate::frame::lemma_frame_round_trip(payload);
    vstd::utf8::encode_utf8_valid_utf8(text);
    vstd::utf8::encode_utf8_decode_utf8(text);
    lemma_parse_return_of(r);
}

/// The canonical text of a call never holds a control character.
proof fn lemma_call_no_ctl(c: SpecCall)
    ensures
        no_ctl(call_chars(c)),
{
    reveal_strlit("{\"type\":\"list\"}");
    reveal_strlit("{\"type\":\"methods\",\"data\":");
    reveal_strlit("{\"type\":\"invoke\",\"data\":{\"deviceId\":");
    reveal_strlit(",\"name\":");
    reveal_strlit(",\"parameters\":[");
    reveal_strlit("]}}");
    reveal_strlit("}");
    match c {
        SpecCall::List => {
            let a = "{\"type\":\"list\"}"@;
            assert(no_ctl(a)) by {
                assert forall|i: int| 0 <= i < a.len() implies (a[i]) as u32 >= 32 by {}
            }
        },
        SpecCall::Methods(id) => {
            let a = "{\"type\":\"methods\",\"data\":"@;
            assert(no_ctl(a)) by {
                assert forall|i: int| 0 <= i < a.len() implies (a[i]) as u32 >= 32 by {}
            }
            assert(no_ctl("}"@)) by {
                assert forall|i: int| 0 <= i < "}"@.len()
                    implies ("}"@[i]) as u32 >= 32 by {}
            }
            lemma_str_no_ctl(id);
            lemma_no_ctl_concat(a, str_chars(id));
            lemma_no_ctl_concat(a + str_chars(id), "}"@);
        },
        SpecCall::Invoke { device_id, method_name, parameters } => {
            let a = "{\"type\":\"invoke\",\"data\":{\"deviceId\":"@;
            let b = ",\"name\":"@;
            let d = ",\"parameters\":["@;
            let e = "]}}"@;
            assert(no_ctl(a)) by {
                assert forall|i: int| 0 <= i < a.len() implies (a[i]) as u32 >= 32 by {}
            }
            assert(no_ctl(b)) by {
                assert forall|i: int| 0 <= i < b.len() implies (b[i]) as u32 >= 32 by {}
            }
            assert(no_ctl(d)) by {
                assert forall|i: int| 0 <= i < d.len() implies (d[i]) as u32 >= 32 by {}
            }
            assert(no_ctl(e)) by {
                assert forall|i: int| 0 <= i < e.len() implies (e[i]) as u32 >= 32 by {}
            }
            lemma_str_no_ctl(device_id);
            lemma_str_no_ctl(method_name);
            assert(no_ctl(values_body_chars(parameters))) by {
                lemma_values_body_no_ctl(parameters);
            }
            lemma_no_ctl_concat(a, str_chars(device_id));
            lemma_no_ctl_concat(a + str_chars(device_id), b);
            lemma_no_ctl_concat(a + str_chars(device_id) + b, str_chars(method_name));
            lemma_no_ctl_concat(a + str_chars(device_id) + b + str_chars(method_name), d);
            lemma_no_ctl_concat(a + str_chars(device_id) + b + str_chars(method_name) + d,
                values_body_chars(parameters));
            lemma_no_ctl_concat(a + str_chars(device_id) + b + str_chars(method_name) + d
                + values_body_chars(parameters), e);
        },
    }
}

proof fn lemma_values_tail_no_ctl(vs: Seq<SpecJson>)
    ensures
        no_ctl(values_tail_chars(vs)),
    decreases vs.len(),
{
    if vs.len() > 0 {
        lemma_value_no_ctl(vs[0]);
        lemma_values_tail_no_ctl(vs.drop_first());
        lemma_no_ctl_concat(seq![','], value_chars(vs[0]));
        lemma_no_ctl_concat(seq![','] + value_chars(vs[0]),
            values_tail_chars(vs.drop_first()));
        assert(values_tail_chars(vs) =~= (seq![','] + value_chars(vs[0]))
            + values_tail_chars(vs.drop_first()));
    }
}

proof fn lemma_values_body_no_ctl(vs: Seq<SpecJson>)
    ensures
        no_ctl(values_body_chars(vs)),
{
    if vs.len() > 0 {
        lemma_value_no_ctl(vs[0]);
        lemma_values_tail_no_ctl(vs.drop_first());
        lemma_no_ctl_concat(value_chars(vs[0]), values_tail_chars(vs.drop_first()));
    }
}

/// The framing round trip holds of every encoded call: its wire bytes are
/// one well-formed frame whose payload, the call's encoded text, contains
/// no delimiter byte and reads back unchanged.
pub proof fn lemma_call_wire_frames(c: SpecCall)
    ensures
        framable(encode_utf8(call_chars(c))),
        unframe_spec(wire_of_call(c))
            == Ok::<Seq<u8>, BusError>(encode_utf8(call_chars(c))),
{
    lemma_call_no_ctl(c);
    lemma_encode_no_nul(call_chars(c));
    crate::frame::lemma_frame_round_trip(encode_utf8(call_chars(c)));
}

} // verus!

verus! {

// ------------------------------------------------------------------
// The bus operations
// ------------------------------------------------------------------

/// The framed bytes of a `List` call: what `list` writes before it waits
/// for the device list.
pub fn list_request() -> (r: Vec<u8>)
    ensures
        r@ == wire_of_call(SpecCall::List),
{
    encode_call(&BusCall::List)
}

/// The framed bytes of a `Methods` call scoped to `device`.
pub fn methods_request(device: &RPCDevice) -> (r: Vec<u8>)
    ensures
        r@ == wire_of_call(SpecCall::Methods(device@)),
{
    encode_call(&BusCall::Methods(device.duplicate()))
}

/// The framed bytes of an `Invoke` call: `method_name` on `device` with
/// the given parameter values.
pub fn invoke_request(device: &RPCDevice, method_name: String, parameters: Vec<JsonValue>)
    -> (r: Vec<u8>)
    ensures
        r@ == wire_of_call(SpecCall::Invoke {
            device_id: device@,
            method_name: method_name@,
            parameters: values_view(parameters@),
        }),
{
    encode_call(&BusCall::Invoke {
        device_id: device.duplicate(),
        method_name,
        parameters,
    })
}

/// Narrow a decoded response to the `List` shape, which is the only one a
/// `List` call may be answered with: an `Error` response surfaces the
/// peer's message, and any other shape is a protocol violation.
pub fn expect_list(r: BusReturn) -> (res: Result<Vec<RPCDeviceDescriptor>, BusError>)
    ensures
        res is Ok <==> r@ is List,
        match res {
            Ok(ds) => r@ == SpecReturn::List(descs_view(ds@)),
            Err(e) => match r@ {
                SpecReturn::Error(msg) => e matches BusError::Peer(pm) && pm@ == msg,
                _ => e == BusError::InvalidData,
            },
        },
{
    match r {
        BusReturn::List(ds) => Ok(ds),
        BusReturn::Error(msg) => Err(BusError::Peer(msg)),
        _ => Err(BusError::InvalidData),
    }
}

/// Narrow a decoded response to the `Methods` shape, under the same rule
/// as the `List` expectation.
pub fn expect_methods(r: BusReturn) -> (res: Result<Vec<RPCDeviceMethod>, BusError>)
    ensures
        res is Ok <==> r@ is Methods,
        match res {
            Ok(ms) => r@ == SpecReturn::Methods(methods_view(ms@)),
            Err(e) => match r@ {
                SpecReturn::Error(msg) => e matches BusError::Peer(pm) && pm@ == msg,
                _ => e == BusError::InvalidData,
            },
        },
{
    match r {
        BusReturn::Methods(ms) => Ok(ms),
        BusReturn::Error(msg) => Err(BusError::Peer(msg)),
        _ => Err(BusError::InvalidData),
    }
}

/// Whether the descriptor's component names include `name`.
pub open spec fn has_component(d: SpecDescriptor, name: Seq<char>) -> bool {
    exists|j: int| 0 <= j < d.components.len() && d.components[j] == name
}

/// The handle of the first descriptor, in list order, whose component
/// names include `name`.
pub open spec fn find_spec(ds: Seq<SpecDescriptor>, name: Seq<char>) -> Option<Seq<char>>
    decreases ds.len()
{
    if ds.len() == 0 {
        None
    } else if has_component(ds[0], name) {
        Some(ds[0].device_id)
    } else {
        find_spec(ds.drop_first(), name)
    }
}

/// The first match wins and a miss scans the whole list: what `find_spec`
/// answers, spelled out over positions.
pub proof fn lemma_find_spec_first(ds: Seq<SpecDescriptor>, name: Seq<char>)
    ensures
        match find_spec(ds, name) {
            Some(id) => exists|i: int| 0 <= i < ds.len()
                && has_component(#[trigger] ds[i], name) && id == ds[i].device_id
                && (forall|k: int| 0 <= k < i ==> !has_component(#[trigger] ds[k], name)),
            None => forall|i: int| 0 <= i < ds.len()
                ==> !has_component(#[trigger] ds[i], name),
        },
    decreases ds.len(),
{
    if ds.len() > 0 {
        if has_component(ds[0], name) {
            assert(0 <= 0 < ds.len() && has_component(ds[0], name)
                && find_spec(ds, name) == Some(ds[0].device_id)
                && (forall|k: int| 0 <= k < 0 ==> !has_component(#[trigger] ds[k], name)));
        } else {
            lemma_find_spec_first(ds.drop_first(), name);
            let rest = ds.drop_first();
            assert(forall|i: int| 0 <= i < rest.len() ==> #[trigger] rest[i] == ds[i + 1]);
            match find_spec(rest, name) {
                Some(id) => {
                    let i = choose|i: int| 0 <= i < rest.len()
                        && has_component(#[trigger] rest[i], name) && id == rest[i].device_id
                        && (forall|k: int| 0 <= k < i
                            ==> !has_component(#[trigger] rest[k], name));
                    assert(ds[i + 1] == rest[i]);
                    assert forall|k: int| 0 <= k < i + 1
                        implies !has_component(#[trigger] ds[k], name) by {
                        if k > 0 {
                            assert(ds[k] == rest[k - 1]);
                        }
                    }
                    assert(0 <= i + 1 < ds.len() && has_component(ds[i + 1], name)
                        && id == ds[i + 1].device_id
                        && (forall|k: int| 0 <= k < i + 1
                            ==> !has_component(#[trigger] ds[k], name)));
                },
                None => {
                    assert forall|i: int| 0 <= i < ds.len()
                        implies !has_component(#[trigger] ds[i], name) by {
                        if i > 0 {
                            assert(ds[i] == rest[i - 1]);
                        }
                    }
                },
            }
        }
    }
}

/// Scan the descriptors in list order for the first whose component names
/// include `name`, and hand back its device handle; a miss is the
/// not-found outcome, a normal result of lookups.
pub fn find_in(devs: &Vec<RPCDeviceDescriptor>, name: &String) -> (r: Result<
    RPCDevice,
    BusError,
>)
    ensures
        match r {
            Ok(d) => find_spec(descs_view(devs@), name@) == Some(d@),
            Err(e) => e == BusError::NotFound && find_spec(descs_view(devs@), name@) is None,
        },
{
    let ghost dv = descs_view(devs@);
    proof {
        assert(dv.len() == devs@.len());
        assert(dv.skip(0) =~= dv);
    }
    let mut i: usize = 0;
    while i < devs.len()
        invariant
            i <= devs.len(),
            dv == descs_view(devs@),
            dv.len() == devs@.len(),
            find_spec(dv, name@) == find_spec(dv.skip(i as int), name@),
        decreases devs.len() - i,
    {
        let components = &devs[i].components;
        proof {
            assert(dv[i as int] == devs@[i as int]@);
        }
        let mut j: usize = 0;
        while j < components.len()
            invariant
                j <= components.len(),
                dv == descs_view(devs@),
                dv[i as int] == devs@[i as int]@,
                i < devs.len(),
                dv.len() == devs@.len(),
                components == &devs@[i as int].components,
                find_spec(dv, name@) == find_spec(dv.skip(i as int), name@),
                forall|k: int| 0 <= k < j
                    ==> devs@[i as int].components.deep_view()[k] != name@,
            decreases components.len() - j,
        {
            let hit = components[j] == *name;
            proof {
                assert(devs@[i as int].components.deep_view()[j as int]
                    == devs@[i as int].components@[j as int]@);
            }
            if hit {
                proof {
                    assert(devs@[i as int].components@[j as int]@ == name@);
                    assert(dv[i as int].components[j as int] == name@);
                    assert(has_component(dv[i as int], name@));
                    assert(dv.skip(i as int)[0] == dv[i as int]);
                    assert(find_spec(dv.skip(i as int), name@)
                        == Some(dv[i as int].device_id));
                }
                return Ok(devs[i].device_id.duplicate());
            }
            j = j + 1;
        }
        proof {
            assert(!has_component(dv[i as int], name@)) by {
                assert(forall|k: int| 0 <= k < devs@[i as int].components.deep_view().len()
                    ==> devs@[i as int].components.deep_view()[k] != name@);
            }
            assert(dv.skip(i as int)[0] == dv[i as int]);
            assert(dv.skip(i as int).drop_first() =~= dv.skip(i as int + 1));
        }
        i = i + 1;
    }
    proof {
        assert(dv.skip(i as int) =~= Seq::<SpecDescriptor>::empty());
    }
    Err(BusError::NotFound)
}

} // verus!

verus! {

// ------------------------------------------------------------------
// Typed views of a `Result`-shaped response
// ------------------------------------------------------------------

use crate::json::Scalar;
use crate::json::members_view;
use crate::json::scalars_view;

/// The value of the first member of a flat object carrying `key`.
pub open spec fn obj_lookup(ms: Seq<(Seq<char>, SpecScalar)>, key: Seq<char>) -> Option<
    SpecScalar,
>
    decreases ms.len()
{
    if ms.len() == 0 {
        None
    } else if ms[0].0 == key {
        Some(ms[0].1)
    } else {
        obj_lookup(ms.drop_first(), key)
    }
}

/// Find the first member carrying `key`, members after it and unknown
/// keys ignored.
fn find_member(ms: &Vec<(String, Scalar)>, key: &String) -> (r: Option<usize>)
    ensures
        match r {
            Some(i) => i < ms.len()
                && obj_lookup(members_view(ms@), key@) == Some(ms@[i as int].1@),
            None => obj_lookup(members_view(ms@), key@) is None,
        },
{
    let ghost mv = members_view(ms@);
    proof {
        assert(mv.len() == ms@.len());
        assert(mv.skip(0) =~= mv);
    }
    let mut i: usize = 0;
    while i < ms.len()
        invariant
            i <= ms.len(),
            mv == members_view(ms@),
            mv.len() == ms@.len(),
            obj_lookup(mv, key@) == obj_lookup(mv.skip(i as int), key@),
        decreases ms.len() - i,
    {
        proof {
            assert(mv[i as int] == (ms@[i as int].0@, ms@[i as int].1@));
            assert(mv.skip(i as int)[0] == mv[i as int]);
            assert(mv.skip(i as int).drop_first() =~= mv.skip(i as int + 1));
        }
        if ms[i].0 == *key {
            return Some(i);
        }
        i = i + 1;
    }
    proof {
        assert(mv.skip(i as int) =~= Seq::<(Seq<char>, SpecScalar)>::empty());
    }
    None
}

/// Read a `Result`-shaped response as a non-negative integer, the shape
/// every counter- or level-returning method answers with.
pub fn result_uint(r: BusReturn) -> (res: Result<u64, BusError>)
    ensures
        res is Ok <==> (match r@ {
            SpecReturn::Result(SpecJson::Atom(SpecScalar::Int(i))) => i >= 0,
            _ => false,
        }),
        match res {
            Ok(v) => r@ == SpecReturn::Result(SpecJson::Atom(SpecScalar::Int(v as int))),
            Err(e) => match r@ {
                SpecReturn::Error(msg) => e matches BusError::Peer(pm) && pm@ == msg,
                _ => e == BusError::InvalidData,
            },
        },
{
    match r {
        BusReturn::Result(JsonValue::Atom(Scalar::Int(i))) => {
            if i >= 0 {
                Ok(i as u64)
            } else {
                Err(BusError::InvalidData)
            }
        },
        BusReturn::Error(msg) => Err(BusError::Peer(msg)),
        _ => Err(BusError::InvalidData),
    }
}

/// Read a `Result`-shaped response as a boolean.
pub fn result_bool(r: BusReturn) -> (res: Result<bool, BusError>)
    ensures
        res is Ok <==> r@ matches SpecReturn::Result(SpecJson::Atom(SpecScalar::Bool(_))),
        match res {
            Ok(b) => r@ == SpecReturn::Result(SpecJson::Atom(SpecScalar::Bool(b))),
            Err(e) => match r@ {
                SpecReturn::Error(msg) => e matches BusError::Peer(pm) && pm@ == msg,
                _ => e == BusError::InvalidData,
            },
        },
{
    match r {
        BusReturn::Result(JsonValue::Atom(Scalar::Bool(b))) => Ok(b),
        BusReturn::Error(msg) => Err(BusError::Peer(msg)),
        _ => Err(BusError::InvalidData),
    }
}

/// Whether a scalar is an integer in byte range.
pub open spec fn is_byte_scalar(v: SpecScalar) -> bool {
    match v {
        SpecScalar::Int(i) => 0 <= i < 256,
        _ => false,
    }
}

/// Read a `Result`-shaped response as raw bytes: an array of integers,
/// each within byte range.
pub fn result_bytes(r: BusReturn) -> (res: Result<Vec<u8>, BusError>)
    ensures
        res is Ok <==> (match r@ {
            SpecReturn::Result(SpecJson::Arr(vs)) => forall|i: int| 0 <= i < vs.len()
                ==> is_byte_scalar(#[trigger] vs[i]),
            _ => false,
        }),
        match res {
            Ok(bytes) => match r@ {
                SpecReturn::Result(SpecJson::Arr(vs)) => bytes@.len() == vs.len()
                    && forall|i: int| 0 <= i < vs.len()
                        ==> #[trigger] vs[i] == SpecScalar::Int(bytes@[i] as int),
                _ => false,
            },
            Err(e) => match r@ {
                SpecReturn::Error(msg) => e matches BusError::Peer(pm) && pm@ == msg,
                _ => e == BusError::InvalidData,
            },
        },
{
    match r {
        BusReturn::Result(JsonValue::Arr(vs)) => {
            let ghost vv = scalars_view(vs@);
            proof {
                assert(vv.len() == vs@.len());
                assert(r@ == SpecReturn::Result(SpecJson::Arr(vv)));
            }
            let mut bytes: Vec<u8> = Vec::new();
            let mut i: usize = 0;
            while i < vs.len()
                invariant
                    i <= vs.len(),
                    vv == scalars_view(vs@),
                    vv.len() == vs@.len(),
                    r@ == SpecReturn::Result(SpecJson::Arr(vv)),
                    bytes@.len() == i,
                    forall|k: int| 0 <= k < i
                        ==> #[trigger] vv[k] == SpecScalar::Int(bytes@[k] as int),
                decreases vs.len() - i,
            {
                proof {
                    assert(vv[i as int] == vs@[i as int]@);
                }
                match &vs[i] {
                    Scalar::Int(b) => {
                        if 0 <= *b && *b < 256 {
                            bytes.push(*b as u8);
                        } else {
                            proof {
                                assert(!is_byte_scalar(vv[i as int]));
                                assert(!(forall|k: int| 0 <= k < vv.len()
                                    ==> is_byte_scalar(#[trigger] vv[k])));
                            }
                            return Err(BusError::InvalidData);
                        }
                    },
                    _ => {
                        proof {
                            assert(!is_byte_scalar(vv[i as int]));
                            assert(!(forall|k: int| 0 <= k < vv.len()
                                ==> is_byte_scalar(#[trigger] vv[k])));
                        }
                        return Err(BusError::InvalidData);
                    },
                }
                i = i + 1;
            }
            proof {
                assert forall|k: int| 0 <= k < vv.len()
                    implies is_byte_scalar(#[trigger] vv[k]) by {
                    assert(vv[k] == SpecScalar::Int(bytes@[k] as int));
                }
            }
            Ok(bytes)
        },
        BusReturn::Error(msg) => Err(BusError::Peer(msg)),
        _ => Err(BusError::InvalidData),
    }
}

/// Read a `Result`-shaped response as a list of strings.
pub fn result_string_list(r: BusReturn) -> (res: Result<Vec<String>, BusError>)
    ensures
        res is Ok <==> (match r@ {
            SpecReturn::Result(SpecJson::Arr(vs)) => forall|i: int| 0 <= i < vs.len()
                ==> (#[trigger] vs[i]) is Str,
            _ => false,
        }),
        match res {
            Ok(ss) => match r@ {
                SpecReturn::Result(SpecJson::Arr(vs)) => ss@.len() == vs.len()
                    && forall|i: int| 0 <= i < vs.len()
                        ==> #[trigger] vs[i] == SpecScalar::Str(ss@[i]@),
                _ => false,
            },
            Err(e) => match r@ {
                SpecReturn::Error(msg) => e matches BusError::Peer(pm) && pm@ == msg,
                _ => e == BusError::InvalidData,
            },
        },
{
    match r {
        BusReturn::Result(JsonValue::Arr(vs)) => {
            let ghost vv = scalars_view(vs@);
            proof {
                assert(vv.len() == vs@.len());
                assert(r@ == SpecReturn::Result(SpecJson::Arr(vv)));
            }
            let mut ss: Vec<String> = Vec::new();
            let mut i: usize = 0;
            while i < vs.len()
                invariant
                    i <= vs.len(),
                    vv == scalars_view(vs@),
                    vv.len() == vs@.len(),
                    r@ == SpecReturn::Result(SpecJson::Arr(vv)),
                    ss@.len() == i,
                    forall|k: int| 0 <= k < i
                        ==> #[trigger] vv[k] == SpecScalar::Str(ss@[k]@),
                decreases vs.len() - i,
            {
                proof {
                    assert(vv[i as int] == vs@[i as int]@);
                }
                match &vs[i] {
                    Scalar::Str(s) => {
                        ss.push(s.clone());
                    },
                    _ => {
                        proof {
                            assert(!(vv[i as int] is Str));
                            assert(!(forall|k: int| 0 <= k < vv.len()
                                ==> (#[trigger] vv[k]) is Str));
                        }
                        return Err(BusError::InvalidData);
                    },
                }
                i = i + 1;
            }
            proof {
                assert forall|k: int| 0 <= k < vv.len()
                    implies (#[trigger] vv[k]) is Str by {
                    assert(vv[k] == SpecScalar::Str(ss@[k]@));
                }
            }
            Ok(ss)
        },
        BusReturn::Error(msg) => Err(BusError::Peer(msg)),
        _ => Err(BusError::InvalidData),
    }
}

/// Read a `Result`-shaped response as an item stack: a flat object whose
/// `id` member is a string and whose `Count` member is a non-negative
/// integer, other members ignored.
pub fn result_item(r: BusReturn) -> (res: Result<crate::rpc_device::Item, BusError>)
    ensures
        res is Ok <==> (match r@ {
            SpecReturn::Result(SpecJson::Obj(mv)) => match (
                obj_lookup(mv, "id"@),
                obj_lookup(mv, "Count"@),
            ) {
                (Some(SpecScalar::Str(s)), Some(SpecScalar::Int(i))) => i >= 0,
                _ => false,
            },
            _ => false,
        }),
        match res {
            Ok(item) => match r@ {
                SpecReturn::Result(SpecJson::Obj(mv)) => obj_lookup(mv, "id"@)
                    == Some(SpecScalar::Str(item@.id)) && obj_lookup(mv, "Count"@)
                    == Some(SpecScalar::Int(item@.count)),
                _ => false,
            },
            Err(e) => match r@ {
                SpecReturn::Error(msg) => e matches BusError::Peer(pm) && pm@ == msg,
                _ => e == BusError::InvalidData,
            },
        },
{
    match r {
        BusReturn::Result(JsonValue::Obj(ms)) => {
            let id_key: String = "id".to_owned();
            let count_key: String = "Count".to_owned();
            let id_text: String = match find_member(&ms, &id_key) {
                Some(i) => {
                    match &ms[i].1 {
                        Scalar::Str(s) => s.clone(),
                        _ => {
                            return Err(BusError::InvalidData);
                        },
                    }
                },
                None => {
                    return Err(BusError::InvalidData);
                },
            };
            let count: u64 = match find_member(&ms, &count_key) {
                Some(i) => {
                    match &ms[i].1 {
                        Scalar::Int(c) => {
                            if 0 <= *c {
                                *c as u64
                            } else {
                                return Err(BusError::InvalidData);
                            }
                        },
                        _ => {
                            return Err(BusError::InvalidData);
                        },
                    }
                },
                None => {
                    return Err(BusError::InvalidData);
                },
            };
            Ok(crate::rpc_device::Item::new(id_text, count))
        },
        BusReturn::Error(msg) => Err(BusError::Peer(msg)),
        _ => Err(BusError::InvalidData),
    }
}

/// Read a `Result`-shaped response as a file description: a flat object
/// whose `name` member is a string and whose `size` member is a
/// non-negative integer.
pub fn result_file_info(r: BusReturn) -> (res: Result<
    crate::rpc_device::ImportedFileInfo,
    BusError,
>)
    ensures
        res is Ok <==> (match r@ {
            SpecReturn::Result(SpecJson::Obj(mv)) => match (
                obj_lookup(mv, "name"@),
                obj_lookup(mv, "size"@),
            ) {
                (Some(SpecScalar::Str(s)), Some(SpecScalar::Int(i))) => i >= 0,
                _ => false,
            },
            _ => false,
        }),
        match res {
            Ok(info) => match r@ {
                SpecReturn::Result(SpecJson::Obj(mv)) => obj_lookup(mv, "name"@)
                    == Some(SpecScalar::Str(info@.name)) && obj_lookup(mv, "size"@)
                    == Some(SpecScalar::Int(info@.size)),
                _ => false,
            },
            Err(e) => match r@ {
                SpecReturn::Error(msg) => e matches BusError::Peer(pm) && pm@ == msg,
                _ => e == BusError::InvalidData,
            },
        },
{
    match r {
        BusReturn::Result(JsonValue::Obj(ms)) => {
            let name_key: String = "name".to_owned();
            let size_key: String = "size".to_owned();
            let name_text: String = match find_member(&ms, &name_key) {
                Some(i) => {
                    match &ms[i].1 {
                        Scalar::Str(s) => s.clone(),
                        _ => {
                            return Err(BusError::InvalidData);
                        },
                    }
                },
                None => {
                    return Err(BusError::InvalidData);
                },
            };
            let size: u64 = match find_member(&ms, &size_key) {
                Some(i) => {
                    match &ms[i].1 {
                        Scalar::Int(c) => {
                            if 0 <= *c {
                                *c as u64
                            } else {
                                return Err(BusError::InvalidData);
                            }
                        },
                        _ => {
                            return Err(BusError::InvalidData);
                        },
                    }
                },
                None => {
                    return Err(BusError::InvalidData);
                },
            };
            Ok(crate::rpc_device::ImportedFileInfo::new(name_text, size))
        },
        BusReturn::Error(msg) => Err(BusError::Peer(msg)),
        _ => Err(BusError::InvalidData),
    }
}

/// Read a `Result`-shaped boolean response as a grant: a true value
/// grants, a false value is the peer's refusal, and anything else is
/// invalid data or the peer's reported error.
pub fn result_grant(r: BusReturn) -> (res: Result<(), BusError>)
    ensures
        res is Ok <==> r@ == SpecReturn::Result(SpecJson::Atom(SpecScalar::Bool(true))),
        match res {
            Ok(u) => true,
            Err(e) => match r@ {
                SpecReturn::Result(SpecJson::Atom(SpecScalar::Bool(b))) => !b
                    && e == BusError::Denied,
                SpecReturn::Error(msg) => e matches BusError::Peer(pm) && pm@ == msg,
                _ => e == BusError::InvalidData,
            },
        },
{
    match r {
        BusReturn::Result(JsonValue::Atom(Scalar::Bool(b))) => {
            if b {
                Ok(())
            } else {
                Err(BusError::Denied)
            }
        },
        BusReturn::Error(msg) => Err(BusError::Peer(msg)),
        _ => Err(BusError::InvalidData),
    }
}

} // verus!
