//! The file transfer facade: typed builders for the export and import
//! conversations.

use vstd::prelude::*;

use crate::device_bus::SpecCall;
use crate::device_bus::invoke_request;
use crate::device_bus::values_view;
use crate::device_bus::wire_of_call;
use crate::json::JsonValue;
use crate::json::Scalar;
use crate::json::SpecJson;
use crate::json::SpecScalar;
use crate::json::scalars_view;
use crate::rpc_device::RPCDevice;

verus! {

/// One file import/export card, addressed by its device handle.
pub struct FileImportExportCard {
    pub device: RPCDevice,
}

impl FileImportExportCard {
    /// The framed request for one niladic file-transfer method.
    fn plain_request(&self, method_name: String) -> (r: Vec<u8>)
        ensures
            r@ == wire_of_call(SpecCall::Invoke {
                device_id: self.device@,
                method_name: method_name@,
                parameters: Seq::empty(),
            }),
    {
        let parameters: Vec<JsonValue> = Vec::new();
        proof {
            assert(values_view(parameters@) =~= Seq::<SpecJson>::empty());
        }
        invoke_request(&self.device, method_name, parameters)
    }

    /// The framed request that opens an export of the named file.
    pub fn begin_export_file_request(&self, name: String) -> (r: Vec<u8>)
        ensures
            r@ == wire_of_call(SpecCall::Invoke {
                device_id: self.device@,
                method_name: "beginExportFile"@,
                parameters: seq![SpecJson::Atom(SpecScalar::Str(name@))],
            }),
    {
        let ghost nv = name@;
        let mut parameters: Vec<JsonValue> = Vec::new();
        parameters.push(JsonValue::Atom(Scalar::Str(name)));
        proof {
            assert(values_view(parameters@) =~= seq![SpecJson::Atom(SpecScalar::Str(nv))]);
        }
        invoke_request(&self.device, "beginExportFile".to_owned(), parameters)
    }

    /// The framed request that hands the peer the next chunk of the file
    /// being exported, each byte as one integer.
    pub fn write_export_file_request(&self, data: Vec<u8>) -> (r: Vec<u8>)
        ensures
            r@ == wire_of_call(SpecCall::Invoke {
                device_id: self.device@,
                method_name: "writeExportFile"@,
                parameters: seq![SpecJson::Arr(Seq::new(data@.len(), |i: int|
                    SpecScalar::Int(data@[i] as int)))],
            }),
    {
        let ghost dv = data@;
        let mut items: Vec<Scalar> = Vec::new();
        let mut i: usize = 0;
        while i < data.len()
            invariant
                i <= data.len(),
                dv == data@,
                items@.len() == i,
                forall|k: int| 0 <= k < i
                    ==> #[trigger] items@[k] == Scalar::Int(dv[k] as i64),
            decreases data.len() - i,
        {
            items.push(Scalar::Int(data[i] as i64));
            i = i + 1;
        }
        let mut parameters: Vec<JsonValue> = Vec::new();
        parameters.push(JsonValue::Arr(items));
        proof {
            assert(scalars_view(items@)
                =~= Seq::new(dv.len(), |k: int| SpecScalar::Int(dv[k] as int)));
            assert(values_view(parameters@) =~= seq![SpecJson::Arr(Seq::new(dv.len(),
                |k: int| SpecScalar::Int(dv[k] as int)))]);
        }
        invoke_request(&self.device, "writeExportFile".to_owned(), parameters)
    }

    /// The framed request that closes the running export.
    pub fn finish_export_file_request(&self) -> (r: Vec<u8>)
        ensures
            r@ == wire_of_call(SpecCall::Invoke {
                device_id: self.device@,
                method_name: "finishExportFile"@,
                parameters: Seq::empty(),
            }),
    {
        self.plain_request("finishExportFile".to_owned())
    }

    /// The framed request that asks the peer's user to pick a file to
    /// import; the grant arrives as a boolean result.
    pub fn request_import_file_request(&self) -> (r: Vec<u8>)
        ensures
            r@ == wire_of_call(SpecCall::Invoke {
                device_id: self.device@,
                method_name: "requestImportFile"@,
                parameters: Seq::empty(),
            }),
    {
        self.plain_request("requestImportFile".to_owned())
    }

    /// The framed request that opens the granted import and asks for the
    /// file's name and size.
    pub fn begin_import_file_request(&self) -> (r: Vec<u8>)
        ensures
            r@ == wire_of_call(SpecCall::Invoke {
                device_id: self.device@,
                method_name: "beginImportFile"@,
                parameters: Seq::empty(),
            }),
    {
        self.plain_request("beginImportFile".to_owned())
    }

    /// The framed request that asks for the next chunk of the file being
    /// imported.
    pub fn read_import_file_request(&self) -> (r: Vec<u8>)
        ensures
            r@ == wire_of_call(SpecCall::Invoke {
                device_id: self.device@,
                method_name: "readImportFile"@,
                parameters: Seq::empty(),
            }),
    {
        self.plain_request("readImportFile".to_owned())
    }

    /// The framed request that aborts whatever transfer is under way.
    pub fn reset_request(&self) -> (r: Vec<u8>)
        ensures
            r@ == wire_of_call(SpecCall::Invoke {
                device_id: self.device@,
                method_name: "reset"@,
                parameters: Seq::empty(),
            }),
    {
        self.plain_request("reset".to_owned())
    }
}

} // verus!
