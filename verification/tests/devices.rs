//! The device model and the facades' request builders.

use oc_rs::rpc_device::ImportedFileInfo;
use oc_rs::rpc_device::Item;
use oc_rs::rpc_device::RPCDevice;
use oc_rs::rpc_device::RPCDeviceDescriptor;
use oc_rs::rpc_device::RPCDeviceMethod;
use oc_rs::rpc_device::RPCParamType;
use oc_rs::rpc_device::Side;
use oc_rs::computer::Computer;
use oc_rs::file_import_export_card::FileImportExportCard;
use oc_rs::redstone_interface::RedstoneInterface;
use oc_rs::sound_card::SoundCard;

const ID: &str = "01234567-89ab-cdef-0123-456789abcdef";

fn dev() -> RPCDevice {
    RPCDevice::parse(ID.to_string()).unwrap()
}

fn payload(frame: &[u8]) -> String {
    assert_eq!(frame[0], 0u8);
    assert_eq!(frame[frame.len() - 1], 0u8);
    String::from_utf8(frame[1..frame.len() - 1].to_vec()).unwrap()
}

#[test]
fn handle_parse_accepts_canonical_text_only() {
    assert!(RPCDevice::parse(ID.to_string()).is_some());
    assert!(RPCDevice::parse("not-a-handle".to_string()).is_none());
    assert!(RPCDevice::parse("01234567-89AB-cdef-0123-456789abcdef".to_string()).is_none());
    assert!(RPCDevice::parse("0123456789abcdef0123456789abcdef".to_string()).is_none());
    assert!(RPCDevice::parse("".to_string()).is_none());
}

#[test]
fn handle_parse_agrees_with_an_independent_parser() {
    // Cross-check canonical-form validation against the uuid crate.
    let samples = [
        ID,
        "ffffffff-ffff-ffff-ffff-ffffffffffff",
        "00000000-0000-0000-0000-000000000000",
        "0123456x-89ab-cdef-0123-456789abcdef",
        "01234567-89ab-cdef-0123-456789abcde",
    ];
    for s in samples {
        let ours = RPCDevice::parse(s.to_string()).is_some();
        let theirs = match uuid::Uuid::parse_str(s) {
            Ok(u) => u.to_string() == s,
            Err(_) => false,
        };
        assert_eq!(ours, theirs, "disagreement on {s}");
    }
}

#[test]
fn handles_compare_by_text() {
    assert_eq!(dev(), dev());
    let other = RPCDevice::parse("ffffffff-ffff-ffff-ffff-ffffffffffff".to_string()).unwrap();
    assert_ne!(dev(), other);
}

#[test]
fn side_names_match_the_wire() {
    assert_eq!(Side::up.name(), "up");
    assert_eq!(Side::down.name(), "down");
    assert_eq!(Side::north.name(), "north");
    assert_eq!(Side::east.name(), "east");
    assert_eq!(Side::south.name(), "south");
    assert_eq!(Side::west.name(), "west");
}

#[test]
fn redstone_requests_have_the_documented_shape() {
    let r = RedstoneInterface { device: dev() };
    assert_eq!(
        payload(&r.get_redstone_output_request(Side::up)),
        format!("{{\"type\":\"invoke\",\"data\":{{\"deviceId\":\"{ID}\",\"name\":\"getRedstoneOutput\",\"parameters\":[\"up\"]}}}}")
    );
    assert_eq!(
        payload(&r.get_redstone_input_request(Side::north)),
        format!("{{\"type\":\"invoke\",\"data\":{{\"deviceId\":\"{ID}\",\"name\":\"getRedstoneInput\",\"parameters\":[\"north\"]}}}}")
    );
    assert_eq!(
        payload(&r.set_redstone_output_request(Side::west, 15)),
        format!("{{\"type\":\"invoke\",\"data\":{{\"deviceId\":\"{ID}\",\"name\":\"setRedstoneOutput\",\"parameters\":[\"west\",15]}}}}")
    );
}

#[test]
fn sound_requests_have_the_documented_shape() {
    let s = SoundCard { device: dev() };
    assert_eq!(
        payload(&s.find_sound_request("block.anvil.use".to_string())),
        format!("{{\"type\":\"invoke\",\"data\":{{\"deviceId\":\"{ID}\",\"name\":\"findSound\",\"parameters\":[\"block.anvil.use\"]}}}}")
    );
    assert_eq!(
        payload(&s.play_sound_request("block.anvil.use".to_string())),
        format!("{{\"type\":\"invoke\",\"data\":{{\"deviceId\":\"{ID}\",\"name\":\"playSound\",\"parameters\":[\"block.anvil.use\"]}}}}")
    );
}

#[test]
fn computer_requests_have_the_documented_shape() {
    let c = Computer { device: dev() };
    assert_eq!(
        payload(&c.get_item_slot_count_request()),
        format!("{{\"type\":\"invoke\",\"data\":{{\"deviceId\":\"{ID}\",\"name\":\"getItemSlotCount\",\"parameters\":[]}}}}")
    );
    assert_eq!(
        payload(&c.get_item_stack_in_slot_request(3)),
        format!("{{\"type\":\"invoke\",\"data\":{{\"deviceId\":\"{ID}\",\"name\":\"getItemStackInSlot\",\"parameters\":[3]}}}}")
    );
    assert_eq!(
        payload(&c.get_item_slot_limit_request(0)),
        format!("{{\"type\":\"invoke\",\"data\":{{\"deviceId\":\"{ID}\",\"name\":\"getItemSlotLimit\",\"parameters\":[0]}}}}")
    );
    assert_eq!(
        payload(&c.get_energy_stored_request()),
        format!("{{\"type\":\"invoke\",\"data\":{{\"deviceId\":\"{ID}\",\"name\":\"getEnergyStored\",\"parameters\":[]}}}}")
    );
    assert_eq!(
        payload(&c.get_max_energy_stored_request()),
        format!("{{\"type\":\"invoke\",\"data\":{{\"deviceId\":\"{ID}\",\"name\":\"getMaxEnergyStored\",\"parameters\":[]}}}}")
    );
    assert_eq!(
        payload(&c.can_extract_energy_request()),
        format!("{{\"type\":\"invoke\",\"data\":{{\"deviceId\":\"{ID}\",\"name\":\"canExtractEnergy\",\"parameters\":[]}}}}")
    );
    assert_eq!(
        payload(&c.can_receive_energy_request()),
        format!("{{\"type\":\"invoke\",\"data\":{{\"deviceId\":\"{ID}\",\"name\":\"canReceiveEnergy\",\"parameters\":[]}}}}")
    );
}

#[test]
fn file_transfer_requests_have_the_documented_shape() {
    let f = FileImportExportCard { device: dev() };
    assert_eq!(
        payload(&f.begin_export_file_request("notes.txt".to_string())),
        format!("{{\"type\":\"invoke\",\"data\":{{\"deviceId\":\"{ID}\",\"name\":\"beginExportFile\",\"parameters\":[\"notes.txt\"]}}}}")
    );
    assert_eq!(
        payload(&f.write_export_file_request(vec![0, 10, 255])),
        format!("{{\"type\":\"invoke\",\"data\":{{\"deviceId\":\"{ID}\",\"name\":\"writeExportFile\",\"parameters\":[[0,10,255]]}}}}")
    );
    assert_eq!(
        payload(&f.finish_export_file_request()),
        format!("{{\"type\":\"invoke\",\"data\":{{\"deviceId\":\"{ID}\",\"name\":\"finishExportFile\",\"parameters\":[]}}}}")
    );
    assert_eq!(
        payload(&f.request_import_file_request()),
        format!("{{\"type\":\"invoke\",\"data\":{{\"deviceId\":\"{ID}\",\"name\":\"requestImportFile\",\"parameters\":[]}}}}")
    );
    assert_eq!(
        payload(&f.begin_import_file_request()),
        format!("{{\"type\":\"invoke\",\"data\":{{\"deviceId\":\"{ID}\",\"name\":\"beginImportFile\",\"parameters\":[]}}}}")
    );
    assert_eq!(
        payload(&f.read_import_file_request()),
        format!("{{\"type\":\"invoke\",\"data\":{{\"deviceId\":\"{ID}\",\"name\":\"readImportFile\",\"parameters\":[]}}}}")
    );
    assert_eq!(
        payload(&f.reset_request()),
        format!("{{\"type\":\"invoke\",\"data\":{{\"deviceId\":\"{ID}\",\"name\":\"reset\",\"parameters\":[]}}}}")
    );
}

#[test]
fn item_and_file_info_accessors() {
    let item = Item::new("minecraft:stone".to_string(), 64);
    assert_eq!(item.id(), "minecraft:stone");
    assert_eq!(item.count(), 64);
    let d = Item::default();
    assert_eq!(d.id(), "");
    assert_eq!(d.count(), 0);
    let info = ImportedFileInfo::new("notes.txt".to_string(), 12);
    assert_eq!(info.get_name(), "notes.txt");
    assert_eq!(info.size(), 12);
    let d = ImportedFileInfo::default();
    assert_eq!(d.get_name(), "");
    assert_eq!(d.size(), 0);
}

#[test]
fn descriptor_describe_lists_components() {
    let d = RPCDeviceDescriptor {
        device_id: dev(),
        components: vec!["redstone".to_string(), "oc2:redstone".to_string()],
    };
    assert_eq!(
        d.describe(),
        format!("ID: {ID}\nComponents: \n\t redstone\n\t oc2:redstone\n")
    );
}

#[test]
fn method_describe_renders_the_signature_and_descriptions() {
    let m = RPCDeviceMethod {
        name: "getRedstoneInput".to_string(),
        parameters: vec![
            RPCParamType::new("string".to_string()),
            RPCParamType::new("int".to_string()),
        ],
        return_type: "int".to_string(),
        description: Some("reads one side".to_string()),
        return_value_description: None,
    };
    assert_eq!(
        m.describe(),
        "fn getRedstoneInput(string, int) -> int\n\n\tDescription: reads one side\n\n\tReturn Type(int): no description provided\n"
    );
    let bare = RPCDeviceMethod {
        name: "reset".to_string(),
        parameters: Vec::new(),
        return_type: "void".to_string(),
        description: None,
        return_value_description: None,
    };
    assert_eq!(
        bare.describe(),
        "fn reset() -> void\n\n\tDescription: no description provided\n\n\tReturn Type(void): no description provided\n"
    );
}

#[test]
fn raw_mode_flag_clearing_keeps_other_bits() {
    let cleared = oc_rs::raw_mode::clear_extra_local_flag(0o177777);
    assert_eq!(cleared & 8, 0);
    assert_eq!(cleared | 8, 0o177777);
    assert_eq!(oc_rs::raw_mode::clear_extra_local_flag(0), 0);
}
