//! The data model of the peer's devices: handles, descriptors and method
//! descriptors, together with their readable renderings.

use vstd::prelude::*;
use vstd::string::StrSliceExecFns;
use vstd::string::StringExecFns;

use crate::json::hex_val;

verus! {

/// Whether `s` is the canonical text of a device handle: 36 characters,
/// hyphens at the four fixed positions, lowercase hexadecimal digits
/// everywhere else — the textual form of a 128-bit identifier.
pub open spec fn is_uuid_chars(s: Seq<char>) -> bool {
    s.len() == 36 && forall|i: int| 0 <= i < 36 ==> {
        if i == 8 || i == 13 || i == 18 || i == 23 {
            #[trigger] s[i] == '-'
        } else {
            hex_val(s[i]) >= 0
        }
    }
}

/// A device handle: the opaque 128-bit identifier the peer assigns to
/// each addressable device, held in its canonical text form.  Handles are
/// never made up locally; they only arrive in descriptors or are parsed
/// from text a caller supplies.
#[derive(Clone, Debug)]
pub struct RPCDevice {
    text: String,
}

impl View for RPCDevice {
    type V = Seq<char>;

    closed spec fn view(&self) -> Seq<char> {
        self.text@
    }
}

impl RPCDevice {
    /// Whether the handle holds canonical text.
    pub open spec fn wf(&self) -> bool {
        is_uuid_chars(self@)
    }

    /// Take a handle from its text, which must be canonical.
    pub fn parse(text: String) -> (r: Option<RPCDevice>)
        ensures
            match r {
                Some(d) => is_uuid_chars(text@) && d@ == text@ && d.wf(),
                None => !is_uuid_chars(text@),
            },
    {
        let n = text.as_str().unicode_len();
        if n != 36 {
            return None;
        }
        let mut i: usize = 0;
        while i < 36
            invariant
                i <= 36,
                text@.len() == 36,
                forall|k: int| 0 <= k < i ==> {
                    if k == 8 || k == 13 || k == 18 || k == 23 {
                        #[trigger] text@[k] == '-'
                    } else {
                        hex_val(text@[k]) >= 0
                    }
                },
            decreases 36 - i,
        {
            let c = text.as_str().get_char(i);
            if i == 8 || i == 13 || i == 18 || i == 23 {
                if c != '-' {
                    return None;
                }
            } else {
                let u: u32 = c as u32;
                let is_hex = (48 <= u && u <= 57) || c == 'a' || c == 'b' || c == 'c'
                    || c == 'd' || c == 'e' || c == 'f';
                if !is_hex {
                    return None;
                }
            }
            i = i + 1;
        }
        Some(RPCDevice { text })
    }

    /// A second handle for the same device.
    pub fn duplicate(&self) -> (r: RPCDevice)
        ensures
            r@ == self@,
    {
        RPCDevice { text: self.text.clone() }
    }

    /// The handle's canonical text.
    pub fn text(&self) -> (r: &String)
        ensures
            r@ == self@,
    {
        &self.text
    }
}

impl PartialEq for RPCDevice {
    fn eq(&self, other: &RPCDevice) -> (r: bool) {
        self.text == other.text
    }
}

impl vstd::std_specs::cmp::PartialEqSpecImpl for RPCDevice {
    open spec fn obeys_eq_spec() -> bool {
        true
    }

    open spec fn eq_spec(&self, other: &RPCDevice) -> bool {
        self@ == other@
    }
}

/// The model of a device descriptor.
pub struct SpecDescriptor {
    pub device_id: Seq<char>,
    pub components: Seq<Seq<char>>,
}

/// What a device is: its handle and the ordered component type names that
/// describe its capabilities.  Produced only by a `List` query.
#[derive(Clone, Debug)]
pub struct RPCDeviceDescriptor {
    pub device_id: RPCDevice,
    pub components: Vec<String>,
}

impl View for RPCDeviceDescriptor {
    type V = SpecDescriptor;

    open spec fn view(&self) -> SpecDescriptor {
        SpecDescriptor {
            device_id: self.device_id@,
            components: self.components.deep_view(),
        }
    }
}

impl RPCDeviceDescriptor {
    /// Whether the descriptor's handle text is canonical.
    pub open spec fn wf(&self) -> bool {
        self.device_id.wf()
    }
}

/// The model of a parameter type tag.
pub struct SpecParamType {
    pub data: Seq<char>,
}

/// One parameter's type tag in a method descriptor.
#[derive(Clone, Debug)]
pub struct RPCParamType {
    data: String,
}

impl View for RPCParamType {
    type V = SpecParamType;

    closed spec fn view(&self) -> SpecParamType {
        SpecParamType { data: self.data@ }
    }
}

impl RPCParamType {
    /// Wrap a type tag.
    pub fn new(data: String) -> (r: RPCParamType)
        ensures
            r@.data == data@,
    {
        RPCParamType { data }
    }

    /// The type tag's text.
    pub fn data(&self) -> (r: &String)
        ensures
            r@ == self@.data,
    {
        &self.data
    }
}

/// The model of a method descriptor.
pub struct SpecMethod {
    pub name: Seq<char>,
    pub parameters: Seq<Seq<char>>,
    pub return_type: Seq<char>,
    pub description: Option<Seq<char>>,
    pub return_value_description: Option<Seq<char>>,
}

/// What one method of a device looks like: its name, parameter type tags,
/// return type tag, and the optional human-readable descriptions.
/// Produced only by a `Methods` query.
#[derive(Clone, Debug)]
pub struct RPCDeviceMethod {
    pub name: String,
    pub parameters: Vec<RPCParamType>,
    pub return_type: String,
    pub description: Option<String>,
    pub return_value_description: Option<String>,
}

/// The models of a parameter list.
pub open spec fn params_view(ps: Seq<RPCParamType>) -> Seq<Seq<char>> {
    ps.map_values(|p: RPCParamType| p@.data)
}

/// The model of an optional string.
pub open spec fn opt_view(o: Option<String>) -> Option<Seq<char>> {
    match o {
        Some(s) => Some(s@),
        None => None,
    }
}

impl View for RPCDeviceMethod {
    type V = SpecMethod;

    open spec fn view(&self) -> SpecMethod {
        SpecMethod {
            name: self.name@,
            parameters: params_view(self.parameters@),
            return_type: self.return_type@,
            description: opt_view(self.description),
            return_value_description: opt_view(self.return_value_description),
        }
    }
}

/// One item stack as the inventory introspection reports it: the item's
/// identifier and how many are stacked.
#[derive(Clone, Debug)]
pub struct Item {
    id: String,
    count: u64,
}

/// The model of an item stack.
pub struct SpecItem {
    pub id: Seq<char>,
    pub count: int,
}

impl View for Item {
    type V = SpecItem;

    closed spec fn view(&self) -> SpecItem {
        SpecItem { id: self.id@, count: self.count as int }
    }
}

impl Item {
    /// Build an item stack value.
    pub fn new(id: String, count: u64) -> (r: Item)
        ensures
            r@.id == id@,
            r@.count == count,
    {
        Item { id, count }
    }

    /// The item's identifier.
    pub fn id(&self) -> (r: &String)
        ensures
            r@ == self@.id,
    {
        &self.id
    }

    /// How many items the stack holds.
    pub fn count(&self) -> (r: u64)
        ensures
            r == self@.count,
    {
        self.count
    }
}

impl Default for Item {
    fn default() -> (r: Item)
        ensures
            r@.id == Seq::<char>::empty(),
            r@.count == 0,
    {
        Item { id: String::new(), count: 0 }
    }
}

/// What the peer reports about a file it is about to hand over: its name
/// and size.
#[derive(Clone, Debug)]
pub struct ImportedFileInfo {
    name: String,
    size: u64,
}

/// The model of a file description.
pub struct SpecFileInfo {
    pub name: Seq<char>,
    pub size: int,
}

impl View for ImportedFileInfo {
    type V = SpecFileInfo;

    closed spec fn view(&self) -> SpecFileInfo {
        SpecFileInfo { name: self.name@, size: self.size as int }
    }
}

impl ImportedFileInfo {
    /// Build a file description.
    pub fn new(name: String, size: u64) -> (r: ImportedFileInfo)
        ensures
            r@.name == name@,
            r@.size == size,
    {
        ImportedFileInfo { name, size }
    }

    /// The file's name, as the peer reported it.
    pub fn get_name(&self) -> (r: String)
        ensures
            r@ == self@.name,
    {
        self.name.clone()
    }

    /// The file's size in bytes, as the peer reported it.
    pub fn size(&self) -> (r: u64)
        ensures
            r == self@.size,
    {
        self.size
    }
}

impl Default for ImportedFileInfo {
    fn default() -> (r: ImportedFileInfo)
        ensures
            r@.name == Seq::<char>::empty(),
            r@.size == 0,
    {
        ImportedFileInfo { name: String::new(), size: 0 }
    }
}

/// A face of a block-shaped device, for the redstone operations that
/// address one side.
#[allow(non_camel_case_types)]
#[derive(Clone, Copy, Debug, PartialEq, Eq, Structural)]
pub enum Side {
    up,
    down,
    north,
    east,
    south,
    west,
}

/// The wire name of a side.
pub open spec fn side_name_chars(s: Side) -> Seq<char> {
    match s {
        Side::up => "up"@,
        Side::down => "down"@,
        Side::north => "north"@,
        Side::east => "east"@,
        Side::south => "south"@,
        Side::west => "west"@,
    }
}

impl Side {
    /// The side's name as it travels on the wire.
    pub fn name(&self) -> (r: &'static str)
        ensures
            r@ == side_name_chars(*self),
    {
        match self {
            Side::up => "up",
            Side::down => "down",
            Side::north => "north",
            Side::east => "east",
            Side::south => "south",
            Side::west => "west",
        }
    }
}

} // verus!

verus! {

/// One indented line per component name.
pub open spec fn comp_lines_from(cs: Seq<Seq<char>>, i: int) -> Seq<char>
    decreases cs.len() - i when 0 <= i <= cs.len()
{
    if i >= cs.len() {
        Seq::empty()
    } else {
        "\t "@ + cs[i] + "\n"@ + comp_lines_from(cs, i + 1)
    }
}

/// The readable rendering of a descriptor: the handle, then one line per
/// component name.
pub open spec fn descriptor_display_chars(d: SpecDescriptor) -> Seq<char> {
    "ID: "@ + d.device_id + "\n"@ + "Components: "@ + "\n"@ + comp_lines_from(d.components, 0)
}

impl RPCDeviceDescriptor {
    /// Render the descriptor for a reader: its handle and its component
    /// names, one per line.
    pub fn describe(&self) -> (r: String)
        ensures
            r@ == descriptor_display_chars(self@),
    {
        let ghost cv = self@.components;
        let mut out = String::new();
        out.append("ID: ");
        out.append(self.device_id.text().as_str());
        out.append("\n");
        out.append("Components: ");
        out.append("\n");
        let mut i: usize = 0;
        proof {
            assert(cv.len() == self.components@.len());
        }
        while i < self.components.len()
            invariant
                i <= self.components.len(),
                cv == self@.components,
                cv.len() == self.components@.len(),
                out@ + comp_lines_from(cv, i as int) == descriptor_display_chars(self@),
            decreases self.components.len() - i,
        {
            out.append("\t ");
            out.append(self.components[i].as_str());
            out.append("\n");
            proof {
                assert(cv[i as int] == self.components@[i as int]@);
            }
            i = i + 1;
        }
        proof {
            assert(comp_lines_from(cv, i as int) == Seq::<char>::empty());
            assert(out@ + Seq::<char>::empty() =~= out@);
        }
        out
    }
}

/// The parameter type tags joined with a comma and a space.
pub open spec fn params_join_from(ps: Seq<Seq<char>>, i: int) -> Seq<char>
    decreases ps.len() - i when 0 <= i <= ps.len()
{
    if i >= ps.len() {
        Seq::empty()
    } else if i == ps.len() - 1 {
        ps[i]
    } else {
        ps[i] + ", "@ + params_join_from(ps, i + 1)
    }
}

/// A description, or the fixed phrase that stands in for a missing one.
pub open spec fn opt_or_default(o: Option<Seq<char>>) -> Seq<char> {
    match o {
        Some(d) => d,
        None => "no description provided"@,
    }
}

/// The readable rendering of a method descriptor: a signature line, then
/// the two descriptions.
pub open spec fn method_display_chars(m: SpecMethod) -> Seq<char> {
    "fn "@ + m.name + "("@ + params_join_from(m.parameters, 0) + ") -> "@ + m.return_type
        + "\n"@ + "\n"@ + "\tDescription: "@ + opt_or_default(m.description) + "\n"@ + "\n"@
        + "\tReturn Type("@ + m.return_type + "): "@
        + opt_or_default(m.return_value_description) + "\n"@
}

impl RPCDeviceMethod {
    /// Render the method for a reader: its signature, its description and
    /// its return value's description, with a fixed phrase standing in
    /// for a missing description.
    pub fn describe(&self) -> (r: String)
        ensures
            r@ == method_display_chars(self@),
    {
        let ghost pv = self@.parameters;
        let mut out = String::new();
        out.append("fn ");
        out.append(self.name.as_str());
        out.append("(");
        let ghost header = "fn "@ + self@.name + "("@;
        proof {
            assert(pv.len() == self.parameters@.len());
            assert(out@ =~= header);
        }
        let mut i: usize = 0;
        while i < self.parameters.len()
            invariant
                i <= self.parameters.len(),
                pv == self@.parameters,
                pv.len() == self.parameters@.len(),
                header == "fn "@ + self@.name + "("@,
                out@ + params_join_from(pv, i as int) == header + params_join_from(pv, 0),
            decreases self.parameters.len() - i,
        {
            proof {
                assert(pv[i as int] == self.parameters@[i as int]@.data);
            }
            out.append(self.parameters[i].data().as_str());
            if i + 1 < self.parameters.len() {
                out.append(", ");
                proof {
                    assert(params_join_from(pv, i as int)
                        == pv[i as int] + ", "@ + params_join_from(pv, i as int + 1));
                }
            } else {
                proof {
                    assert(params_join_from(pv, i as int) == pv[i as int]);
                    assert(params_join_from(pv, i as int + 1) == Seq::<char>::empty());
                }
            }
            i = i + 1;
        }
        proof {
            assert(params_join_from(pv, i as int) == Seq::<char>::empty());
            assert(out@ + Seq::<char>::empty() =~= out@);
            assert(out@ == header + params_join_from(pv, 0));
        }
        out.append(") -> ");
        out.append(self.return_type.as_str());
        out.append("\n");
        out.append("\n");
        out.append("\tDescription: ");
        match &self.description {
            Some(d) => out.append(d.as_str()),
            None => out.append("no description provided"),
        }
        out.append("\n");
        out.append("\n");
        out.append("\tReturn Type(");
        out.append(self.return_type.as_str());
        out.append("): ");
        match &self.return_value_description {
            Some(d) => out.append(d.as_str()),
            None => out.append("no description provided"),
        }
        out.append("\n");
                out
    }
}

} // verus!
