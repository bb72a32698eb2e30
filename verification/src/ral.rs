//! Plain data model of a hardware description, as a register-access-layer
//! generator consumes it: devices, peripherals, registers and fields with
//! their reset values, plus the small naming rules that pick the Rust
//! types a generator writes out.

use vstd::prelude::*;

verus! {

/// How wide a peripheral base address is on the target.
#[derive(Clone, Copy, Debug, Eq, PartialEq, Structural)]
pub enum AddressSize {
    U32,
    U64,
}

impl AddressSize {
    /// The Rust integer type that holds such an address.
    pub fn type_str(&self) -> (r: &'static str)
        ensures
            *self is U32 ==> r@ == "u32"@,
            *self is U64 ==> r@ == "u64"@,
    {
        match self {
            AddressSize::U32 => "u32",
            AddressSize::U64 => "u64",
        }
    }
}

/// What software may do with a register or field.
#[derive(Clone, Copy, Debug, Eq, PartialEq, Structural)]
pub enum Access {
    ReadOnly,
    ReadWrite,
    ReadWriteOnce,
    WriteOnce,
    WriteOnly,
}

/// A field's place inside its register: offset of the lowest bit, and
/// width in bits.
#[derive(Clone, Copy, Debug, Eq, PartialEq, Structural)]
pub struct BitRange {
    pub offset: u32,
    pub width: u32,
}

/// A whole device: the distinct peripheral layouts, and the addressed
/// instances that use them.
pub struct ModelDevice {
    pub peripherals: Vec<ModelPeripheral>,
    pub instances: Vec<ModelPeripheralInstance>,
}

/// One peripheral layout: its registers, under a module name.
pub struct ModelPeripheral {
    pub name: String,
    pub description: String,
    pub module_name: String,
    pub registers: Vec<FinalRegisterInfo>,
}

/// One addressed instance of a peripheral layout.
pub struct ModelPeripheralInstance {
    pub name: String,
    pub description: String,
    pub module_name: String,
    pub peripheral_module: String,
    pub base_address: u32,
    pub reset_values: Vec<ResetValue>,
}

/// The value one register holds after reset.
pub struct ResetValue {
    pub register: String,
    pub value: u64,
}

/// One field of a register, with every defaulted property resolved.
pub struct FinalFieldInfo {
    pub name: String,
    pub description: Option<String>,
    pub bit_range: BitRange,
    pub access: Access,
}

/// One register, with every defaulted property resolved.
pub struct FinalRegisterInfo {
    pub name: String,
    pub description: Option<String>,
    pub address_offset: u32,
    pub properties: FinalRegisterProperties,
    pub fields: Vec<FinalFieldInfo>,
}

/// A register's resolved size, reset behaviour and access.
pub struct FinalRegisterProperties {
    pub size: u32,
    pub reset_value: u64,
    pub reset_mask: u64,
    pub access: Access,
}

impl FinalRegisterProperties {
    /// The wrapper type a generator uses for this register's access kind:
    /// write-once collapses to write-only, read-write-once to read-write.
    pub fn access_type_name(&self) -> (r: &'static str)
        ensures
            self.access is ReadOnly ==> r@ == "RORegister"@,
            (self.access is ReadWrite || self.access is ReadWriteOnce) ==> r@ == "RWRegister"@,
            (self.access is WriteOnce || self.access is WriteOnly) ==> r@ == "WORegister"@,
    {
        match self.access {
            Access::ReadOnly => "RORegister",
            Access::ReadWrite => "RWRegister",
            Access::ReadWriteOnce => "RWRegister",
            Access::WriteOnce => "WORegister",
            Access::WriteOnly => "WORegister",
        }
    }

    /// The Rust integer type that holds this register's value.  Only the
    /// four machine sizes exist.
    pub fn size_type_name(&self) -> (r: &'static str)
        requires
            self.size == 8 || self.size == 16 || self.size == 32 || self.size == 64,
        ensures
            self.size == 8 ==> r@ == "u8"@,
            self.size == 16 ==> r@ == "u16"@,
            self.size == 32 ==> r@ == "u32"@,
            self.size == 64 ==> r@ == "u64"@,
    {
        if self.size == 8 {
            "u8"
        } else if self.size == 16 {
            "u16"
        } else if self.size == 32 {
            "u32"
        } else {
            "u64"
        }
    }
}

} // verus!
