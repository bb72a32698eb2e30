//! The register-model naming rules.

use icecompr::ral::{Access, AddressSize, BitRange, FinalRegisterProperties, ModelPeripheralInstance,
    ResetValue};

#[test]
fn address_sizes_name_their_integer_types() {
    assert_eq!(AddressSize::U32.type_str(), "u32");
    assert_eq!(AddressSize::U64.type_str(), "u64");
}

#[test]
fn access_kinds_pick_their_register_wrappers() {
    let mut p = FinalRegisterProperties {
        size: 32,
        reset_value: 0,
        reset_mask: 0xFFFF_FFFF,
        access: Access::ReadOnly,
    };
    assert_eq!(p.access_type_name(), "RORegister");
    p.access = Access::ReadWrite;
    assert_eq!(p.access_type_name(), "RWRegister");
    p.access = Access::ReadWriteOnce;
    assert_eq!(p.access_type_name(), "RWRegister");
    p.access = Access::WriteOnce;
    assert_eq!(p.access_type_name(), "WORegister");
    p.access = Access::WriteOnly;
    assert_eq!(p.access_type_name(), "WORegister");
}

#[test]
fn register_sizes_name_their_integer_types() {
    let mut p = FinalRegisterProperties {
        size: 8,
        reset_value: 0,
        reset_mask: 0xFF,
        access: Access::ReadWrite,
    };
    assert_eq!(p.size_type_name(), "u8");
    p.size = 16;
    assert_eq!(p.size_type_name(), "u16");
    p.size = 32;
    assert_eq!(p.size_type_name(), "u32");
    p.size = 64;
    assert_eq!(p.size_type_name(), "u64");
}

#[test]
fn model_instances_carry_their_reset_values() {
    let instance = ModelPeripheralInstance {
        name: "CTRL".to_string(),
        description: "control block".to_string(),
        module_name: "ctrl".to_string(),
        peripheral_module: "ctrl".to_string(),
        base_address: 0xE000_0000,
        reset_values: vec![ResetValue { register: "SCRATCH".to_string(), value: 0x12345678 }],
    };
    assert_eq!(instance.reset_values.len(), 1);
    assert_eq!(instance.reset_values[0].register, "SCRATCH");
    assert_eq!(instance.reset_values[0].value, 0x12345678);
    let range = BitRange { offset: 3, width: 2 };
    assert_eq!(range.offset, 3);
    assert_eq!(range.width, 2);
}
