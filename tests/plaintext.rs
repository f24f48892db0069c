use gadget_fhe::encoding::lift_entry;
use gadget_fhe::pbs::mod_switch;
use gadget_fhe::plaintext::{decode, encode};

#[test]
fn encode_exact_values() {
    assert_eq!(encode(0, 3), 0);
    assert_eq!(encode(1, 3), 1431655765);
    assert_eq!(encode(2, 3), 2863311531);
    assert_eq!(encode(16, 17), 4042322161);
    assert_eq!(encode(1, 2), 1 << 31);
}

#[test]
fn decode_rounds_to_nearest() {
    assert_eq!(decode(1431655765, 3), 1);
    assert_eq!(decode(1431655765 + 700_000_000, 3), 1);
    assert_eq!(decode(1431655765 - 700_000_000, 3), 1);
    assert_eq!(decode(u32::MAX, 3), 0);
    assert_eq!(decode(0x8000_0000, 2), 1);
    assert_eq!(decode(4042322160, 17), 16);
}

#[test]
fn lift_exact_values() {
    assert_eq!(lift_entry(1, 3), 1431655765);
    assert_eq!(lift_entry(22, 23), 4108229587);
    assert_eq!(lift_entry(2, 3), 2863311531);
}

#[test]
fn mod_switch_exact_values() {
    assert_eq!(mod_switch(0, 1024), 0);
    assert_eq!(mod_switch(1 << 31, 1024), 512);
    assert_eq!(mod_switch(u32::MAX, 1024), 0);
    assert_eq!(mod_switch(3 << 22, 1024), 3);
}
