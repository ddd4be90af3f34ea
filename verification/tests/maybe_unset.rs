use c2rust_analyze::maybe_unset::MaybeUnset;

#[test]
fn set_then_take() {
    let mut slot: MaybeUnset<u32> = MaybeUnset::default();
    slot.set(3);
    assert_eq!(slot.take(), 3);
    slot.set(4);
    assert_eq!(*slot.get(), 4);
}

#[test]
fn cleared_slot_can_be_set_again() {
    let mut slot: MaybeUnset<String> = MaybeUnset::default();
    slot.set("a".to_string());
    slot.clear();
    slot.set("b".to_string());
    slot.get_mut().push('c');
    assert_eq!(slot.get(), "bc");
    assert_eq!(slot.clone().take(), "bc");
    assert_eq!(slot.take(), "bc");
}
