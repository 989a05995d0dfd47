use x11_client::error::ValidationError;
use x11_client::value_list::ValueList;
use x11_client::wire::Endianness;

#[test]
fn new_list_is_empty() {
    let list = ValueList::new();
    assert_eq!(list.mask(), 0);
    assert_eq!(list.values(), Vec::<u32>::new());
    assert_eq!(list.len(), 0);
    for bit in 0..=255u8 {
        assert_eq!(list.get(bit), None);
    }
}

#[test]
fn bits_one_and_eleven_give_two_entries_in_that_order() {
    let mut list = ValueList::new();
    assert_eq!(list.set(11, 0x8001), Ok(()));
    assert_eq!(list.set(1, 0xccffcc), Ok(()));
    assert_eq!(list.mask(), 0x802);
    assert_eq!(list.values(), vec![0xccffcc, 0x8001]);
    assert_eq!(list.len(), 2);
}

#[test]
fn clearing_bit_one_removes_only_its_entry() {
    let mut list = ValueList::new();
    list.set(1, 0xccffcc).unwrap();
    list.set(11, 0x8001).unwrap();
    assert_eq!(list.clear(1), Some(0xccffcc));
    assert_eq!(list.mask(), 0x800);
    assert_eq!(list.values(), vec![0x8001]);
    assert_eq!(list.get(1), None);
    assert_eq!(list.get(11), Some(0x8001));
}

#[test]
fn clearing_bit_eleven_removes_only_its_entry() {
    let mut list = ValueList::new();
    list.set(1, 0xccffcc).unwrap();
    list.set(11, 0x8001).unwrap();
    assert_eq!(list.clear(11), Some(0x8001));
    assert_eq!(list.mask(), 0x2);
    assert_eq!(list.values(), vec![0xccffcc]);
}

#[test]
fn clearing_a_free_bit_changes_nothing() {
    let mut list = ValueList::new();
    list.set(1, 5).unwrap();
    assert_eq!(list.clear(2), None);
    assert_eq!(list.clear(40), None);
    assert_eq!(list.mask(), 2);
    assert_eq!(list.values(), vec![5]);
}

#[test]
fn setting_twice_replaces_the_value() {
    let mut list = ValueList::new();
    list.set(3, 1).unwrap();
    list.set(7, 2).unwrap();
    list.set(3, 9).unwrap();
    assert_eq!(list.mask(), 0x88);
    assert_eq!(list.values(), vec![9, 2]);
}

#[test]
fn values_come_out_in_ascending_bit_order() {
    let mut list = ValueList::new();
    for bit in [31u8, 0, 16, 8, 24] {
        list.set(bit, 100 + bit as u32).unwrap();
    }
    assert_eq!(list.mask(), 0x8101_0101);
    assert_eq!(list.values(), vec![100, 108, 116, 124, 131]);
}

#[test]
fn bit_thirty_two_is_out_of_range() {
    let mut list = ValueList::new();
    list.set(4, 1).unwrap();
    assert_eq!(list.set(32, 7), Err(ValidationError::BitOutOfRange));
    assert_eq!(list.set(255, 7), Err(ValidationError::BitOutOfRange));
    assert_eq!(list.mask(), 0x10);
    assert_eq!(list.values(), vec![1]);
}

#[test]
fn all_bits_set_gives_full_mask() {
    let mut list = ValueList::new();
    for bit in 0..32u8 {
        list.set(bit, bit as u32).unwrap();
    }
    assert_eq!(list.mask(), u32::MAX);
    assert_eq!(list.len(), 32);
    assert_eq!(list.values(), (0..32u32).collect::<Vec<u32>>());
}

#[test]
fn mask_and_list_agree_for_every_pair_of_bits() {
    for low in 0..32u8 {
        for high in (low + 1)..32u8 {
            let mut list = ValueList::new();
            list.set(high, 2).unwrap();
            list.set(low, 1).unwrap();
            assert_eq!(list.mask(), (1u32 << low) | (1u32 << high));
            assert_eq!(list.mask().count_ones() as usize, list.len());
            assert_eq!(list.values(), vec![1, 2]);
        }
    }
}

#[test]
fn write_to_appends_mask_then_values() {
    let mut list = ValueList::new();
    list.set(1, 0xccffcc).unwrap();
    list.set(11, 0x8001).unwrap();
    let mut big = vec![0xEE];
    list.write_to(Endianness::Big, &mut big);
    assert_eq!(big, vec![0xEE, 0, 0, 0x08, 0x02, 0, 0xcc, 0xff, 0xcc, 0, 0, 0x80, 0x01]);
    let mut little = Vec::new();
    list.write_to(Endianness::Little, &mut little);
    assert_eq!(little, vec![0x02, 0x08, 0, 0, 0xcc, 0xff, 0xcc, 0, 0x01, 0x80, 0, 0]);
}

#[test]
fn write_to_of_empty_list_is_a_zero_mask() {
    let mut buf = Vec::new();
    ValueList::new().write_to(Endianness::Big, &mut buf);
    assert_eq!(buf, vec![0, 0, 0, 0]);
}
