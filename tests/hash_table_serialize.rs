use std::collections::HashMap;
use zipper::hash_table_serialize;
use zipper::hash_table_serialize::{DecodeError, EncodeError, SerializeTable};

fn dict(entries: &[(u8, &str)]) -> HashMap<u8, String> {
    let mut m = HashMap::new();
    for (k, v) in entries {
        m.insert(*k, String::from(*v));
    }
    m
}

#[test]
fn check_serialize_then_deserialize() {
    // construct a test HaspMap<u8,String>
    let mut test_map = HashMap::new();

    let first_key: u8 = 56;
    let first_value: String = String::from("011101");

    let second_key: u8 = 26;
    let second_value: String = String::from("1101");

    let thrid_key: u8 = 119;
    let thrid_value: String = String::from("111");

    test_map.insert(first_key, first_value);
    test_map.insert(second_key, second_value);
    test_map.insert(thrid_key, thrid_value);

    let mut output_buf: Vec<u8> = Vec::new();

    output_buf.resize(10000, 0);

    let test_serialize_table = hash_table_serialize::SerializeTable::new(&test_map).unwrap();

    // serialize the table
    let mut start_index = 0;
    test_serialize_table.serialize(&mut output_buf, &mut start_index);
    // check the size
    assert_eq!(
        start_index,
        hash_table_serialize::HEADER_SIZE + test_map.len() * hash_table_serialize::ELEMENT_SIZE
    );
    let mut dump = String::new();
    for i in 0..start_index {
        dump.push_str(&format!("{:02x} ", output_buf[i]));
    }
    println!("{}", dump);

    // deserialize the table
    let deserialized_table = hash_table_serialize::SerializeTable::deserialize(&output_buf).unwrap();
    println!("deserialized table {:?}", deserialized_table);
    // check every k,v pair in deserialized table matches the one in test_map
    for (key, value) in deserialized_table {
        assert_eq!(test_map.get(&key).unwrap(), &value);
    }
}

#[test]
fn three_entry_dictionary_round_trips_exactly() {
    let d = dict(&[(56, "011101"), (26, "1101"), (119, "111")]);
    let table = SerializeTable::new(&d).unwrap();
    let mut out = vec![0u8; 64];
    let mut cursor = 0usize;
    table.serialize(&mut out, &mut cursor);
    assert_eq!(cursor, 14);
    assert_eq!(&out[0..2], &[0x00, 0x03]);
    assert_eq!(
        &out[0..14],
        &[0x00, 0x03, 26, 4, 0xD0, 0x00, 56, 6, 0x74, 0x00, 119, 3, 0xE0, 0x00]
    );
    let back = SerializeTable::deserialize(&out).unwrap();
    assert_eq!(back, d);
}

#[test]
fn serialize_at_offset_writes_only_its_region() {
    let d = dict(&[(1, "1"), (2, "01")]);
    let table = SerializeTable::new(&d).unwrap();
    let mut out = vec![0xEEu8; 20];
    let mut cursor = 5usize;
    table.serialize(&mut out, &mut cursor);
    assert_eq!(cursor, 5 + 2 + 4 * 2);
    assert_eq!(&out[0..5], &[0xEE; 5]);
    assert_eq!(&out[5..15], &[0x00, 0x02, 1, 1, 0x80, 0x00, 2, 2, 0x40, 0x00]);
    assert_eq!(&out[15..20], &[0xEE; 5]);
    let back = SerializeTable::deserialize(&out[5..].to_vec()).unwrap();
    assert_eq!(back, d);
}

#[test]
fn sixteen_bit_code_packs_both_bytes() {
    let d = dict(&[(200, "1010101010101011")]);
    let table = SerializeTable::new(&d).unwrap();
    let mut out = vec![0u8; 6];
    let mut cursor = 0usize;
    table.serialize(&mut out, &mut cursor);
    assert_eq!(out, vec![0x00, 0x01, 200, 16, 0xAA, 0xAB]);
    assert_eq!(SerializeTable::deserialize(&out).unwrap(), d);
}

#[test]
fn full_symbol_range_round_trips() {
    let mut d = HashMap::new();
    for k in 0..=255u8 {
        let bits: String = (0..(k as usize % 16 + 1))
            .map(|i| if (k as usize >> (i % 8)) & 1 == 1 { '1' } else { '0' })
            .collect();
        d.insert(k, bits);
    }
    let table = SerializeTable::new(&d).unwrap();
    let mut out = vec![0u8; 2 + 4 * 256];
    let mut cursor = 0usize;
    table.serialize(&mut out, &mut cursor);
    assert_eq!(cursor, 1026);
    assert_eq!(&out[0..2], &[0x01, 0x00]);
    assert_eq!(SerializeTable::deserialize(&out).unwrap(), d);
}

#[test]
fn empty_dictionary_writes_only_the_count() {
    let d: HashMap<u8, String> = HashMap::new();
    let table = SerializeTable::new(&d).unwrap();
    let mut out = vec![0xFFu8; 4];
    let mut cursor = 0usize;
    table.serialize(&mut out, &mut cursor);
    assert_eq!(cursor, 2);
    assert_eq!(out, vec![0x00, 0x00, 0xFF, 0xFF]);
    assert_eq!(SerializeTable::deserialize(&out).unwrap(), d);
}

#[test]
fn encode_rejects_empty_code() {
    let d = dict(&[(3, "")]);
    assert_eq!(SerializeTable::new(&d).err(), Some(EncodeError::BoundsViolation));
}

#[test]
fn encode_rejects_seventeen_bit_code() {
    let d = dict(&[(3, "10"), (4, "10101010101010101")]);
    assert_eq!(SerializeTable::new(&d).err(), Some(EncodeError::BoundsViolation));
}

#[test]
fn encode_rejects_non_binary_character() {
    let d = dict(&[(9, "012")]);
    assert_eq!(SerializeTable::new(&d).err(), Some(EncodeError::BoundsViolation));
}

#[test]
fn deserialize_rejects_three_bytes() {
    assert_eq!(SerializeTable::deserialize(&vec![0, 0, 0]), Err(DecodeError::TooShort));
    assert_eq!(SerializeTable::deserialize(&vec![]), Err(DecodeError::TooShort));
}

#[test]
fn deserialize_rejects_missing_record_bytes() {
    // Two records declared, 9 of the 10 bytes present.
    let buf = vec![0x00, 0x02, 1, 1, 0x80, 0x00, 2, 2, 0x40];
    assert_eq!(SerializeTable::deserialize(&buf), Err(DecodeError::TooShort));
}

#[test]
fn deserialize_rejects_overlong_code_length() {
    let buf = vec![0x00, 0x01, 7, 17, 0xFF, 0xFF];
    assert_eq!(SerializeTable::deserialize(&buf), Err(DecodeError::CodeTooLong));
}

#[test]
fn deserialize_zero_records_is_empty() {
    let back = SerializeTable::deserialize(&vec![0, 0, 9, 9]).unwrap();
    assert!(back.is_empty());
}

#[test]
fn deserialize_ignores_tail_bits_and_keeps_last_duplicate() {
    let buf = vec![0x00, 0x02, 5, 2, 0xFF, 0xFF, 5, 3, 0x20, 0x01];
    let back = SerializeTable::deserialize(&buf).unwrap();
    assert_eq!(back.len(), 1);
    assert_eq!(back.get(&5).unwrap(), "001");
}
