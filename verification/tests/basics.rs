use envio::table::same_text;
use envio::table::Table;
use envio::text::chars_of;
use envio::text::find_char;
use envio::wire::get_u64;
use envio::wire::put_field;
use envio::wire::put_u64;
use envio::wire::read_field;
use envio::wire::read_text;

#[test]
fn numbers_are_written_most_significant_byte_first() {
    let mut out = vec![0xaa];
    put_u64(&mut out, 0x0102_0304_0506_0708);
    assert_eq!(out, vec![0xaa, 1, 2, 3, 4, 5, 6, 7, 8]);
    let mut out = Vec::new();
    put_u64(&mut out, 0);
    put_u64(&mut out, u64::MAX);
    put_u64(&mut out, 256);
    assert_eq!(&out[..8], &[0u8; 8]);
    assert_eq!(&out[8..16], &[0xffu8; 8]);
    assert_eq!(&out[16..], &[0, 0, 0, 0, 0, 0, 1, 0]);
}

#[test]
fn numbers_are_read_as_they_were_written() {
    let values = [0u64, 1, 255, 256, 0xdead_beef, 0x0102_0304_0506_0708, u64::MAX - 1, u64::MAX];
    for value in values.iter() {
        let mut out = vec![9, 9, 9];
        put_u64(&mut out, *value);
        out.push(7);
        assert_eq!(get_u64(&out, 3), *value);
        assert_eq!(&out[3..11], &value.to_be_bytes());
    }
    assert_eq!(get_u64(&[0, 0, 0, 0, 0, 0, 2, 1], 0), 513);
}

#[test]
fn fields_carry_their_length() {
    let mut out = Vec::new();
    put_field(&mut out, b"abc");
    put_field(&mut out, b"");
    assert_eq!(out, vec![0, 0, 0, 0, 0, 0, 0, 3, 0x61, 0x62, 0x63, 0, 0, 0, 0, 0, 0, 0, 0]);
    assert_eq!(read_field(&out, 0), Some((8, 11)));
    assert_eq!(read_field(&out, 11), Some((19, 19)));
    assert_eq!(read_field(&out, 19), None);
    assert_eq!(read_field(&out, 12), None);
    assert_eq!(read_field(&out[..10], 0), None);
    assert_eq!(read_field(&out[..7], 0), None);
}

#[test]
fn texts_are_read_from_valid_utf8_only() {
    let data = "aé値".as_bytes();
    assert_eq!(read_text(data, 0, data.len()), Some("aé値".to_string()));
    assert_eq!(read_text(data, 1, 3), Some("é".to_string()));
    assert_eq!(read_text(data, 0, 0), Some(String::new()));
    assert_eq!(read_text(data, 1, 2), None);
    assert_eq!(read_text(&[0xff], 0, 1), None);
    assert_eq!(read_text(&[0xed, 0xa0, 0x80], 0, 3), None);
}

#[test]
fn texts_are_compared_by_their_characters() {
    assert!(same_text("", ""));
    assert!(same_text("profiles", "profiles"));
    assert!(!same_text("profiles", "profile"));
    assert!(!same_text("profiles", "Profiles"));
    assert!(same_text("値", "値"));
    assert!(!same_text("é", "e\u{301}"));
}

#[test]
fn characters_are_found_from_a_position_on() {
    let chars = chars_of("a=é=b");
    assert_eq!(chars, vec!['a', '=', 'é', '=', 'b']);
    assert_eq!(find_char(&chars, '=', 0), 1);
    assert_eq!(find_char(&chars, '=', 1), 1);
    assert_eq!(find_char(&chars, '=', 2), 3);
    assert_eq!(find_char(&chars, '=', 4), 5);
    assert_eq!(find_char(&chars, '=', 5), 5);
    assert_eq!(find_char(&chars, 'x', 0), 5);
    assert!(chars_of("").is_empty());
}

#[test]
fn a_table_binds_each_key_once() {
    let mut table: Table<u32> = Table::new();
    assert_eq!(table.len(), 0);
    table.insert("a".to_string(), 1);
    table.insert("b".to_string(), 2);
    table.insert("a".to_string(), 3);
    assert_eq!(table.len(), 2);
    assert_eq!(table.find("a"), Some(0));
    assert_eq!(table.find("b"), Some(1));
    assert_eq!(table.find("c"), None);
    assert_eq!(table.get("a"), Some(&3));
    assert_eq!(table.get("c"), None);
    assert_eq!(table.key_at(1), "b");
    assert_eq!(table.value_at(1), &2);
    assert_eq!(table.remove_at(0), 3);
    assert_eq!(table.find("a"), None);
    assert_eq!(table.find("b"), Some(0));
}
