use nxdtext::binary::{read_cstr, read_cstr_at, read_i32, read_u32, write_cstr, write_u32};
use nxdtext::nxd::safe_pos_add;
use nxdtext::{
    path_to_tablename, read_rows, update_rows, Cell, NxdError, Pointer, TableColumns,
    TextOverrides,
};

fn put_u32(buf: &mut Vec<u8>, pos: usize, v: u32) {
    if buf.len() < pos + 4 {
        buf.resize(pos + 4, 0);
    }
    buf[pos..pos + 4].copy_from_slice(&v.to_le_bytes());
}

fn put_bytes(buf: &mut Vec<u8>, pos: usize, b: &[u8]) {
    if buf.len() < pos + b.len() {
        buf.resize(pos + b.len(), 0);
    }
    buf[pos..pos + b.len()].copy_from_slice(b);
}

fn header(rowtype: u8, loc: u8) -> Vec<u8> {
    let mut d = Vec::new();
    put_bytes(&mut d, 0, b"NXDF");
    put_u32(&mut d, 4, 1);
    put_bytes(&mut d, 8, &[rowtype, loc, 0, 0]);
    put_u32(&mut d, 12, 0);
    put_bytes(&mut d, 16, &[0u8; 16]);
    d
}

/// A single-key table "T": one row, one string column holding `text`.
fn single_key_table(text: &str) -> Vec<u8> {
    let mut d = header(1, 1);
    put_u32(&mut d, 32, 40);
    put_u32(&mut d, 36, 1);
    put_u32(&mut d, 40, 7);
    put_u32(&mut d, 44, 8);
    put_u32(&mut d, 48, 4);
    put_bytes(&mut d, 52, text.as_bytes());
    d.push(0);
    d
}

/// A double-key table "D": one row, a string column holding "Hi", then an
/// empty-string placeholder column.
fn double_key_table() -> Vec<u8> {
    let mut d = header(2, 3);
    put_u32(&mut d, 32, 0);
    put_u32(&mut d, 36, 0);
    put_u32(&mut d, 40, 0);
    put_u32(&mut d, 44, 52);
    put_u32(&mut d, 48, 1);
    put_u32(&mut d, 52, 3);
    put_u32(&mut d, 56, 5);
    put_u32(&mut d, 60, 12);
    put_u32(&mut d, 64, 8);
    put_u32(&mut d, 68, 0);
    put_bytes(&mut d, 72, b"Hi\0");
    d
}

/// A single-key table "M": two rows of a number column and a string column.
fn two_row_table() -> Vec<u8> {
    let mut d = header(1, 2);
    put_u32(&mut d, 32, 40);
    put_u32(&mut d, 36, 2);
    // row 0 at 56, row 1 at 64
    put_u32(&mut d, 40, 100);
    put_u32(&mut d, 44, 16);
    put_u32(&mut d, 48, 101);
    put_u32(&mut d, 52, 16);
    put_u32(&mut d, 56, 42);
    put_u32(&mut d, 60, 12);
    put_u32(&mut d, 64, 43);
    put_u32(&mut d, 68, 8);
    put_bytes(&mut d, 72, b"one\0two\0");
    d
}

fn tables() -> Vec<TableColumns> {
    vec![
        TableColumns { name: "T".to_string(), cells: vec![Cell::Str(0)] },
        TableColumns { name: "D".to_string(), cells: vec![Cell::Str(0), Cell::EmptyStr] },
        TableColumns { name: "M".to_string(), cells: vec![Cell::Zero32, Cell::Str(0)] },
    ]
}

fn pairs(v: &[(&str, &str)]) -> Vec<(String, String)> {
    v.iter().map(|(a, b)| (a.to_string(), b.to_string())).collect()
}

#[test]
fn single_key_read_and_override() {
    let d = single_key_table("Hello");
    assert_eq!(read_rows(&d, "T", &tables()).unwrap(), pairs(&[("T/0/0", "Hello")]));
    let mut ov = TextOverrides::new();
    ov.insert("T/0/0".to_string(), "Bonjour".to_string());
    let out = update_rows(&d, "T", &tables(), &ov).unwrap();
    assert_eq!(read_rows(&out, "T", &tables()).unwrap(), pairs(&[("T/0/0", "Bonjour")]));
    assert_eq!(&out[..52], &d[..52]);
    assert_eq!(&out[52..], b"Bonjour\0");
    assert_eq!(out.len(), 60);
}

#[test]
fn double_key_empty_placeholder() {
    let d = double_key_table();
    assert_eq!(read_rows(&d, "D", &tables()).unwrap(), pairs(&[("D/0/0", "Hi")]));
    let out = update_rows(&d, "D", &tables(), &TextOverrides::new()).unwrap();
    // the pool starts with the shared empty string, then "Hi"
    assert_eq!(&out[72..], b"\0Hi\0");
    assert_eq!(u32::from_le_bytes([out[64], out[65], out[66], out[67]]), 9);
    assert_eq!(&out[68..72], &[0, 0, 0, 0]);
    assert_eq!(read_rows(&out, "D", &tables()).unwrap(), pairs(&[("D/0/0", "Hi")]));
}

#[test]
fn round_trip_without_overrides() {
    let d = single_key_table("Hello");
    let out = update_rows(&d, "T", &tables(), &TextOverrides::new()).unwrap();
    assert_eq!(out, d);
    let m = two_row_table();
    let out = update_rows(&m, "M", &tables(), &TextOverrides::new()).unwrap();
    assert_eq!(read_rows(&out, "M", &tables()).unwrap(), read_rows(&m, "M", &tables()).unwrap());
    assert_eq!(out, m);
}

#[test]
fn keys_follow_rows_and_columns() {
    let m = two_row_table();
    assert_eq!(
        read_rows(&m, "M", &tables()).unwrap(),
        pairs(&[("M/0/1", "one"), ("M/1/1", "two")])
    );
}

#[test]
fn override_one_of_two_rows() {
    let m = two_row_table();
    let mut ov = TextOverrides::new();
    ov.insert("M/1/1".to_string(), "deux".to_string());
    ov.insert("M/9/9".to_string(), "unused".to_string());
    let out = update_rows(&m, "M", &tables(), &ov).unwrap();
    assert_eq!(
        read_rows(&out, "M", &tables()).unwrap(),
        pairs(&[("M/0/1", "one"), ("M/1/1", "deux")])
    );
    assert_eq!(&out[72..], b"one\0deux\0");
    assert_eq!(u32::from_le_bytes([out[68], out[69], out[70], out[71]]), 8);
}

#[test]
fn same_text_under_two_keys_is_stored_twice() {
    let m = two_row_table();
    let mut ov = TextOverrides::new();
    ov.insert("M/0/1".to_string(), "x".to_string());
    ov.insert("M/1/1".to_string(), "x".to_string());
    let out = update_rows(&m, "M", &tables(), &ov).unwrap();
    assert_eq!(&out[72..], b"x\0x\0");
}

#[test]
fn bad_magic_is_invalid_header() {
    let mut d = single_key_table("Hello");
    d[0] = b'X';
    assert_eq!(read_rows(&d, "T", &tables()), Err(NxdError::InvalidHeader));
    assert_eq!(update_rows(&d, "T", &tables(), &TextOverrides::new()), Err(NxdError::InvalidHeader));
}

#[test]
fn bad_format_is_invalid_header() {
    let mut d = single_key_table("Hello");
    put_u32(&mut d, 4, 2);
    assert_eq!(read_rows(&d, "T", &tables()), Err(NxdError::InvalidHeader));
}

#[test]
fn bad_localization_is_invalid_header() {
    let mut d = single_key_table("Hello");
    d[9] = 3;
    assert_eq!(read_rows(&d, "T", &tables()), Err(NxdError::InvalidHeader));
    let mut d2 = double_key_table();
    d2[9] = 1;
    assert_eq!(read_rows(&d2, "D", &tables()), Err(NxdError::InvalidHeader));
}

#[test]
fn unknown_row_type_is_unsupported() {
    let mut d = single_key_table("Hello");
    d[8] = 3;
    assert_eq!(read_rows(&d, "T", &tables()), Err(NxdError::UnsupportedFormat));
}

#[test]
fn unknown_table_is_unsupported() {
    let d = single_key_table("Hello");
    assert_eq!(read_rows(&d, "Nope", &tables()), Err(NxdError::UnsupportedFormat));
    assert_eq!(
        update_rows(&d, "Nope", &tables(), &TextOverrides::new()),
        Err(NxdError::UnsupportedFormat)
    );
}

#[test]
fn truncated_table_is_eof() {
    let d = single_key_table("Hello");
    assert_eq!(read_rows(&d[..2], "T", &tables()), Err(NxdError::UnexpectedEof));
    assert_eq!(read_rows(&d[..44], "T", &tables()), Err(NxdError::UnexpectedEof));
    // no terminator
    assert_eq!(read_rows(&d[..57], "T", &tables()), Err(NxdError::UnexpectedEof));
}

#[test]
fn invalid_utf8_reports_offset() {
    let mut d = single_key_table("Hello");
    d[53] = 0xff;
    assert_eq!(read_rows(&d, "T", &tables()), Err(NxdError::Utf8Error { offset: 52 }));
}

#[test]
fn pointer_out_of_range_is_invalid_header() {
    let mut d = single_key_table("Hello");
    put_u32(&mut d, 48, (-100i32) as u32);
    assert_eq!(read_rows(&d, "T", &tables()), Err(NxdError::InvalidHeader));
}

#[test]
fn field_past_pool_start_is_invalid_header() {
    // row 0's data lies after the last row's, beyond where the pool starts
    let mut d = header(1, 1);
    put_u32(&mut d, 32, 40);
    put_u32(&mut d, 36, 2);
    put_u32(&mut d, 40, 0);
    put_u32(&mut d, 44, 30);
    put_u32(&mut d, 48, 1);
    put_u32(&mut d, 52, 8);
    put_u32(&mut d, 56, 4);
    put_bytes(&mut d, 60, b"a\0");
    put_u32(&mut d, 70, 4);
    put_bytes(&mut d, 74, b"b\0");
    assert_eq!(
        read_rows(&d, "T", &tables()).unwrap(),
        pairs(&[("T/0/0", "b"), ("T/1/0", "a")])
    );
    assert_eq!(update_rows(&d, "T", &tables(), &TextOverrides::new()), Err(NxdError::InvalidHeader));
}

#[test]
fn primitives_read_little_endian() {
    let b = [1u8, 2, 3, 4, 0xff, 0xff, 0xff, 0xff];
    assert_eq!(read_u32(&b, 0), Ok(0x0403_0201));
    assert_eq!(read_i32(&b, 4), Ok(-1));
    assert_eq!(read_u32(&b, 5), Err(NxdError::UnexpectedEof));
    assert_eq!(read_u32(&b, 100), Err(NxdError::UnexpectedEof));
}

#[test]
fn primitives_write() {
    let mut v = vec![9u8; 6];
    write_u32(0x0a0b_0c0d, &mut v, 1);
    assert_eq!(v, vec![9, 0x0d, 0x0c, 0x0b, 0x0a, 9]);
    let mut w = vec![7u8];
    write_cstr("hé", &mut w);
    assert_eq!(w, vec![7, b'h', 0xc3, 0xa9, 0]);
}

#[test]
fn primitives_cstr() {
    let b = b"ab\0cd\0";
    assert_eq!(read_cstr(b, 0).unwrap(), ("ab".to_string(), 3));
    assert_eq!(read_cstr_at(b, 3).unwrap(), "cd".to_string());
    assert_eq!(read_cstr_at(b, 2).unwrap(), "".to_string());
    assert_eq!(read_cstr_at(b"ab", 0), Err(NxdError::UnexpectedEof));
    assert_eq!(read_cstr_at(b"a\xffb\0", 0), Err(NxdError::Utf8Error { offset: 0 }));
}

#[test]
fn pointer_arithmetic_is_checked() {
    assert_eq!(safe_pos_add(10, -4), Ok(6));
    assert_eq!(safe_pos_add(10, 5), Ok(15));
    assert_eq!(safe_pos_add(3, -4), Err(NxdError::InvalidHeader));
    assert_eq!(safe_pos_add(u64::MAX, 1), Err(NxdError::InvalidHeader));
    assert_eq!(safe_pos_add(0, i64::MIN), Err(NxdError::InvalidHeader));
    let p = Pointer { self_pos: 20, rel_offset: -8 };
    assert_eq!(p.abs_target_from(100), Ok(92));
    assert_eq!(p.abs_target_from(7), Err(NxdError::InvalidHeader));
}

#[test]
fn table_name_from_file_name() {
    assert_eq!(path_to_tablename("item.nxd"), "item");
    assert_eq!(path_to_tablename("a.b.c"), "a");
    assert_eq!(path_to_tablename("plain"), "plain");
    assert_eq!(path_to_tablename(".hidden"), "");
}

#[test]
fn write_u32_appends_past_end() {
    let mut v = vec![1u8, 2];
    write_u32(0x0a0b_0c0d, &mut v, 2);
    assert_eq!(v, vec![1, 2, 0x0d, 0x0c, 0x0b, 0x0a]);
    let mut w = vec![1u8, 2, 3];
    write_u32(0x0403_0201, &mut w, 1);
    assert_eq!(w, vec![1, 1, 2, 3, 4]);
    assert_eq!(read_u32(&w, 1), Ok(0x0403_0201));
}

#[test]
fn keys_with_many_digits() {
    // twelve rows, each a single string column
    let rows: u32 = 12;
    let mut d = header(1, 1);
    put_u32(&mut d, 32, 40);
    put_u32(&mut d, 36, rows);
    let data_start = 40 + 8 * rows as usize;
    let pool_start = data_start + 4 * rows as usize;
    for r in 0..rows as usize {
        let entry = 40 + 8 * r;
        let field = data_start + 4 * r;
        put_u32(&mut d, entry, r as u32);
        put_u32(&mut d, entry + 4, (field - entry) as u32);
        put_u32(&mut d, field, (pool_start + 2 * r - field) as u32);
        put_bytes(&mut d, pool_start + 2 * r, &[b'a' + r as u8, 0]);
    }
    let got = read_rows(&d, "T", &tables()).unwrap();
    assert_eq!(got.len(), 12);
    assert_eq!(got[10], ("T/10/0".to_string(), "k".to_string()));
    assert_eq!(got[11], ("T/11/0".to_string(), "l".to_string()));
    let mut ov = TextOverrides::new();
    ov.insert("T/10/0".to_string(), "ten".to_string());
    let out = update_rows(&d, "T", &tables(), &ov).unwrap();
    let back = read_rows(&out, "T", &tables()).unwrap();
    assert_eq!(back[10], ("T/10/0".to_string(), "ten".to_string()));
    assert_eq!(back[1], ("T/1/0".to_string(), "b".to_string()));
}
