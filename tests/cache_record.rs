use codeswitch::cache::{decode_record, encode_record, CacheError, Stamp};

fn entries(v: &[&str]) -> Vec<Vec<u8>> {
    v.iter().map(|s| s.as_bytes().to_vec()).collect()
}

#[test]
fn record_layout_is_little_endian_stamp_then_terminated_entries() {
    let stamp = Stamp { dev: 0x0102, ino: 0x0a0b0c0d };
    let data = encode_record(&stamp, &entries(&["a/b", "c"]));
    let mut expected = vec![0x02, 0x01, 0, 0, 0, 0, 0, 0, 0x0d, 0x0c, 0x0b, 0x0a, 0, 0, 0, 0];
    expected.extend_from_slice(b"a/b\0c\0");
    assert_eq!(data, expected);
}

#[test]
fn record_reads_back_for_the_same_root() {
    let stamp = Stamp { dev: 7, ino: 123456789 };
    let list = entries(&["foo/proj1", "bar/proj1", "S", "T"]);
    let data = encode_record(&stamp, &list);
    assert_eq!(decode_record(&stamp, &data), Ok(Some(list)));
}

#[test]
fn record_for_another_root_reads_as_no_cache() {
    let written = Stamp { dev: 1, ino: 2 };
    let data = encode_record(&written, &entries(&["foo/proj"]));
    assert_eq!(decode_record(&Stamp { dev: 1, ino: 3 }, &data), Ok(None));
    assert_eq!(decode_record(&Stamp { dev: 5, ino: 2 }, &data), Ok(None));
}

#[test]
fn record_without_entries_reads_as_no_cache() {
    let stamp = Stamp { dev: 9, ino: 9 };
    let data = encode_record(&stamp, &Vec::new());
    assert_eq!(data.len(), 16);
    assert_eq!(decode_record(&stamp, &data), Ok(None));
}

#[test]
fn short_record_is_an_error() {
    let stamp = Stamp { dev: 0, ino: 0 };
    assert_eq!(decode_record(&stamp, &vec![0u8; 15]), Err(CacheError::Truncated));
    assert_eq!(decode_record(&stamp, &Vec::new()), Err(CacheError::Truncated));
}

#[test]
fn last_entry_may_lack_its_terminator() {
    let stamp = Stamp { dev: 3, ino: 4 };
    let mut data = encode_record(&stamp, &entries(&["a"]));
    data.extend_from_slice(b"tail");
    assert_eq!(decode_record(&stamp, &data), Ok(Some(entries(&["a", "tail"]))));
}

#[test]
fn non_text_names_are_kept_as_bytes() {
    let stamp = Stamp { dev: u64::MAX, ino: 1 << 63 };
    let list = vec![vec![0xff, 0xfe, b'/', 0x80]];
    let data = encode_record(&stamp, &list);
    assert_eq!(decode_record(&stamp, &data), Ok(Some(list)));
}
