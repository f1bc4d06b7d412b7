use btsniffer::bencode;
use btsniffer::torrent::{extract_files, extract_path, from_bytes, from_bytes_with, from_value};
use btsniffer::Error;

#[test]
fn torrent_with_one_file() {
    let t = from_bytes(b"d6:lengthi123e4:name4:teste").unwrap();
    assert_eq!(t.name, "test");
    assert_eq!(t.length, 123);
    assert!(t.files.is_empty());
}

#[test]
fn torrent_with_files_sums_their_lengths() {
    let meta = b"d5:filesld6:lengthi1e4:pathl1:a1:beed6:lengthi2e4:pathl1:ceee4:name1:xe";
    let t = from_bytes_with(meta, "/").unwrap();
    assert_eq!(t.name, "x");
    assert_eq!(t.length, 3);
    assert_eq!(t.files.len(), 2);
    assert_eq!(t.files[0].name, "a/b");
    assert_eq!(t.files[0].length, 1);
    assert_eq!(t.files[1].name, "c");
    assert_eq!(t.files[1].length, 2);
}

#[test]
fn torrent_paths_use_the_separator_of_the_platform() {
    let meta = b"d5:filesld6:lengthi1e4:pathl1:a1:b1:ceee4:name1:xe";
    let t = from_bytes(meta).unwrap();
    let sep = std::path::MAIN_SEPARATOR;
    assert_eq!(t.files[0].name, format!("a{}b{}c", sep, sep));
}

#[test]
fn torrent_prefers_the_utf8_name() {
    let t = from_bytes(b"d4:name6:legacy10:name.utf-85:utf-8e").unwrap();
    assert_eq!(t.name, "utf-8");
    let t = from_bytes(b"d4:name6:legacye").unwrap();
    assert_eq!(t.name, "legacy");
    let t = from_bytes(b"de").unwrap();
    assert_eq!(t.name, "");
    assert_eq!(t.length, 0);
    assert!(t.files.is_empty());
}

#[test]
fn torrent_keeps_a_stated_length_even_if_zero() {
    let meta = b"d5:filesld6:lengthi5e4:pathl1:aeee6:lengthi0ee";
    let t = from_bytes(meta).unwrap();
    assert_eq!(t.length, 0);
    assert_eq!(t.files.len(), 1);
    let meta = b"d5:filesld6:lengthi5e4:pathl1:aeee6:lengthi9ee";
    assert_eq!(from_bytes(meta).unwrap().length, 9);
}

#[test]
fn torrent_file_prefers_the_utf8_path_and_defaults() {
    let v = bencode::from_bytes(b"d4:pathl1:ae10:path.utf-8l1:b1:cee").unwrap();
    let f = extract_files(&v, "\\").unwrap();
    assert_eq!(f.name, "b\\c");
    assert_eq!(f.length, 0);
    let v = bencode::from_bytes(b"de").unwrap();
    let f = extract_files(&v, "/").unwrap();
    assert_eq!(f.name, "");
    assert_eq!(f.length, 0);
}

#[test]
fn extract_path_joins_segments() {
    let v = bencode::from_bytes(b"le").unwrap();
    assert_eq!(extract_path(&v, "/").unwrap(), "");
    let v = bencode::from_bytes(b"l3:onee").unwrap();
    assert_eq!(extract_path(&v, "/").unwrap(), "one");
    let v = bencode::from_bytes(b"l3:one0:3:twoe").unwrap();
    assert_eq!(extract_path(&v, "--").unwrap(), "one----two");
    let v = bencode::from_bytes(b"i1e").unwrap();
    assert_eq!(
        extract_path(&v, "/").err(),
        Some(Error::Bencode(bencode::Error::NotListType))
    );
    let v = bencode::from_bytes(b"l1:ai1ee").unwrap();
    assert_eq!(
        extract_path(&v, "/").err(),
        Some(Error::Bencode(bencode::Error::NotByteStringType))
    );
    let v = bencode::Value::List(vec![bencode::Value::ByteString(vec![0xff])]);
    assert_eq!(
        extract_path(&v, "/").err(),
        Some(Error::Bencode(bencode::Error::Utf8))
    );
}

#[test]
fn torrent_errors() {
    assert_eq!(
        from_bytes(b"").err(),
        Some(Error::Bencode(bencode::Error::Eof))
    );
    assert_eq!(
        from_bytes(b"i1e").err(),
        Some(Error::Bencode(bencode::Error::NotDictType))
    );
    assert_eq!(
        from_bytes(b"d4:namei1ee").err(),
        Some(Error::Bencode(bencode::Error::NotByteStringType))
    );
    assert_eq!(
        from_bytes(b"d6:length1:xe").err(),
        Some(Error::Bencode(bencode::Error::NotIntegerType))
    );
    assert_eq!(
        from_bytes(b"d5:filesi1ee").err(),
        Some(Error::Bencode(bencode::Error::NotListType))
    );
    assert_eq!(
        from_bytes(b"d5:filesli1eee").err(),
        Some(Error::Bencode(bencode::Error::NotDictType))
    );
    let mut bad_name = b"d4:name2:".to_vec();
    bad_name.extend_from_slice(&[0xc3, 0x28]);
    bad_name.push(b'e');
    assert_eq!(
        from_bytes(&bad_name).err(),
        Some(Error::Bencode(bencode::Error::Utf8))
    );
}

#[test]
fn torrent_length_that_does_not_fit() {
    let meta =
        b"d5:filesld6:lengthi9223372036854775807eed6:lengthi1eeee";
    assert_eq!(from_bytes(meta).err(), Some(Error::LengthOverflow));
    let meta =
        b"d5:filesld6:lengthi9223372036854775807eed6:lengthi1eee6:lengthi7ee";
    assert_eq!(from_bytes(meta).unwrap().length, 7);
    let meta =
        b"d5:filesld6:lengthi9223372036854775807eed6:lengthi1eed6:lengthi-1eeee";
    assert_eq!(from_bytes(meta).unwrap().length, i64::MAX);
}

#[test]
fn torrent_from_a_decoded_value() {
    let v = bencode::from_bytes(b"d6:lengthi5e4:name1:ne").unwrap();
    let t = from_value(&v, "/").unwrap();
    assert_eq!(t.name, "n");
    assert_eq!(t.length, 5);
}
