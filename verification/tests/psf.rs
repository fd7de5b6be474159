use shadps4_launcher::clock::Timestamp;
use shadps4_launcher::psf::{
    read_entry, read_header, read_index_entry, Error, FileHeader, RawEntry, Value, PSF,
    PSF_MAGIC, PSF_VERSION_1_0, PSF_VERSION_1_1,
};

struct Param {
    key: Vec<u8>,
    format: u16,
    declared_len: u32,
    data: Vec<u8>,
}

fn integer(key: &str, value: i32) -> Param {
    Param {
        key: key.as_bytes().to_vec(),
        format: 0x0404,
        declared_len: 4,
        data: value.to_le_bytes().to_vec(),
    }
}

fn text(key: &str, value: &str) -> Param {
    let mut data = value.as_bytes().to_vec();
    data.push(0);
    Param { key: key.as_bytes().to_vec(), format: 0x0402, declared_len: data.len() as u32, data }
}

fn binary(key: &str, value: &[u8]) -> Param {
    Param {
        key: key.as_bytes().to_vec(),
        format: 0x0400,
        declared_len: value.len() as u32,
        data: value.to_vec(),
    }
}

/// A file with the given entries: header, index table, key table, data table.
fn file(version: u32, params: &[Param]) -> Vec<u8> {
    let mut keys: Vec<u8> = Vec::new();
    let mut data: Vec<u8> = Vec::new();
    let mut index: Vec<u8> = Vec::new();
    for p in params {
        index.extend_from_slice(&(keys.len() as u16).to_le_bytes());
        index.extend_from_slice(&p.format.to_be_bytes());
        index.extend_from_slice(&p.declared_len.to_le_bytes());
        index.extend_from_slice(&(p.data.len() as u32).to_le_bytes());
        index.extend_from_slice(&(data.len() as u32).to_le_bytes());
        keys.extend_from_slice(&p.key);
        keys.push(0);
        data.extend_from_slice(&p.data);
    }
    let key_table = 20 + index.len() as u32;
    let data_table = key_table + keys.len() as u32;
    let mut bytes: Vec<u8> = Vec::new();
    bytes.extend_from_slice(&0x0050_5346u32.to_be_bytes());
    bytes.extend_from_slice(&version.to_le_bytes());
    bytes.extend_from_slice(&key_table.to_le_bytes());
    bytes.extend_from_slice(&data_table.to_le_bytes());
    bytes.extend_from_slice(&(params.len() as u32).to_le_bytes());
    bytes.extend_from_slice(&index);
    bytes.extend_from_slice(&keys);
    bytes.extend_from_slice(&data);
    bytes
}

fn decoded(bytes: &[u8]) -> Result<PSF, Error> {
    let mut psf = PSF::new();
    psf.read(bytes)?;
    Ok(psf)
}

#[test]
fn a_new_document_is_empty_and_dated_at_the_epoch() {
    let psf = PSF::new();
    assert_eq!(psf.len(), 0);
    assert_eq!(psf.get("VERSION"), None);
    assert_eq!(psf.last_write(), Timestamp { secs: 0, nanos: 0 });
    assert!(psf.entries().is_empty());
}

#[test]
fn a_file_with_one_integer_decodes_to_that_integer() {
    let bytes = file(0x0000_0101, &[integer("VERSION", 42)]);
    assert_eq!(
        bytes,
        vec![
            0x00, 0x50, 0x53, 0x46, 0x01, 0x01, 0x00, 0x00, 36, 0, 0, 0, 44, 0, 0, 0, 1, 0, 0, 0,
            0, 0, 0x04, 0x04, 4, 0, 0, 0, 4, 0, 0, 0, 0, 0, 0, 0, b'V', b'E', b'R', b'S', b'I',
            b'O', b'N', 0, 42, 0, 0, 0,
        ]
    );
    let psf = decoded(&bytes).unwrap();
    assert_eq!(psf.len(), 1);
    assert_eq!(psf.get("VERSION"), Some(&Value::Integer(42)));
    assert_eq!(psf.entries(), &vec![("VERSION".to_string(), Value::Integer(42))]);
}

#[test]
fn a_wrong_magic_number_is_reported_with_what_stood_there() {
    let mut bytes = file(0x0000_0101, &[integer("VERSION", 42)]);
    bytes[3] = 0x47;
    assert_eq!(decoded(&bytes).unwrap_err(), Error::InvalidMagicCode(0x0050_5347));
    bytes[0] = 0xFF;
    assert_eq!(decoded(&bytes).unwrap_err(), Error::InvalidMagicCode(0xFF50_5347));
}

#[test]
fn an_integer_of_three_bytes_is_reported_with_both_sizes() {
    let mut bad = integer("VERSION", 42);
    bad.declared_len = 3;
    let bytes = file(0x0000_0101, &[bad]);
    assert_eq!(decoded(&bytes).unwrap_err(), Error::InvalidIntEntry(3, 4));
}

#[test]
fn both_versions_are_read_and_no_other() {
    assert!(decoded(&file(PSF_VERSION_1_0, &[])).is_ok());
    assert!(decoded(&file(PSF_VERSION_1_1, &[])).is_ok());
    assert_eq!(decoded(&file(0x0102, &[])).unwrap_err(), Error::InvalidVersion(0x0102));
    assert_eq!(decoded(&file(0x0100_0000, &[])).unwrap_err(), Error::InvalidVersion(0x0100_0000));
    assert_eq!(PSF_MAGIC, 0x0050_5346);
}

#[test]
fn the_magic_number_is_checked_before_the_version() {
    let mut bytes = file(0x0777, &[]);
    bytes[1] = 0;
    assert_eq!(decoded(&bytes).unwrap_err(), Error::InvalidMagicCode(0x0000_5346));
}

#[test]
fn an_unknown_format_tag_is_reported_as_it_stands() {
    let mut odd = integer("X", 1);
    odd.format = 0x0204;
    assert_eq!(decoded(&file(0x0101, &[odd])).unwrap_err(), Error::InvalidEntryFormat(0x0204));
}

#[test]
fn a_file_that_ends_early_is_reported() {
    let bytes = file(0x0101, &[integer("VERSION", 42)]);
    assert_eq!(decoded(&[]).unwrap_err(), Error::UnexpectedEof);
    assert_eq!(decoded(&bytes[..19]).unwrap_err(), Error::UnexpectedEof);
    // The header is there, the index record is cut.
    assert_eq!(decoded(&bytes[..35]).unwrap_err(), Error::UnexpectedEof);
    // The value is cut.
    assert_eq!(decoded(&bytes[..47]).unwrap_err(), Error::UnexpectedEof);
    assert!(decoded(&bytes[..48]).is_ok());
}

#[test]
fn a_name_cut_by_the_end_of_the_file_is_read_as_far_as_it_goes() {
    let mut bytes = file(0x0101, &[binary("NAME", &[])]);
    // Drop the NUL of the name: the name now runs to the end of the file.
    assert_eq!(bytes.pop(), Some(0));
    let psf = decoded(&bytes).unwrap();
    assert_eq!(psf.get("NAME"), Some(&Value::Binary(vec![])));
}

#[test]
fn text_is_read_up_to_its_terminator() {
    let mut long = text("TITLE", "Bloodborne");
    long.data.extend_from_slice(b"padding");
    let psf = decoded(&file(0x0101, &[long, text("EMPTY", "")])).unwrap();
    assert_eq!(psf.get("TITLE"), Some(&Value::Text("Bloodborne".to_string())));
    assert_eq!(psf.get("EMPTY"), Some(&Value::Text(String::new())));
}

#[test]
fn text_beyond_ascii_is_decoded() {
    let psf = decoded(&file(0x0101, &[text("TITLE", "ゲーム ∑ é")])).unwrap();
    assert_eq!(psf.get("TITLE"), Some(&Value::Text("ゲーム ∑ é".to_string())));
}

#[test]
fn text_that_is_not_utf8_is_reported_with_its_bytes() {
    let mut bad = text("TITLE", "ab");
    bad.data = vec![b'a', 0xFF, b'b', 0];
    assert_eq!(
        decoded(&file(0x0101, &[bad])).unwrap_err(),
        Error::InvalidTextEntryUtf(vec![b'a', 0xFF, b'b'])
    );
}

#[test]
fn a_name_that_is_not_utf8_is_reported_before_its_value_is_looked_at() {
    let mut bad = integer("K", 1);
    bad.key = vec![0xC3, 0x28];
    bad.format = 0x7777;
    assert_eq!(
        decoded(&file(0x0101, &[bad])).unwrap_err(),
        Error::InvalidTextEntryUtf(vec![0xC3, 0x28])
    );
}

#[test]
fn binary_values_have_their_declared_length() {
    let mut short = binary("BLOB", &[1, 2, 3, 4, 5]);
    short.declared_len = 3;
    let psf = decoded(&file(0x0101, &[short, binary("NONE", &[])])).unwrap();
    assert_eq!(psf.get("BLOB"), Some(&Value::Binary(vec![1, 2, 3])));
    assert_eq!(psf.get("NONE"), Some(&Value::Binary(vec![])));
    let mut long = binary("BLOB", &[1, 2, 3]);
    long.declared_len = 4;
    assert_eq!(decoded(&file(0x0101, &[long])).unwrap_err(), Error::UnexpectedEof);
}

#[test]
fn integers_are_signed_and_little_endian() {
    let params = [
        integer("MIN", i32::MIN),
        integer("NEG", -2),
        integer("MAX", i32::MAX),
        integer("MIXED", 0x0102_0304),
    ];
    let bytes = file(0x0101, &params);
    let psf = decoded(&bytes).unwrap();
    assert_eq!(psf.get("MIN"), Some(&Value::Integer(i32::MIN)));
    assert_eq!(psf.get("NEG"), Some(&Value::Integer(-2)));
    assert_eq!(psf.get("MAX"), Some(&Value::Integer(i32::MAX)));
    assert_eq!(psf.get("MIXED"), Some(&Value::Integer(0x0102_0304)));
    assert_eq!(&bytes[bytes.len() - 4..], &[4, 3, 2, 1]);
}

#[test]
fn of_two_entries_with_one_name_the_later_counts() {
    let psf = decoded(&file(
        0x0101,
        &[integer("A", 1), text("B", "x"), integer("A", 2), integer("C", 3)],
    ))
    .unwrap();
    assert_eq!(psf.len(), 3);
    assert_eq!(psf.get("A"), Some(&Value::Integer(2)));
    assert_eq!(psf.get("B"), Some(&Value::Text("x".to_string())));
    assert_eq!(psf.get("C"), Some(&Value::Integer(3)));
    assert_eq!(psf.get("D"), None);
}

#[test]
fn the_first_entry_that_fails_decides_the_error() {
    let mut wrong_size = integer("B", 2);
    wrong_size.declared_len = 8;
    let mut wrong_tag = integer("C", 3);
    wrong_tag.format = 0x0001;
    let bytes = file(0x0101, &[integer("A", 1), wrong_size, wrong_tag]);
    assert_eq!(decoded(&bytes).unwrap_err(), Error::InvalidIntEntry(8, 4));
}

#[test]
fn a_failed_read_leaves_the_document_as_it_was() {
    let mut psf = PSF::new();
    psf.set_last_write(Timestamp { secs: 1_700_000_000, nanos: 12 });
    psf.read(&file(0x0101, &[integer("A", 1)])).unwrap();
    let mut bad = integer("B", 2);
    bad.declared_len = 3;
    assert_eq!(
        psf.read(&file(0x0101, &[integer("Z", 9), bad])),
        Err(Error::InvalidIntEntry(3, 4))
    );
    assert_eq!(psf.len(), 1);
    assert_eq!(psf.get("A"), Some(&Value::Integer(1)));
    assert_eq!(psf.get("Z"), None);
    assert_eq!(psf.last_write(), Timestamp { secs: 1_700_000_000, nanos: 12 });
}

#[test]
fn a_second_read_replaces_the_entries_and_keeps_the_date() {
    let mut psf = PSF::new();
    psf.set_last_write(Timestamp { secs: 5, nanos: 6 });
    psf.read(&file(0x0101, &[integer("A", 1)])).unwrap();
    psf.read(&file(0x0100, &[integer("B", 2)])).unwrap();
    assert_eq!(psf.get("A"), None);
    assert_eq!(psf.get("B"), Some(&Value::Integer(2)));
    assert_eq!(psf.last_write(), Timestamp { secs: 5, nanos: 6 });
}

#[test]
fn the_header_and_the_index_records_are_read_field_by_field() {
    let bytes = file(0x0101, &[integer("VERSION", 42), text("TITLE", "Game")]);
    let header = read_header(&bytes);
    assert_eq!(
        header,
        FileHeader {
            magic: 0x0050_5346,
            version: 0x0101,
            key_table_offset: 52,
            data_table_offset: 66,
            index_table_entries: 2,
        }
    );
    let second = read_index_entry(&bytes, 1);
    assert_eq!(
        second,
        RawEntry {
            key_offset: 8,
            param_fmt: 0x0402,
            param_len: 5,
            param_max_len: 5,
            data_offset: 4,
        }
    );
    assert_eq!(
        read_entry(&bytes, &header, &second),
        Ok(("TITLE".to_string(), Value::Text("Game".to_string())))
    );
}
