use kvs::codec::{decode_at, encode, Command};
use kvs::KvsError;

fn chars(s: &str) -> Vec<char> {
    s.chars().collect()
}

fn text(v: &[char]) -> String {
    v.iter().collect()
}

#[test]
fn encode_put_shape() {
    let rec = encode(&Command::Put { key: "a".to_string(), value: "1".to_string() });
    assert_eq!(text(&rec), "{S\"a\"\"1\"}");
}

#[test]
fn encode_rm_shape() {
    let rec = encode(&Command::Rm { key: "key1".to_string() });
    assert_eq!(text(&rec), "{R\"key1\"}");
}

#[test]
fn encode_escapes_quote_and_backslash() {
    let rec = encode(&Command::Put { key: "a\"b".to_string(), value: "c\\d".to_string() });
    assert_eq!(text(&rec), "{S\"a\\\"b\"\"c\\\\d\"}");
}

#[test]
fn decode_roundtrip_put() {
    let cmd = Command::Put { key: "hello".to_string(), value: "world".to_string() };
    let rec = encode(&cmd);
    let (decoded, n) = decode_at(&rec, 0).unwrap();
    assert_eq!(decoded, cmd);
    assert_eq!(n, rec.len());
}

#[test]
fn decode_roundtrip_escaped() {
    let cmd = Command::Put { key: "a\"\\b".to_string(), value: "\\\"".to_string() };
    let rec = encode(&cmd);
    let (decoded, n) = decode_at(&rec, 0).unwrap();
    assert_eq!(decoded, cmd);
    assert_eq!(n, rec.len());
}

#[test]
fn decode_roundtrip_rm() {
    let cmd = Command::Rm { key: "gone".to_string() };
    let rec = encode(&cmd);
    let (decoded, n) = decode_at(&rec, 0).unwrap();
    assert_eq!(decoded, cmd);
    assert_eq!(n, rec.len());
}

#[test]
fn decode_consumes_one_record() {
    let mut log = encode(&Command::Put { key: "a".to_string(), value: "1".to_string() });
    let first_len = log.len();
    log.extend(encode(&Command::Rm { key: "a".to_string() }));
    let (decoded, n) = decode_at(&log, 0).unwrap();
    assert_eq!(decoded, Command::Put { key: "a".to_string(), value: "1".to_string() });
    assert_eq!(n, first_len);
    let (second, _) = decode_at(&log, n).unwrap();
    assert_eq!(second, Command::Rm { key: "a".to_string() });
}

#[test]
fn decode_malformed_is_serialization_error() {
    assert_eq!(decode_at(&chars("xyz"), 0), Err(KvsError::Serialization));
    assert_eq!(decode_at(&chars("{X\"a\"}"), 0), Err(KvsError::Serialization));
    assert_eq!(decode_at(&chars(""), 0), Err(KvsError::Serialization));
}

#[test]
fn decode_truncated_is_serialization_error() {
    assert_eq!(decode_at(&chars("{S\"a\""), 0), Err(KvsError::Serialization));
    assert_eq!(decode_at(&chars("{S\"a\"\"1\""), 0), Err(KvsError::Serialization));
    assert_eq!(decode_at(&chars("{R\"a\\"), 0), Err(KvsError::Serialization));
}

#[test]
fn error_descriptions() {
    assert_eq!(KvsError::KeyNotFound.describe(), "Key not found");
    assert_eq!(KvsError::Serialization.describe(), "serialization error");
    assert_eq!(KvsError::Io.describe(), "i/o error");
    assert_eq!(KvsError::Internal.describe(), "index and log diverged");
}
