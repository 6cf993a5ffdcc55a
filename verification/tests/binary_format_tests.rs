use kenlmrs::error::LMError;
use kenlmrs::ngram::binary_format::{header_size, initialize_binary, recognize_binary, util};
use kenlmrs::types::ModelType;

#[test]
fn binary_format_test_required_bits() {
    assert_eq!(util::required_bits(0), 1);
    assert_eq!(util::required_bits(1), 1);
    assert_eq!(util::required_bits(2), 2);
    assert_eq!(util::required_bits(3), 2);
    assert_eq!(util::required_bits(255), 8);
    assert_eq!(util::required_bits(256), 9);
}

#[test]
fn binary_format_test_read_write_int57() {
    let mut buffer = vec![0u8; 16];
    util::write_int57(&mut buffer, 0, 8, 0x42);
    assert_eq!(util::read_int57(&buffer, 0, 8, 0xFF), 0x42);
    util::write_int57(&mut buffer, 8, 16, 0x1234);
    assert_eq!(util::read_int57(&buffer, 8, 16, 0xFFFF), 0x1234);
}

#[test]
fn binary_format_write_replaces_previous_bits() {
    let mut buffer = vec![0xFFu8; 16];
    util::write_int57(&mut buffer, 4, 8, 0x5A);
    assert_eq!(util::read_int57(&buffer, 4, 8, 0xFF), 0x5A);
    // bits around the field are kept
    assert_eq!(util::read_int57(&buffer, 0, 4, 0xF), 0xF);
    assert_eq!(util::read_int57(&buffer, 12, 4, 0xF), 0xF);
    // the value is cut to the field width
    util::write_int57(&mut buffer, 0, 4, 0x1F3);
    assert_eq!(util::read_int57(&buffer, 0, 4, 0xF), 0x3);
}

fn header_bytes(order: u8, model_type: u8, version: u32, counts: &[u64]) -> Vec<u8> {
    let mut b = b"mmap lm http://kheafield.com/code".to_vec();
    b.push(order);
    b.extend_from_slice(&1.5f32.to_le_bytes());
    b.push(model_type);
    b.push(1);
    b.extend_from_slice(&version.to_le_bytes());
    for c in counts {
        b.extend_from_slice(&c.to_le_bytes());
    }
    b
}

#[test]
fn binary_header_is_read() {
    let b = header_bytes(3, 2, 5, &[10, 20, 30]);
    let p = initialize_binary(&b, ModelType::Trie, 5).unwrap();
    assert_eq!(p.fixed.order, 3);
    assert_eq!(f32::from_bits(p.fixed.probing_multiplier_bits), 1.5);
    assert_eq!(p.fixed.model_type, ModelType::Trie);
    assert!(p.fixed.has_vocabulary);
    assert_eq!(p.fixed.search_version, 5);
    assert_eq!(p.counts, vec![10, 20, 30]);
    assert_eq!(header_size(3), b.len());
}

#[test]
fn binary_header_errors() {
    let b = header_bytes(2, 0, 5, &[1, 2]);
    assert_eq!(
        initialize_binary(&b, ModelType::Trie, 5).unwrap_err(),
        LMError::FormatError("Model type mismatch: expected Trie, got Probing".to_string())
    );
    assert_eq!(
        initialize_binary(&b, ModelType::Probing, 4).unwrap_err(),
        LMError::VersionMismatch { expected: 4, actual: 5 }
    );
    assert_eq!(initialize_binary(&b[..b.len() - 1], ModelType::Probing, 5).unwrap_err(), LMError::EndOfFile);
    assert_eq!(
        initialize_binary(b"not a model file at all, no magic", ModelType::Probing, 5).unwrap_err(),
        LMError::FormatError("Not a KenLM binary file".to_string())
    );
    assert_eq!(initialize_binary(b"short", ModelType::Probing, 5).unwrap_err(), LMError::EndOfFile);
    let bad = header_bytes(1, 9, 5, &[1]);
    assert_eq!(initialize_binary(&bad, ModelType::Probing, 5).unwrap_err(), LMError::UnsupportedModelType);
}

#[test]
fn binary_files_are_recognized() {
    assert_eq!(recognize_binary(&header_bytes(1, 4, 5, &[7])), Ok(Some(ModelType::ArrayTrie)));
    assert_eq!(recognize_binary(b"\\data\\\nngram 1=3\n"), Ok(None));
    assert_eq!(recognize_binary(b""), Ok(None));
    let b = header_bytes(1, 4, 5, &[7]);
    assert_eq!(recognize_binary(&b[..35]), Err(LMError::EndOfFile));
}
