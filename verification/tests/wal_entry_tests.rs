use manifold::wal::entry::{Durability, WALEntry, WALTransactionPayload, WalError, WalField};
use manifold::wal::page::PageNumber;

#[test]
fn test_entry_serialization_round_trip() {
    let payload = WALTransactionPayload {
        user_root: Some((PageNumber::new(0, 1, 0), 0x1234567890abcdef)),
        system_root: None,
        freed_pages: vec![PageNumber::new(0, 2, 0), PageNumber::new(0, 3, 0)],
        allocated_pages: vec![PageNumber::new(0, 4, 0)],
        durability: Durability::Immediate,
    };

    let entry = WALEntry {
        sequence: 42,
        cf_name: "test_cf".to_string(),
        transaction_id: 100,
        payload,
    };

    let bytes = entry.to_bytes();
    let (decoded, len) = WALEntry::from_bytes(&bytes).unwrap();

    assert_eq!(len, bytes.len());
    assert_eq!(decoded.sequence, entry.sequence);
    assert_eq!(decoded.cf_name, entry.cf_name);
    assert_eq!(decoded.transaction_id, entry.transaction_id);
    assert_eq!(decoded.payload, entry.payload);
}

#[test]
fn test_payload_serialization_round_trip() {
    let payload = WALTransactionPayload {
        user_root: Some((PageNumber::new(1, 10, 2), 0xdeadbeef)),
        system_root: Some((PageNumber::new(2, 20, 1), 0xcafebabe)),
        freed_pages: vec![],
        allocated_pages: vec![
            PageNumber::new(0, 5, 0),
            PageNumber::new(0, 6, 0),
            PageNumber::new(0, 7, 0),
        ],
        durability: Durability::NoSync,
    };

    let mut buf = Vec::new();
    payload.serialize_into(&mut buf);

    let (decoded, len) = WALTransactionPayload::deserialize_from(&buf).unwrap();

    assert_eq!(len, buf.len());
    assert_eq!(decoded, payload);
}

#[test]
fn test_empty_payload() {
    let payload = WALTransactionPayload {
        user_root: None,
        system_root: None,
        freed_pages: vec![],
        allocated_pages: vec![],
        durability: Durability::Immediate,
    };

    let mut buf = Vec::new();
    payload.serialize_into(&mut buf);

    let (decoded, _) = WALTransactionPayload::deserialize_from(&buf).unwrap();

    assert_eq!(decoded, payload);
}

// Further cases: truncation and invalid fields.

#[test]
fn test_truncated_entry_names_the_field() {
    let entry = WALEntry::new("cf".to_string(), 7, WALTransactionPayload::new(None, None, vec![], vec![], Durability::Immediate));
    let bytes = entry.to_bytes();
    assert_eq!(
        WALEntry::from_bytes(&bytes[..4]).unwrap_err(),
        WalError::Truncated { field: WalField::Sequence }
    );
    assert_eq!(
        WALEntry::from_bytes(&bytes[..bytes.len() - 1]).unwrap_err(),
        WalError::Truncated { field: WalField::Durability }
    );
}

#[test]
fn test_invalid_durability_byte() {
    let payload = WALTransactionPayload::new(None, None, vec![], vec![], Durability::NoSync);
    let mut buf = Vec::new();
    payload.serialize_into(&mut buf);
    let last = buf.len() - 1;
    assert_eq!(buf[last], 0);
    buf[last] = 9;
    assert_eq!(
        WALTransactionPayload::deserialize_from(&buf).unwrap_err(),
        WalError::InvalidDurability { value: 9 }
    );
}

#[test]
fn test_page_number_packing() {
    let page = PageNumber::new(3, 17, 5);
    let bytes = page.to_le_bytes();
    assert_eq!(bytes.len(), 8);
    let packed = u64::from_le_bytes(bytes.clone().try_into().unwrap());
    assert_eq!(packed, 17 | (3 << 20) | (5 << 59));
    assert_eq!(PageNumber::from_le_bytes(&bytes), page);
}

#[test]
fn test_invalid_utf8_name_reports_where() {
    let entry = WALEntry::new("abc".to_string(), 7, WALTransactionPayload::new(None, None, vec![], vec![], Durability::Immediate));
    let mut bytes = entry.to_bytes();
    // The name starts after the sequence number and the name length.
    bytes[13] = 0xFF;
    assert_eq!(
        WALEntry::from_bytes(&bytes).unwrap_err(),
        WalError::InvalidUtf8 { valid_up_to: 1, error_len: Some(1) }
    );
    bytes[13] = b'b';
    bytes[14] = 0xE2;
    assert_eq!(
        WALEntry::from_bytes(&bytes).unwrap_err(),
        WalError::InvalidUtf8 { valid_up_to: 2, error_len: None }
    );
}
