use schemajs::codec::{decode_document, encode_document};
use schemajs::shard::{MapShard, Shard, StorageError};
use schemajs::temp_shard::{TempMapShard, TempOffsetTypes};
use schemajs::types::{DataValue, Document};

#[test]
fn document_round_trip() {
    let d = Document::new()
        .with("_uid", DataValue::String("97ad4bba-98c5-4a9e-80d8-6bf6302fb883".to_string()))
        .with("id", DataValue::String("1".to_string()))
        .with("enabled", DataValue::Boolean(false))
        .with("n", DataValue::Number("-12.5".to_string()))
        .with("nothing", DataValue::Null)
        .with("ñandú", DataValue::String("héllo ✓".to_string()));
    let bytes = encode_document(&d);
    let back = decode_document(&bytes).unwrap();
    assert_eq!(format!("{:?}", back), format!("{:?}", d));
}

#[test]
fn empty_document_round_trip() {
    let bytes = encode_document(&Document::new());
    assert!(bytes.is_empty());
    assert_eq!(decode_document(&bytes).unwrap().fields.len(), 0);
}

#[test]
fn encoding_is_exact() {
    let d = Document::new().with("a", DataValue::Boolean(true));
    assert_eq!(encode_document(&d), vec![1, 0, 0, 0, 0, 0, 0, 0, b'a', 1, 1]);
    let d = Document::new().with("k", DataValue::String("xy".to_string()));
    assert_eq!(
        encode_document(&d),
        vec![1, 0, 0, 0, 0, 0, 0, 0, b'k', 3, 2, 0, 0, 0, 0, 0, 0, 0, b'x', b'y']
    );
}

#[test]
fn malformed_bytes_do_not_decode() {
    assert!(decode_document(&vec![1, 0, 0]).is_none());
    assert!(decode_document(&vec![1, 0, 0, 0, 0, 0, 0, 0, b'a', 9]).is_none());
    assert!(decode_document(&vec![1, 0, 0, 0, 0, 0, 0, 0, b'a', 1, 2]).is_none());
    assert!(decode_document(&vec![1, 0, 0, 0, 0, 0, 0, 0, 0xff, 0]).is_none());
}

#[test]
fn shard_append_get_and_out_of_range() {
    let mut s = Shard::new();
    assert_eq!(s.append(&vec![1, 2, 3]), 0);
    assert_eq!(s.append(&vec![]), 1);
    assert_eq!(s.append(&vec![9]), 2);
    assert_eq!(s.len(), 3);
    assert_eq!(s.get(0).unwrap(), vec![1, 2, 3]);
    assert_eq!(s.get(1).unwrap(), Vec::<u8>::new());
    assert_eq!(s.get(2).unwrap(), vec![9]);
    assert_eq!(s.get(3), Err(StorageError::OutOfRange));
}

#[test]
fn shard_file_image() {
    let mut s = Shard::new();
    s.append(&vec![7, 8]);
    s.append(&vec![5]);
    let mut expected = vec![7, 8, 5];
    expected.extend_from_slice(&0u64.to_le_bytes());
    expected.extend_from_slice(&2u64.to_le_bytes());
    expected.extend_from_slice(&2u64.to_le_bytes());
    assert_eq!(s.to_bytes(), expected);
    assert_eq!(Shard::new().to_bytes(), 0u64.to_le_bytes().to_vec());
}

#[test]
fn map_shard_ordinals_span_shards() {
    let mut m = MapShard::new("data_", 2);
    for i in 0..5u8 {
        assert_eq!(m.append(&vec![i]), i as u64);
    }
    assert_eq!(m.len(), 5);
    assert_eq!(m.shard_count(), 3);
    for i in 0..5u8 {
        assert_eq!(m.get_element(i as u64).unwrap(), vec![i]);
    }
    assert_eq!(m.get_element(5), Err(StorageError::OutOfRange));
    assert_eq!(m.prefix(), "data_");
}

#[test]
fn temp_shard_capacity_and_reconcile() {
    let mut target = MapShard::new("data_", 1000);
    target.append(&vec![0]);
    let mut temp = TempMapShard::new(TempOffsetTypes::Custom(Some(2)), "datatemp-");
    for i in 1..6u8 {
        temp.insert_row(&vec![i]);
    }
    assert_eq!(temp.len(), 5);
    assert_eq!(temp.staging().shard_count(), 3);
    assert_eq!(temp.reconcile_all(&mut target), 1);
    assert_eq!(temp.len(), 0);
    assert_eq!(target.len(), 6);
    for i in 0..6u8 {
        assert_eq!(target.get_element(i as u64).unwrap(), vec![i]);
    }
}

#[test]
fn temp_shard_default_capacity() {
    let mut temp = TempMapShard::new(TempOffsetTypes::Custom(None), "datatemp-");
    for i in 0..1001u32 {
        temp.insert_row(&i.to_le_bytes().to_vec());
    }
    assert_eq!(temp.staging().max_records(), 1000);
    assert_eq!(temp.staging().shard_count(), 2);
}

#[test]
fn shard_reads_back_from_its_image() {
    let mut s = Shard::new();
    s.append(&vec![1, 2, 3]);
    s.append(&vec![]);
    s.append(&vec![4]);
    let image = s.to_bytes();
    let back = Shard::from_bytes(&image).unwrap();
    assert_eq!(back.len(), 3);
    assert_eq!(back.get(0).unwrap(), vec![1, 2, 3]);
    assert_eq!(back.get(1).unwrap(), Vec::<u8>::new());
    assert_eq!(back.get(2).unwrap(), vec![4]);
    assert_eq!(back.to_bytes(), image);
    let empty = Shard::from_bytes(&Shard::new().to_bytes()).unwrap();
    assert_eq!(empty.len(), 0);
}

#[test]
fn shard_rejects_bytes_that_are_no_image() {
    assert!(Shard::from_bytes(&vec![]).is_none());
    assert!(Shard::from_bytes(&vec![0, 0, 0]).is_none());
    // a count larger than the file can hold
    assert!(Shard::from_bytes(&5u64.to_le_bytes().to_vec()).is_none());
    // no records but data bytes
    let mut b = vec![9];
    b.extend_from_slice(&0u64.to_le_bytes());
    assert!(Shard::from_bytes(&b).is_none());
    // first offset not zero
    let mut b = vec![9, 9];
    b.extend_from_slice(&1u64.to_le_bytes());
    b.extend_from_slice(&1u64.to_le_bytes());
    assert!(Shard::from_bytes(&b).is_none());
    // descending offsets
    let mut b = vec![9, 9];
    b.extend_from_slice(&0u64.to_le_bytes());
    b.extend_from_slice(&2u64.to_le_bytes());
    b.extend_from_slice(&1u64.to_le_bytes());
    b.extend_from_slice(&3u64.to_le_bytes());
    assert!(Shard::from_bytes(&b).is_none());
    // offset past the data
    let mut b = vec![9];
    b.extend_from_slice(&0u64.to_le_bytes());
    b.extend_from_slice(&2u64.to_le_bytes());
    b.extend_from_slice(&2u64.to_le_bytes());
    assert!(Shard::from_bytes(&b).is_none());
}

#[test]
fn map_shard_loads_from_its_shards() {
    let mut a = Shard::new();
    a.append(&vec![1]);
    a.append(&vec![2]);
    let mut b = Shard::new();
    b.append(&vec![3]);
    let m = MapShard::load("data_", 2, &vec![a, b]);
    assert_eq!(m.len(), 3);
    assert_eq!(m.get_element(0).unwrap(), vec![1]);
    assert_eq!(m.get_element(2).unwrap(), vec![3]);
    assert_eq!(m.shard_count(), 2);
    assert_eq!(MapShard::load("data_", 5, &vec![]).len(), 0);
}
