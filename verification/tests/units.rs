use kepler::{from_le_to_u32, from_le_to_u64, FlushResult, KeplerErr, MemTable, SSTInfo, Version};

#[test]
fn le_u64_decodes_exact_window() {
    let data: Vec<u8> = vec![1, 0, 0, 0, 0, 0, 0, 0, 2];
    assert_eq!(from_le_to_u64(&data, 0, 8), Ok(1u64));
    assert_eq!(from_le_to_u64(&data, 1, 9), Ok(2u64 << 56));
}

#[test]
fn le_u64_rejects_bad_window() {
    let data: Vec<u8> = vec![1, 2, 3];
    assert_eq!(from_le_to_u64(&data, 0, 8), Err(KeplerErr::CorruptedSst(0)));
    let data: Vec<u8> = vec![0; 16];
    assert_eq!(from_le_to_u64(&data, 0, 9), Err(KeplerErr::CorruptedSst(0)));
}

#[test]
fn le_u32_decodes_and_rejects() {
    let data: Vec<u8> = vec![0xff, 0xff, 0xff, 0xff, 0];
    assert_eq!(from_le_to_u32(&data, 0, 4), Ok(u32::MAX));
    assert_eq!(from_le_to_u32(&data, 2, 8), Err(KeplerErr::CorruptedSst(2)));
}

#[test]
fn memtable_put_and_get() -> kepler::KeplerResult<()> {
    let mut mem = MemTable::new();
    mem.put(1, b"a", Some(b"1"))?;
    mem.put(2, b"b", Some(b"2"))?;
    mem.put(3, b"a", None)?;
    assert_eq!(mem.get(b"a")?, None);
    assert_eq!(mem.get(b"b")?, Some(b"2".to_vec()));
    assert_eq!(mem.get(b"c")?, None);
    Ok(())
}

#[test]
fn memtable_counter_moves_by_entry_size() -> kepler::KeplerResult<()> {
    let mut mem = MemTable::new();
    mem.put(1, b"key", Some(b"value"))?;
    assert_eq!(mem.bytes_written(), 8 + 3 + 5);
    mem.put(2, b"key", Some(b"va"))?;
    assert_eq!(mem.bytes_written(), 8 + 3 + 2);
    mem.put(3, b"key", None)?;
    assert_eq!(mem.bytes_written(), 8 + 3);
    Ok(())
}

#[test]
fn version_and_info_carry_fields() {
    let infos = vec![SSTInfo::new(1), SSTInfo::new(4)];
    let v = Version::new(infos, 10, 5);
    assert_eq!(v.sst_list.len(), 2);
    assert_eq!(v.sst_list[1].id, 4);
    assert_eq!(v.next_seqno, 10);
    assert_eq!(v.next_sstno, 5);
}

#[test]
fn flush_result_carries_fields() {
    let fr = FlushResult::new(0, 3, 9, 2);
    assert_eq!(fr.t, 0);
    assert_eq!(fr.sstno, 3);
    assert_eq!(fr.max_seqno, 9);
    assert_eq!(fr.min_seqno, 2);
}
