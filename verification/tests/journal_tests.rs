use cfs::device::{CFSBlockDevice, MemBlockDevice};
use cfs::error::VolumeError;
use cfs::journal::{
    EntryType, Journal, JournalEntry, JournalSuperblock, JFLAG_CLEAN, JFLAG_NEEDS_RECOVERY, JOURNAL_MAGIC,
    JOURNAL_VERSION,
};

const BS: u32 = 4096;

fn make_dev(blocks: u64) -> MemBlockDevice {
    MemBlockDevice::new((blocks * BS as u64) as usize)
}

fn read_block(dev: &mut MemBlockDevice, block: u64) -> Vec<u8> {
    dev.read(block * BS as u64, BS as usize).unwrap()
}

#[test]
fn test_journal_superblock_roundtrip() {
    let jsb = JournalSuperblock::new(100);
    let buf = jsb.serialize(BS);
    let jsb2 = JournalSuperblock::deserialize(&buf).unwrap();
    assert_eq!(jsb2.magic, JOURNAL_MAGIC);
    assert_eq!(jsb2.version, JOURNAL_VERSION);
    assert_eq!(jsb2.sequence, 1);
    assert_eq!(jsb2.head, 0);
    assert_eq!(jsb2.tail, 0);
    assert_eq!(jsb2.capacity, 100);
    assert!(jsb2.flags & JFLAG_CLEAN != 0);
}

#[test]
fn test_journal_superblock_bad_magic() {
    let mut buf = JournalSuperblock::new(100).serialize(BS);
    buf[0] = 0xFF;
    assert!(JournalSuperblock::deserialize(&buf).is_err());
}

#[test]
fn test_journal_superblock_bad_checksum() {
    let mut buf = JournalSuperblock::new(100).serialize(BS);
    buf[10] ^= 0xFF;
    assert!(JournalSuperblock::deserialize(&buf).is_err());
}

#[test]
fn test_journal_superblock_error_kinds() {
    let good = JournalSuperblock::new(100).serialize(BS);
    assert_eq!(JournalSuperblock::deserialize(&good[..47]).unwrap_err(), VolumeError::TooShort);
    let mut bad_magic = good.clone();
    bad_magic[0] = 0xFF;
    assert_eq!(JournalSuperblock::deserialize(&bad_magic).unwrap_err(), VolumeError::BadMagic);
    let mut bad_version = good.clone();
    bad_version[4] = 9;
    assert_eq!(JournalSuperblock::deserialize(&bad_version).unwrap_err(), VolumeError::Unsupported);
    let mut bad_crc = good.clone();
    bad_crc[10] ^= 0xFF;
    assert_eq!(JournalSuperblock::deserialize(&bad_crc).unwrap_err(), VolumeError::ChecksumMismatch);
    // The stored checksum is the CRC-32 of the first 44 bytes.
    assert_eq!(u32::from_le_bytes([good[44], good[45], good[46], good[47]]), crc32fast::hash(&good[..44]));
}

#[test]
fn test_journal_superblock_empty() {
    let jsb = JournalSuperblock::new(100);
    assert!(jsb.is_empty());
}

#[test]
fn test_journal_superblock_needs_recovery() {
    let mut jsb = JournalSuperblock::new(100);
    assert!(!jsb.needs_recovery());
    jsb.flags |= JFLAG_NEEDS_RECOVERY;
    assert!(jsb.needs_recovery());
}

#[test]
fn test_entry_begin_roundtrip() {
    let entry = JournalEntry::new_begin(42);
    let buf = entry.serialize_header(BS);
    let entry2 = JournalEntry::deserialize_header(&buf, BS).unwrap();
    assert_eq!(entry2.txn_id, 42);
    assert_eq!(entry2.entry_type, EntryType::TxnBegin);
}

#[test]
fn test_entry_block_data_roundtrip() {
    let data = vec![0xAB; BS as usize];
    let entry = JournalEntry::new_block_data(7, 500, data.clone());
    let header_buf = entry.serialize_header(BS);
    let data_buf = entry.serialize_data_block(BS);
    let mut entry2 = JournalEntry::deserialize_header(&header_buf, BS).unwrap();
    entry2.read_data_block(&header_buf, &data_buf).unwrap();
    assert_eq!(entry2.txn_id, 7);
    assert_eq!(entry2.entry_type, EntryType::BlockData);
    assert_eq!(entry2.target_block, 500);
    assert_eq!(entry2.data, data);
}

#[test]
fn test_entry_commit_roundtrip() {
    let entry = JournalEntry::new_commit(99);
    let buf = entry.serialize_header(BS);
    let entry2 = JournalEntry::deserialize_header(&buf, BS).unwrap();
    assert_eq!(entry2.txn_id, 99);
    assert_eq!(entry2.entry_type, EntryType::TxnCommit);
}

#[test]
fn test_entry_abort_roundtrip() {
    let entry = JournalEntry::new_abort(55);
    let buf = entry.serialize_header(BS);
    let entry2 = JournalEntry::deserialize_header(&buf, BS).unwrap();
    assert_eq!(entry2.txn_id, 55);
    assert_eq!(entry2.entry_type, EntryType::TxnAbort);
}

#[test]
fn test_entry_bad_checksum() {
    let entry = JournalEntry::new_begin(1);
    let mut buf = entry.serialize_header(BS);
    buf[10] ^= 0xFF;
    let data = vec![0xAB; BS as usize];
    let entry2 = JournalEntry::new_block_data(1, 10, data);
    let header_buf = entry2.serialize_header(BS);
    let data_buf = entry2.serialize_data_block(BS);
    let mut entry3 = JournalEntry::deserialize_header(&header_buf, BS).unwrap();
    let mut bad_data = data_buf.clone();
    bad_data[0] ^= 0xFF;
    assert!(entry3.read_data_block(&header_buf, &bad_data).is_err());
}

#[test]
fn test_entry_type_from_u8() {
    assert_eq!(EntryType::from_u8(0).unwrap(), EntryType::TxnBegin);
    assert_eq!(EntryType::from_u8(1).unwrap(), EntryType::BlockData);
    assert_eq!(EntryType::from_u8(2).unwrap(), EntryType::TxnCommit);
    assert_eq!(EntryType::from_u8(3).unwrap(), EntryType::TxnAbort);
    assert!(EntryType::from_u8(4).is_err());
}

#[test]
fn test_entry_header_unknown_type_and_short() {
    let mut buf = JournalEntry::new_begin(3).serialize_header(BS);
    assert_eq!(JournalEntry::deserialize_header(&buf[..100], BS).unwrap_err(), VolumeError::TooShort);
    buf[8] = 7;
    assert_eq!(JournalEntry::deserialize_header(&buf, BS).unwrap_err(), VolumeError::Invalid);
}

#[test]
fn test_circular_advance() {
    let _dev = make_dev(100);
    let j = Journal {
        jsb: JournalSuperblock { capacity: 10, ..JournalSuperblock::new(10) },
        journal_start: 0,
        block_size: BS,
        active_txn: None,
        active_undo: Vec::new(),
    };
    assert_eq!(j.advance(0), 1);
    assert_eq!(j.advance(9), 0);
}

#[test]
fn test_circular_used_entries() {
    let mut jsb = JournalSuperblock::new(10);
    jsb.head = 5;
    jsb.tail = 2;
    let j = Journal { jsb: jsb.clone(), journal_start: 0, block_size: BS, active_txn: None, active_undo: Vec::new() };
    assert_eq!(j.used_entries(), 3);

    jsb.head = 2;
    jsb.tail = 5;
    let j2 = Journal { jsb, journal_start: 0, block_size: BS, active_txn: None, active_undo: Vec::new() };
    assert_eq!(j2.used_entries(), 7);
}

#[test]
fn test_circular_free_entries() {
    let mut jsb = JournalSuperblock::new(100);
    jsb.head = 30;
    jsb.tail = 0;
    let j = Journal { jsb, journal_start: 0, block_size: BS, active_txn: None, active_undo: Vec::new() };
    assert_eq!(j.free_entries(), 69);
}

#[test]
fn test_begin_txn_returns_id() {
    let mut dev = make_dev(200);
    Journal::init(&mut dev, 0, 100, BS).unwrap();
    let mut j = Journal::load(&mut dev, 0, 100, BS).unwrap();
    let txn_id = j.begin_txn(&mut dev).unwrap();
    assert_eq!(txn_id, 1);
    j.commit_txn(&mut dev, txn_id).unwrap();
    let txn_id2 = j.begin_txn(&mut dev).unwrap();
    assert_eq!(txn_id2, 2);
    j.commit_txn(&mut dev, txn_id2).unwrap();
}

#[test]
fn test_begin_txn_sets_needs_recovery() {
    let mut dev = make_dev(200);
    Journal::init(&mut dev, 0, 100, BS).unwrap();
    let mut j = Journal::load(&mut dev, 0, 100, BS).unwrap();
    let txn_id = j.begin_txn(&mut dev).unwrap();
    assert!(j.jsb.needs_recovery());
    j.commit_txn(&mut dev, txn_id).unwrap();
}

#[test]
fn test_begin_txn_double_begin_error() {
    let mut dev = make_dev(200);
    Journal::init(&mut dev, 0, 100, BS).unwrap();
    let mut j = Journal::load(&mut dev, 0, 100, BS).unwrap();
    j.begin_txn(&mut dev).unwrap();
    assert!(j.begin_txn(&mut dev).is_err());
}

#[test]
fn test_journal_block_saves_old_data() {
    let mut dev = make_dev(200);
    Journal::init(&mut dev, 0, 100, BS).unwrap();

    let target_block = 150u64;
    let original = vec![0xABu8; BS as usize];
    dev.write(target_block * BS as u64, &original).unwrap();

    let mut j = Journal::load(&mut dev, 0, 100, BS).unwrap();
    let txn = j.begin_txn(&mut dev).unwrap();
    j.journal_block(&mut dev, txn, target_block).unwrap();

    assert_eq!(j.active_undo.len(), 1);
    assert_eq!(j.active_undo[0].0, target_block);
    assert_eq!(j.active_undo[0].1, original);

    j.commit_txn(&mut dev, txn).unwrap();
}

#[test]
fn test_abort_txn_restores_old_data() {
    let mut dev = make_dev(200);
    Journal::init(&mut dev, 0, 100, BS).unwrap();

    let target_block = 150u64;
    let original = vec![0xABu8; BS as usize];
    dev.write(target_block * BS as u64, &original).unwrap();

    let mut j = Journal::load(&mut dev, 0, 100, BS).unwrap();
    let txn = j.begin_txn(&mut dev).unwrap();
    j.journal_block(&mut dev, txn, target_block).unwrap();

    let new_data = vec![0xCD; BS as usize];
    dev.write(target_block * BS as u64, &new_data).unwrap();

    j.abort_txn(&mut dev, txn).unwrap();

    let check = read_block(&mut dev, target_block);
    assert_eq!(check, original);
}

#[test]
fn test_full_lifecycle() {
    let mut dev = make_dev(200);
    Journal::init(&mut dev, 0, 100, BS).unwrap();
    let mut j = Journal::load(&mut dev, 0, 100, BS).unwrap();

    let txn = j.begin_txn(&mut dev).unwrap();
    j.journal_block(&mut dev, txn, 150).unwrap();
    j.journal_block(&mut dev, txn, 151).unwrap();
    j.journal_block(&mut dev, txn, 152).unwrap();
    j.commit_txn(&mut dev, txn).unwrap();

    assert_eq!(j.used_entries(), 8);
}

#[test]
fn test_checkpoint_frees_committed() {
    let mut dev = make_dev(200);
    Journal::init(&mut dev, 0, 100, BS).unwrap();
    let mut j = Journal::load(&mut dev, 0, 100, BS).unwrap();

    for _ in 0..2 {
        let txn = j.begin_txn(&mut dev).unwrap();
        j.journal_block(&mut dev, txn, 150).unwrap();
        j.commit_txn(&mut dev, txn).unwrap();
    }

    let used_before = j.used_entries();
    assert!(used_before > 0);

    let freed = j.checkpoint(&mut dev).unwrap();
    assert_eq!(freed, used_before);
    assert_eq!(j.used_entries(), 0);
}

#[test]
fn test_replay_clean_journal_no_op() {
    let mut dev = make_dev(200);
    Journal::init(&mut dev, 0, 100, BS).unwrap();
    let j = Journal::load(&mut dev, 0, 100, BS).unwrap();
    assert!(!j.jsb.needs_recovery());
    assert!(j.jsb.flags & JFLAG_CLEAN != 0);
}

#[test]
fn test_replay_incomplete_txn_undone() {
    let mut dev = make_dev(200);
    Journal::init(&mut dev, 0, 100, BS).unwrap();

    let original_150 = vec![0xAAu8; BS as usize];
    let original_151 = vec![0xBBu8; BS as usize];
    dev.write(150 * BS as u64, &original_150).unwrap();
    dev.write(151 * BS as u64, &original_151).unwrap();

    let mut j = Journal::load(&mut dev, 0, 100, BS).unwrap();
    let txn = j.begin_txn(&mut dev).unwrap();
    j.journal_block(&mut dev, txn, 150).unwrap();
    j.journal_block(&mut dev, txn, 151).unwrap();

    dev.write(150 * BS as u64, &vec![0xFF; BS as usize]).unwrap();
    dev.write(151 * BS as u64, &vec![0xEE; BS as usize]).unwrap();

    j.save_jsb(&mut dev).unwrap();
    dev.flush().unwrap();

    let j2 = Journal::load(&mut dev, 0, 100, BS).unwrap();
    assert!(!j2.jsb.needs_recovery());
    assert!(j2.jsb.flags & JFLAG_CLEAN != 0);

    let check = read_block(&mut dev, 150);
    assert_eq!(check, original_150);
    let check = read_block(&mut dev, 151);
    assert_eq!(check, original_151);
}

#[test]
fn test_replay_committed_txn_no_undo() {
    let mut dev = make_dev(200);
    Journal::init(&mut dev, 0, 100, BS).unwrap();

    let original = vec![0xAAu8; BS as usize];
    dev.write(150 * BS as u64, &original).unwrap();

    let mut j = Journal::load(&mut dev, 0, 100, BS).unwrap();
    let txn = j.begin_txn(&mut dev).unwrap();
    j.journal_block(&mut dev, txn, 150).unwrap();

    let new_data = vec![0xFF; BS as usize];
    dev.write(150 * BS as u64, &new_data).unwrap();
    j.commit_txn(&mut dev, txn).unwrap();

    j.jsb.flags |= JFLAG_NEEDS_RECOVERY;
    j.jsb.flags &= !JFLAG_CLEAN;
    j.save_jsb(&mut dev).unwrap();

    let _j2 = Journal::load(&mut dev, 0, 100, BS).unwrap();

    let check = read_block(&mut dev, 150);
    assert_eq!(check, new_data);
}

#[test]
fn test_replay_corrupt_undo_data_still_rolls_back_good_records() {
    let mut dev = make_dev(200);
    Journal::init(&mut dev, 0, 100, BS).unwrap();
    dev.write(150 * BS as u64, &vec![0x11u8; BS as usize]).unwrap();
    dev.write(151 * BS as u64, &vec![0x22u8; BS as usize]).unwrap();
    let mut j = Journal::load(&mut dev, 0, 100, BS).unwrap();
    let txn = j.begin_txn(&mut dev).unwrap();
    j.journal_block(&mut dev, txn, 150).unwrap();
    j.journal_block(&mut dev, txn, 151).unwrap();
    dev.write(150 * BS as u64, &vec![0x99u8; BS as usize]).unwrap();
    dev.write(151 * BS as u64, &vec![0x98u8; BS as usize]).unwrap();
    // Corrupt the data block of the second undo record (log slot 4 = block 5).
    let mut data = read_block(&mut dev, 5);
    data[0] ^= 0xFF;
    dev.write(5 * BS as u64, &data).unwrap();
    j.save_jsb(&mut dev).unwrap();

    Journal::load(&mut dev, 0, 100, BS).unwrap();
    assert_eq!(read_block(&mut dev, 150), vec![0x11u8; BS as usize]);
    assert_eq!(read_block(&mut dev, 151), vec![0x98u8; BS as usize]);
}

#[test]
fn test_load_rejects_unusable_recovery_state() {
    let mut dev = make_dev(20);
    Journal::init(&mut dev, 0, 10, BS).unwrap();
    let mut jsb = JournalSuperblock::new(9);
    jsb.flags = JFLAG_NEEDS_RECOVERY;
    jsb.head = 50;
    dev.write(0, &jsb.serialize(BS)).unwrap();
    assert_eq!(Journal::load(&mut dev, 0, 10, BS).unwrap_err(), VolumeError::Invalid);
    let mut bad = read_block(&mut dev, 0);
    bad[1] = 0;
    dev.write(0, &bad).unwrap();
    assert_eq!(Journal::load(&mut dev, 0, 10, BS).unwrap_err(), VolumeError::BadMagic);
}

#[test]
fn test_journal_init_and_load() {
    let mut dev = make_dev(200);
    Journal::init(&mut dev, 10, 50, BS).unwrap();
    let j = Journal::load(&mut dev, 10, 50, BS).unwrap();
    assert_eq!(j.jsb.capacity, 49);
    assert_eq!(j.jsb.sequence, 1);
    assert!(j.jsb.is_empty());
}

#[test]
fn test_journal_init_too_small() {
    let mut dev = make_dev(20);
    assert_eq!(Journal::init(&mut dev, 0, 1, BS).unwrap_err(), VolumeError::Invalid);
}

#[test]
fn test_journal_status_and_clean() {
    let mut dev = make_dev(200);
    Journal::init(&mut dev, 0, 100, BS).unwrap();
    let mut j = Journal::load(&mut dev, 0, 100, BS).unwrap();
    let txn = j.begin_txn(&mut dev).unwrap();
    assert!(j.has_active_txn());
    assert_eq!(j.active_txn_id(), Some(txn));
    j.commit_txn(&mut dev, txn).unwrap();
    let st = j.status();
    assert_eq!(st.capacity, 99);
    assert_eq!(st.used, 2);
    assert!(st.needs_recovery);
    j.mark_clean(&mut dev).unwrap();
    let st = j.status();
    assert!(st.clean);
    assert!(!st.needs_recovery);
}

#[test]
fn abort_of_unknown_transaction_touches_nothing() {
    let mut dev = make_dev(200);
    Journal::init(&mut dev, 0, 100, BS).unwrap();
    let mut j = Journal::load(&mut dev, 0, 100, BS).unwrap();
    let txn = j.begin_txn(&mut dev).unwrap();
    let before = dev.read(0, 200 * BS as usize).unwrap();
    assert_eq!(j.abort_txn(&mut dev, txn + 1), Err(VolumeError::NotFound));
    assert_eq!(dev.read(0, 200 * BS as usize).unwrap(), before);
    j.abort_txn(&mut dev, txn).unwrap();
}

#[test]
fn checkpoint_after_complete_transactions_empties_the_log() {
    let mut dev = make_dev(200);
    Journal::init(&mut dev, 0, 100, BS).unwrap();
    let mut j = Journal::load(&mut dev, 0, 100, BS).unwrap();
    let t1 = j.begin_txn(&mut dev).unwrap();
    j.journal_block(&mut dev, t1, 150).unwrap();
    j.commit_txn(&mut dev, t1).unwrap();
    let t2 = j.begin_txn(&mut dev).unwrap();
    j.abort_txn(&mut dev, t2).unwrap();
    let used = j.used_entries();
    assert_eq!(used, 6);
    assert_eq!(j.checkpoint(&mut dev).unwrap(), used);
    assert_eq!(j.used_entries(), 0);
}
