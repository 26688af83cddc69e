use kepler::Kepler;

#[test]
fn restart_preserves_inserts() -> kepler::KeplerResult<()> {
    let mut db = Kepler::new()?;

    db.insert(b"hello", b"world!")?;
    db.insert(b"blue", b"sky")?;
    db.insert(b"wtf", b"isthis")?;

    let (wal, manifest, ssts) = db.into_files();
    let db = Kepler::open(wal, manifest, ssts)?;

    assert_eq!(db.get(b"hello")?, Some(b"world!".to_vec()));
    assert_eq!(db.get(b"wtf")?, Some(b"isthis".to_vec()));
    assert_eq!(db.get(b"blue")?, Some(b"sky".to_vec()));

    Ok(())
}

#[test]
fn restart_preserves_remove() -> kepler::KeplerResult<()> {
    let mut db = Kepler::new()?;

    db.insert(b"fizz", b"buzz")?;
    db.remove(b"fizz")?;
    assert_eq!(db.get(b"fizz")?, None);

    let (wal, manifest, ssts) = db.into_files();
    let db = Kepler::open(wal, manifest, ssts)?;

    assert_eq!(db.get(b"fizz")?, None);

    Ok(())
}

#[test]
fn restart_preserves_overwrite() -> kepler::KeplerResult<()> {
    let mut db = Kepler::new()?;

    db.insert(b"water", b"melon")?;
    db.insert(b"water", b"park")?;

    let (wal, manifest, ssts) = db.into_files();
    let db = Kepler::open(wal, manifest, ssts)?;

    assert_eq!(db.get(b"water")?, Some(b"park".to_vec()));

    Ok(())
}

#[test]
fn restart_after_flush_reads_from_table() -> kepler::KeplerResult<()> {
    let mut db = Kepler::new()?;

    let big_val = vec![7u8; 32 * 1024 * 1024];
    db.insert(b"bytes", &big_val)?;
    db.insert(b"space", b"monkey")?;

    let (wal, manifest, ssts) = db.into_files();
    assert!(ssts.len() >= 1);
    assert!(manifest.len() >= 25);

    let db = Kepler::open(wal, manifest, ssts)?;
    assert_eq!(db.get(b"space")?, Some(b"monkey".to_vec()));
    assert_eq!(db.get(b"bytes")?, Some(big_val.clone()));

    Ok(())
}

#[test]
fn flush_records_table_birth() -> kepler::KeplerResult<()> {
    let mut db = Kepler::new()?;

    // a value past the freeze cap forces at least one flush
    let big_val = vec![3u8; 33 * 1024 * 1024];
    db.insert(b"heavy", &big_val)?;

    let (_wal, manifest, ssts) = db.into_files();
    assert!(ssts.len() >= 1);
    // at least one 25-byte addition record of type 0
    assert!(manifest.len() >= 25);
    assert_eq!(manifest[0], 0u8);

    Ok(())
}

#[test]
fn torn_uncommitted_table_is_ignored() -> kepler::KeplerResult<()> {
    let mut db = Kepler::new()?;

    let big_val = vec![9u8; 33 * 1024 * 1024];
    db.insert(b"bulk", &big_val)?;
    db.insert(b"tiny", b"bit")?;

    let (wal, manifest, mut ssts) = db.into_files();
    // a file torn before its footer carries no table number: recovery
    // must ignore it rather than fail
    ssts.push(b"torn".to_vec());

    let db = Kepler::open(wal, manifest, ssts)?;
    assert_eq!(db.get(b"tiny")?, Some(b"bit".to_vec()));
    assert_eq!(db.get(b"bulk")?, Some(big_val));

    Ok(())
}

#[test]
fn corrupt_manifest_is_unrecoverable() {
    // a corrupt manifest record type makes the engine unrecoverable
    let mut manifest = vec![9u8];
    manifest.extend_from_slice(&1u64.to_le_bytes());
    manifest.extend_from_slice(&1u64.to_le_bytes());
    manifest.extend_from_slice(&1u64.to_le_bytes());
    let r = Kepler::open(Vec::new(), manifest, Vec::new());
    assert!(matches!(r, Err(kepler::KeplerErr::Unrecoverable)));
}
