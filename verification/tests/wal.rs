use kepler::Journal;

#[test]
fn wal_replay() -> kepler::KeplerResult<()> {
    let (mut journal, _, _) = Journal::open(Vec::new(), 0)?;
    journal.insert(1, b"a", Some(b"1"))?;
    journal.insert(2, b"b", Some(b"2"))?;

    let files = journal.into_segments();
    let (_, mem, _) = Journal::open(files, 0)?;
    assert_eq!(mem.get(b"a")?, Some(b"1".to_vec()));
    assert_eq!(mem.get(b"b")?, Some(b"2".to_vec()));
    Ok(())
}

#[test]
fn wal_replay_multiple_files() -> kepler::KeplerResult<()> {
    let mut n: u64 = 0;
    let mut rotate_cnt = 0;

    let (mut journal, _, _) = Journal::open(Vec::new(), 0)?;
    let mut last_count = journal.segment_count();

    while rotate_cnt < 2 {
        journal.insert(n, b"k", Some(&[n as u8]))?;
        n += 1;

        if journal.segment_count() != last_count {
            rotate_cnt += 1;
            last_count = journal.segment_count();
        }
    }

    let files = journal.into_segments();
    let (_, mem, _) = Journal::open(files, 0)?;
    assert_eq!(mem.get(b"k")?, Some(vec![(n - 1) as u8]));

    Ok(())
}
