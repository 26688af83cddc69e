use kepler::Kepler;

#[test]
fn db_insert_and_get() -> kepler::KeplerResult<()> {
    let mut db = Kepler::new()?;

    db.insert(b"hello", b"world!")?;
    db.insert(b"blue", b"sky")?;
    db.insert(b"wtf", b"isthis")?;

    assert_eq!(db.get(b"hello")?, Some(b"world!".to_vec()));
    assert_eq!(db.get(b"wtf")?, Some(b"isthis".to_vec()));

    Ok(())
}

#[test]
fn db_overwrite_previous_val() -> kepler::KeplerResult<()> {
    let mut db = Kepler::new()?;

    db.insert(b"water", b"melon")?;
    db.insert(b"water", b"park")?;

    assert_eq!(db.get(b"water")?, Some(b"park".to_vec()));

    db.insert(b"water", b"jelly")?;

    assert_eq!(db.get(b"water")?, Some(b"jelly".to_vec()));

    Ok(())
}

#[test]
fn db_try_get_with_false_key() -> kepler::KeplerResult<()> {
    let db = Kepler::new()?;

    assert_eq!(db.get(b"black")?, None);

    Ok(())
}

#[test]
fn db_try_get_after_remove() -> kepler::KeplerResult<()> {
    let mut db = Kepler::new()?;

    db.insert(b"fizz", b"buzz")?;
    db.remove(b"fizz")?;

    assert_eq!(db.get(b"fizz")?, None);

    Ok(())
}

#[test]
fn db_try_remove_before_insert() -> kepler::KeplerResult<()> {
    let mut db = Kepler::new()?;

    db.remove(b"ambient")?;

    Ok(())
}

#[test]
fn try_get_after_flush() -> kepler::KeplerResult<()> {
    let mut db = Kepler::new()?;

    let big_val = vec![1u8; 32 * 1024 * 1024];

    db.insert(b"bytes", &big_val)?;
    db.insert(b"space", b"monkey")?;

    assert_eq!(db.get(b"space")?, Some(b"monkey".to_vec()));
    assert_eq!(db.get(b"bytes")?, Some(big_val.clone()));

    Ok(())
}
