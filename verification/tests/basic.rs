use kepler::{Kepler, KeplerResult};

#[test]
fn basic_insert_and_get() -> KeplerResult<()> {
    let mut db = Kepler::new()?;

    db.insert(b"hello", b"world!")?;
    db.insert(b"blue", b"sky")?;
    db.insert(b"wtf", b"isthis")?;
    let found_val_a = db.get(b"hello")?;
    let found_val_b = db.get(b"wtf")?;

    assert_eq!(found_val_a, Some(b"world!".to_vec()));
    assert_eq!(found_val_b, Some(b"isthis".to_vec()));

    Ok(())
}

#[test]
fn basic_overwrite_previous_val() -> KeplerResult<()> {
    let mut db = Kepler::new()?;

    db.insert(b"water", b"melon")?;
    db.insert(b"water", b"park")?;
    let found_val = db.get(b"water")?;

    assert_eq!(found_val, Some(b"park".to_vec()));

    db.insert(b"water", b"jelly")?;
    let found_val = db.get(b"water")?;

    assert_eq!(found_val, Some(b"jelly".to_vec()));

    Ok(())
}

#[test]
fn basic_try_get_with_false_key() -> KeplerResult<()> {
    let db = Kepler::new()?;

    let found_val = db.get(b"black")?;

    assert_eq!(found_val, None);

    Ok(())
}

#[test]
fn basic_try_get_after_remove() -> KeplerResult<()> {
    let mut db = Kepler::new()?;

    db.insert(b"fizz", b"buzz")?;
    db.remove(b"fizz")?;
    let found_val = db.get(b"fizz")?;

    assert_eq!(found_val, None);

    Ok(())
}

#[test]
fn basic_try_remove_before_insert() -> KeplerResult<()> {
    let mut db = Kepler::new()?;

    db.remove(b"ambient")?;

    Ok(())
}
