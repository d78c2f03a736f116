use fileheads::EntryKind;
use fileheads::Error;
use fileheads::HeadStore;
use fileheads::open_outcome;

#[test]
fn basic() {
    let mut heads = HeadStore::new();
    let empty: Vec<Vec<u8>> = Vec::new();
    assert_eq!(heads.heads().unwrap(), empty);

    let foo = b"foo".to_vec();
    let bar = b"bar".to_vec();
    let baz = b"baz".to_vec();

    assert!(!heads.is_head(&foo));
    assert!(!heads.is_head(&bar));
    assert!(!heads.is_head(&baz));

    heads.add(&foo);
    heads.add(&bar);

    assert!(heads.is_head(&foo));
    assert!(heads.is_head(&bar));
    assert!(!heads.is_head(&baz));

    let mut result = heads.heads().unwrap();
    result.sort();

    assert_eq!(result, vec![bar.clone(), foo.clone()]);

    heads.remove(&foo);
    heads.remove(&bar);
    heads.remove(&baz); // Removing non-existent head should not panic.

    assert_eq!(heads.heads().unwrap(), empty);
}

#[test]
fn persistence() {
    let foo = b"foo".to_vec();
    let bar = b"bar".to_vec();

    let listing = {
        let mut heads = HeadStore::new();
        heads.add(&foo);
        heads.add(&bar);
        heads.listing().clone()
    };

    let heads = HeadStore::from_listing(listing);
    let mut result = heads.heads().unwrap();
    result.sort();
    assert_eq!(result, vec![bar.clone(), foo.clone()]);
}

#[test]
fn invalid_dir() {
    // Opening a path that does not exist is opening no directory.
    let heads = open_outcome(false);
    assert!(heads.is_err());
}

#[test]
fn savenodehash() {
    let h: Vec<u8> = (0..40).map(|_| b'a').collect();
    let mut heads = HeadStore::new();
    heads.add(&h);
    let mut result = heads.heads().unwrap();
    result.sort();
    assert_eq!(result, vec![h]);
}

#[test]
fn removal_leaves_the_rest() {
    let foo = b"foo".to_vec();
    let bar = b"bar".to_vec();
    let baz = b"baz".to_vec();

    let mut heads = HeadStore::new();
    heads.add(&foo);
    heads.add(&bar);

    heads.remove(&foo);
    let mut result = heads.heads().unwrap();
    result.sort();
    assert_eq!(result, vec![bar.clone()]);

    // Removing a key that was never added succeeds and changes nothing.
    heads.remove(&baz);
    let mut unchanged = heads.heads().unwrap();
    unchanged.sort();
    assert_eq!(unchanged, vec![bar.clone()]);
}

#[test]
fn create_after_failed_open_yields_empty_store() {
    // `open` on an absent path fails with the NotADirectory condition ...
    assert!(matches!(open_outcome(false), Err(Error::NotADirectory)));
    // ... and `create` makes the directory and yields an empty store.
    let heads = HeadStore::new();
    assert_eq!(heads.heads().unwrap(), Vec::<Vec<u8>>::new());
}

#[test]
fn add_is_idempotent() {
    let foo = b"foo".to_vec();
    let mut heads = HeadStore::new();
    heads.add(&foo);
    heads.add(&foo);
    assert!(heads.is_head(&foo));
    let result = heads.heads().unwrap();
    assert_eq!(result, vec![foo.clone()]);
    assert_eq!(result.iter().filter(|k| **k == foo).count(), 1);
}

#[test]
fn remove_never_added_succeeds() {
    let mut heads = HeadStore::new();
    let ghostly = b"never added".to_vec();
    heads.remove(&ghostly);
    assert_eq!(heads.heads().unwrap(), Vec::<Vec<u8>>::new());
    assert!(!heads.is_head(&ghostly));
}

#[test]
fn open_existing_dir_succeeds() {
    assert!(open_outcome(true).is_ok());
    assert!(matches!(open_outcome(false), Err(Error::NotADirectory)));
}

#[test]
fn marker_names_carry_the_prefix() {
    let name = fileheads::marker_name(&b"foo".to_vec());
    assert_eq!(name, b"head:key=foo".to_vec());
}

#[test]
fn unrelated_entries_are_skipped() {
    let listing = vec![b"stray lock file".to_vec(), b"head:key=foo".to_vec()];
    let keys = fileheads::heads_from_listing(&listing).unwrap();
    assert_eq!(keys, vec![b"foo".to_vec()]);
}

#[test]
fn undecodable_entry_stops_enumeration() {
    let listing = vec![b"head:key=foo".to_vec(), b"head:key=%zz".to_vec()];
    assert!(matches!(fileheads::heads_from_listing(&listing), Err(Error::Decoding)));

    // The store stays usable: a listing without the bad entry enumerates.
    let good = vec![b"head:key=foo".to_vec()];
    assert_eq!(fileheads::heads_from_listing(&good).unwrap(), vec![b"foo".to_vec()]);
}

#[test]
fn classify_reads_one_entry() {
    assert!(matches!(fileheads::classify_entry(&b"README".to_vec()), EntryKind::Unrelated));
    match fileheads::classify_entry(&b"head:key=foo".to_vec()) {
        EntryKind::Head(key) => assert_eq!(key, b"foo".to_vec()),
        _ => panic!("a marker entry must decode"),
    }
    assert!(matches!(
        fileheads::classify_entry(&b"head:key=%zz".to_vec()),
        EntryKind::Undecodable
    ));
}

#[test]
fn mixed_directory_keeps_listing_order() {
    let listing = vec![
        b"head:key=one".to_vec(),
        b"unrelated".to_vec(),
        b"head:key=two".to_vec(),
    ];
    let keys = fileheads::heads_from_listing(&listing).unwrap();
    assert_eq!(keys, vec![b"one".to_vec(), b"two".to_vec()]);
}
