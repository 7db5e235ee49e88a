use hashtable::Advanced;
use hashtable::Basic;

#[test]
fn basic_works() {
    let mut basic = Basic::new();
    basic.insert("dude", "wow");
    basic.insert("foo", "bar");
    basic.insert("foo", "lol");

    assert_eq!(basic.get(&"dude"), Some(&"wow"));
    assert_eq!(basic.get(&"foo"), Some(&"lol"));
    assert_eq!(basic.get(&"foo"), Some(&"lol"));
    let removed = basic.remove(&"foo");
    assert_eq!(basic.get(&"foo"), None);
    assert_eq!(removed, Some("lol"));
    assert_eq!(basic.get(&"qux"), None);
}

#[test]
fn advanced_works() {
    let mut advanced = Advanced::new();
    advanced.insert("dude", "wow");
    advanced.insert("foo", "bar");
    advanced.insert("foo", "lol");

    assert_eq!(advanced.get(&"dude"), Some(&"wow"));
    assert_eq!(advanced.get(&"foo"), Some(&"lol"));
    assert_eq!(advanced.get(&"foo"), Some(&"lol"));

    let removed = advanced.remove(&"foo");
    assert_eq!(advanced.get(&"foo"), None);
    assert_eq!(removed, Some("lol"));
    assert_eq!(advanced.get(&"qux"), None);
}

#[test]
fn basic_can_insert_and_get() {
    let mut basic = Basic::new();
    basic.insert("dude", "wow");
    basic.insert("foo", "bar");
    basic.insert("foo", "lol");

    assert_eq!(basic.get(&"dude"), Some(&"wow"));
    assert_eq!(basic.get(&"foo"), Some(&"lol"));
    assert_eq!(basic.get(&"qux"), None);
}

#[test]
fn advanced_can_insert_and_get() {
    let mut advanced = Advanced::new();
    advanced.insert("dude", "wow");
    advanced.insert("foo", "bar");
    advanced.insert("foo", "lol");

    assert_eq!(advanced.get(&"dude"), Some(&"wow"));
    assert_eq!(advanced.get(&"foo"), Some(&"lol"));
    assert_eq!(advanced.get(&"qux"), None);
}
