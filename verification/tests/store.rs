use rami_api_deps::path::DescriptorPath;
use rami_api_deps::store::DescriptorStore;

fn key(text: &str) -> DescriptorPath {
    DescriptorPath::new("/").join(text)
}

#[test]
fn new_store_holds_nothing() {
    let store = DescriptorStore::new();
    assert_eq!(store.get(&key("a/b.csproj")), None);
    assert!(!store.contains(&key("a/b.csproj")));
}

#[test]
fn store_hands_back_what_was_kept() {
    let mut store = DescriptorStore::new();
    store.insert(key("a/b.csproj"), "first".to_string());
    store.insert(key("a/c.csproj"), "second".to_string());
    assert_eq!(store.get(&key("a/b.csproj")), Some("first"));
    assert_eq!(store.get(&key("a/c.csproj")), Some("second"));
    assert_eq!(store.get(&key("a/d.csproj")), None);
    assert_eq!(store.get(&key("a")), None);
    assert!(store.contains(&key("a/c.csproj")));
}

#[test]
fn store_keeps_the_latest_text_of_a_path() {
    let mut store = DescriptorStore::new();
    store.insert(key("a/b.csproj"), "old".to_string());
    store.insert(key("x"), "other".to_string());
    store.insert(key("a/b.csproj"), "new".to_string());
    assert_eq!(store.get(&key("a/b.csproj")), Some("new"));
    assert_eq!(store.get(&key("x")), Some("other"));
}

#[test]
fn store_tells_roots_apart() {
    let mut store = DescriptorStore::new();
    store.insert(DescriptorPath::new("C:\\").join("a"), "c".to_string());
    assert_eq!(store.get(&DescriptorPath::new("D:\\").join("a")), None);
    assert_eq!(store.get(&DescriptorPath::new("C:\\").join("a")), Some("c"));
}
