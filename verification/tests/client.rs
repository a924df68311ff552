use kvnode::client::{key_url, keys_url, target_host};

#[test]
fn urls() {
    let host = target_host(None);
    assert_eq!(host, "http://localhost:3000");
    assert_eq!(key_url(&host, &"k1".to_string()), "http://localhost:3000/key/k1");
    assert_eq!(keys_url(&host), "http://localhost:3000/key");
    let other = target_host(Some("http://example:1".into()));
    assert_eq!(key_url(&other, &"".to_string()), "http://example:1/key/");
}
