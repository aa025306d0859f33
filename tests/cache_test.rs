use bevy_rosc::byte_order::compare_bytes;
use bevy_rosc::OscDispatcher;
use std::sync::Arc;

#[test]
fn compare_bytes_orders_lexicographically() {
    assert_eq!(compare_bytes(b"/a", b"/a"), 0);
    assert!(compare_bytes(b"/a", b"/b") < 0);
    assert!(compare_bytes(b"/b", b"/a") > 0);
    assert!(compare_bytes(b"/a", b"/ab") < 0);
    assert!(compare_bytes(b"/ab", b"/a") > 0);
    assert!(compare_bytes(b"", b"/") < 0);
    assert_eq!(compare_bytes(b"", b""), 0);
    assert!(compare_bytes(b"/a/b", b"/ab") < 0);
}

#[test]
fn cache_finds_every_pattern_among_many() {
    let patterns: Vec<String> = [
        "/m", "/a", "/z", "/ab", "/a/b", "/aa", "/b", "/a", "/mm", "/m/1", "/m/0", "/z", "/0",
        "/~", "/a-b", "/ab",
    ]
    .iter()
    .map(|s| s.to_string())
    .collect();
    let mut disp = OscDispatcher::new();
    let mut first: Vec<(String, Arc<bevy_rosc::CompiledPattern>)> = vec![];
    for p in &patterns {
        let m = disp.resolve(p).unwrap();
        assert_eq!(m.as_str(), p.as_str());
        match first.iter().find(|(q, _)| q == p) {
            Some((_, earlier)) => assert!(Arc::ptr_eq(earlier, &m)),
            None => first.push((p.clone(), m)),
        }
    }
    assert_eq!(disp.cached_patterns(), first.len());
    assert_eq!(first.len(), 13);
    for (p, m) in first.iter().rev() {
        let again = disp.resolve(p).unwrap();
        assert!(Arc::ptr_eq(m, &again));
    }
    assert_eq!(disp.cached_patterns(), 13);
}
