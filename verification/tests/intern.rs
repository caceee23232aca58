use iptoasn_webservice::intern::{hash_text, InternPool};
use std::sync::Arc;

fn chars(text: &str) -> Vec<char> {
    text.chars().collect()
}

#[test]
fn equal_texts_share_one_handle() {
    let mut pool = InternPool::new();
    assert_eq!(pool.len(), 0);
    let a = pool.intern(&chars("US"));
    let b = pool.intern(&chars("DE"));
    let c = pool.intern(&chars("US"));
    assert_eq!(a.as_str(), "US");
    assert_eq!(b.as_str(), "DE");
    assert!(Arc::ptr_eq(&a, &c));
    assert!(!Arc::ptr_eq(&a, &b));
    assert_eq!(pool.len(), 2);
    let empty = pool.intern(&chars(""));
    assert_eq!(empty.as_str(), "");
    assert_eq!(pool.len(), 3);
    assert!(Arc::ptr_eq(&empty, &pool.intern(&Vec::new())));
    assert_eq!(pool.len(), 3);
}

#[test]
fn many_texts_are_kept_apart() {
    let mut pool = InternPool::new();
    let mut handles = Vec::new();
    for i in 0..3000 {
        handles.push(pool.intern(&chars(&format!("AS-{}", i % 1000))));
    }
    assert_eq!(pool.len(), 1000);
    for i in 0..3000 {
        assert_eq!(handles[i].as_str(), format!("AS-{}", i % 1000));
        assert!(Arc::ptr_eq(&handles[i], &handles[i % 1000]));
    }
}

#[test]
fn the_hash_is_the_one_of_fowler_noll_and_vo() {
    assert_eq!(hash_text(&Vec::new()), 0xcbf2_9ce4_8422_2325);
    assert_eq!(hash_text(&chars("a")), 0xaf63_dc4c_8601_ec8c);
    assert_eq!(hash_text(&chars("foobar")), 0x8594_4171_f739_67e8);
    assert_ne!(hash_text(&chars("ab")), hash_text(&chars("ba")));
}
