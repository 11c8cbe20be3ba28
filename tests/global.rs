use std::collections::HashMap;

use dlmalloc::Dlmalloc;

#[test]
fn foo() {
    println!("hello");
}

#[test]
fn map() {
    let mut m = HashMap::new();
    m.insert(1, 2);
    m.insert(5, 3);
    drop(m);
}

#[test]
fn strings() {
    format!("foo, bar, {}", "baz");
}

#[test]
fn strings_through_the_allocator() {
    let text = format!("foo, bar, {}", "baz");
    let mut a = Dlmalloc::new();
    let p = a.malloc(text.len(), 1);
    assert_ne!(p, 0);
    for (i, b) in text.bytes().enumerate() {
        assert!(a.write(p, i, b));
    }
    let back = a.read_bytes(p, text.len()).unwrap();
    assert_eq!(String::from_utf8(back).unwrap(), "foo, bar, baz");
    a.free(p, text.len(), 1);
    assert!(a.read_bytes(p, 1).is_none());
}
