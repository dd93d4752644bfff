use shunyadb::keys::{bytes_order, key_before, key_order, key_same, KeyOrder};

#[test]
fn keys_are_ordered_as_their_bytes() {
    assert_eq!(key_order("a", "b"), KeyOrder::Less);
    assert_eq!(key_order("b", "a"), KeyOrder::Greater);
    assert_eq!(key_order("a", "a"), KeyOrder::Equal);
    assert_eq!(key_order("", ""), KeyOrder::Equal);
    assert_eq!(key_order("", "a"), KeyOrder::Less);
    assert_eq!(key_order("a", "ab"), KeyOrder::Less);
    assert_eq!(key_order("ab", "a"), KeyOrder::Greater);
    assert_eq!(key_order("10", "9"), KeyOrder::Less);
    assert_eq!(key_order("Z", "a"), KeyOrder::Less);
    assert!(key_before("é", "z\u{10000}") == ("é" < "z\u{10000}"));
    assert!(key_same("é", "é"));
    assert!(!key_same("e", "é"));
}

#[test]
fn key_order_agrees_with_the_order_of_str() {
    let keys = ["", "a", "ab", "b", "B", "10", "9", "é", "e", "z", "\u{7f}", "\u{80}", "\u{10ffff}", "日本"];
    for a in keys {
        for b in keys {
            let expected = if a < b {
                KeyOrder::Less
            } else if a == b {
                KeyOrder::Equal
            } else {
                KeyOrder::Greater
            };
            assert_eq!(key_order(a, b), expected);
            assert_eq!(bytes_order(a.as_bytes(), b.as_bytes()), expected);
        }
    }
}
