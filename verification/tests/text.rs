use viewer_on_tauri::text::{chars_eq, chars_le, chars_of, decimal_chars, string_of, sub_chars, to_ascii_lower};

fn s(v: Vec<char>) -> String {
    v.into_iter().collect()
}

#[test]
fn decimal_chars_renders_like_format() {
    for n in [0u128, 7, 10, 99, 100, 1234567, 1_700_000_000_000, u128::MAX] {
        assert_eq!(s(decimal_chars(n)), format!("{n}"));
    }
}

#[test]
fn chars_le_is_string_order() {
    let words = ["", "a", "ab", "b", "B", "aa", "é", "z", "Za"];
    for a in words {
        for b in words {
            let va: Vec<char> = a.chars().collect();
            let vb: Vec<char> = b.chars().collect();
            assert_eq!(chars_le(&va, &vb), a <= b, "{a:?} <= {b:?}");
        }
    }
}

#[test]
fn chars_helpers_round_trip() {
    let v = chars_of("héllo");
    assert_eq!(v, vec!['h', 'é', 'l', 'l', 'o']);
    assert_eq!(string_of(&v), "héllo");
    assert_eq!(sub_chars(&v, 1, 3), vec!['é', 'l']);
    assert!(chars_eq(&v, &['h', 'é', 'l', 'l', 'o']));
    assert!(!chars_eq(&v, &['h']));
    assert_eq!(to_ascii_lower(&['A', 'b', 'Z', 'É', '1']), vec!['a', 'b', 'z', 'É', '1']);
}
