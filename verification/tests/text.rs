use gideon_core::strmap::StringMap;
use gideon_core::text::{
    decimal_text, join, parse_small_number, replace_char, split_text, to_lower, to_upper, trim,
};

#[test]
fn trimming_agrees_with_the_standard_library() {
    for c in '\0'..=char::MAX {
        let text = format!("{c}x{c}");
        assert_eq!(trim(&text), text.trim(), "{:x}", c as u32);
    }
    assert_eq!(trim(" \t\n"), "");
    assert_eq!(trim(""), "");
    assert_eq!(trim(&trim("  a b ")), "a b");
}

#[test]
fn case_changes_only_ascii_letters() {
    assert_eq!(to_lower("ÀB[@z"), "ÀB[@z".to_ascii_lowercase());
    assert_eq!(to_upper("àb{`Z"), "àb{`Z".to_ascii_uppercase());
}

#[test]
fn splitting_agrees_with_the_standard_library() {
    for text in ["", "/", "a", "a/b", "/a//b/"] {
        let expected: Vec<&str> = text.split('/').collect();
        assert_eq!(split_text(text, '/'), expected);
    }
}

#[test]
fn joining_agrees_with_the_standard_library() {
    for dir in ["", "/", "a", "a/", "/a/b"] {
        for part in ["x", "x/y", "/x", ".x"] {
            let expected = std::path::Path::new(dir).join(part);
            assert_eq!(join(dir, part), expected.to_string_lossy());
        }
    }
}

#[test]
fn numbers_agree_with_the_standard_library() {
    for n in [0u64, 9, 10, 99, 100, 12345678901234567890, u64::MAX] {
        assert_eq!(decimal_text(n), n.to_string());
    }
    for text in ["", "0", "+0", "-0", "007", "4294967295", "4294967296", "1e3", " 1", "٣", "++1"] {
        assert_eq!(parse_small_number(text), text.parse().ok(), "{text:?}");
    }
}

#[test]
fn characters_are_replaced_one_for_one() {
    assert_eq!(replace_char("a\\b\\\\c", '\\', '/'), "a/b//c");
}

#[test]
fn string_maps_keep_one_value_per_key_in_order() {
    let mut map: StringMap<u32> = StringMap::new();
    assert!(map.is_empty());
    for (i, key) in ["m", "a", "z", "m", "b"].iter().enumerate() {
        map.insert(key.to_string(), i as u32);
    }
    assert_eq!(map.len(), 4);
    assert_eq!(map.get("m"), Some(&3));
    let listed: Vec<(&str, u32)> = (0..map.len())
        .map(|i| (map.key_at(i), *map.value_at(i)))
        .collect();
    assert_eq!(listed, vec![("a", 1), ("b", 4), ("m", 3), ("z", 2)]);
    let copy = map.clone();
    assert_eq!(map.remove("a"), Some(1));
    assert_eq!(map.remove("a"), None);
    assert_eq!(map.get("a"), None);
    assert_eq!(copy.get("a"), Some(&1));
    assert_ne!(map, copy);
}
