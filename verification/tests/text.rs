use hidefix::names::NameMap;
use hidefix::text::{basename, place, same, split, to_decimal, trim_end, trim_start, Place};

#[test]
fn slashes_are_trimmed() {
    assert_eq!(trim_start("//a/b/", '/'), "a/b/");
    assert_eq!(trim_start("///", '/'), "");
    assert_eq!(trim_start("a", '/'), "a");
    assert_eq!(trim_end("/a/b//", '/'), "/a/b");
    assert_eq!(trim_end("/", '/'), "");
}

#[test]
fn paths_are_split() {
    assert_eq!(split("a/b/c", '/'), ["a", "b", "c"]);
    assert_eq!(split("", '/'), [""]);
    assert_eq!(split("/a//", '/'), ["", "a", "", ""]);
    assert_eq!(split("æ/ø/å", '/'), ["æ", "ø", "å"]);
    assert_eq!(split("//é/x", '/').join("/"), "//é/x");
}

#[test]
fn parts_of_a_join_are_those_of_both() {
    let mut p = split("a/b", '/');
    p.extend(split("c/d", '/'));
    assert_eq!(split("a/b/c/d", '/'), p);
}

#[test]
fn base_names() {
    assert_eq!(basename("/group/TIME"), "TIME");
    assert_eq!(basename("TIME"), "TIME");
    assert_eq!(basename("/a/b/"), "");
    assert_eq!(basename(""), "");
}

#[test]
fn numbers_in_decimal() {
    assert_eq!(to_decimal(0), "0");
    assert_eq!(to_decimal(10), "10");
    assert_eq!(to_decimal(9876543210), "9876543210");
    assert_eq!(to_decimal(u64::MAX), u64::MAX.to_string());
}

#[test]
fn names_are_ordered_as_strings_are() {
    let names = ["", "a", "aa", "ab", "b", "B", "é", "z", "\u{10000}", "\u{ffff}"];
    for a in names {
        for b in names {
            let expected = if a < b {
                Place::Before
            } else if a == b {
                Place::Same
            } else {
                Place::After
            };
            assert_eq!(place(a, b), expected, "{a:?} {b:?}");
            assert_eq!(same(a, b), a == b);
        }
    }
}

#[test]
fn maps_are_walked_in_the_order_of_the_names() {
    let mut m = NameMap::new();
    assert!(m.is_empty());
    for (i, k) in ["time", "lat", "lon", "depth", "alt"].iter().enumerate() {
        m.insert(k.to_string(), i);
    }
    assert_eq!(m.keys(), ["alt", "depth", "lat", "lon", "time"]);
    assert_eq!(m.len(), 5);
    assert!(!m.is_empty());
    assert_eq!(m.get("lon"), Some(&2));
    assert_eq!(m.get("lo"), None);
    assert!(m.contains_key("alt"));
    assert!(!m.contains_key(""));
    assert_eq!(m.at(0), ("alt", &4));
}

#[test]
fn a_later_value_takes_the_place_of_an_earlier_one() {
    let mut m = NameMap::new();
    m.insert("a".to_string(), 1);
    m.insert("b".to_string(), 2);
    m.insert("a".to_string(), 3);
    assert_eq!(m.len(), 2);
    assert_eq!(m.get("a"), Some(&3));
    assert_eq!(m.get("b"), Some(&2));
    let c = m.clone();
    assert_eq!(c, m);
    assert_eq!(m.into_entries(), [("a".to_string(), 3), ("b".to_string(), 2)]);
}

#[test]
fn maps_that_hold_the_same_are_walked_alike() {
    let names = ["x", "b", "", "aa", "z"];
    let mut m = NameMap::new();
    let mut n = NameMap::new();
    for k in names {
        m.insert(k.to_string(), k.len());
    }
    for k in names.iter().rev() {
        n.insert(k.to_string(), k.len());
    }
    assert_eq!(m, n);
    assert_eq!(m.keys(), n.keys());
    assert_eq!(m.keys(), ["", "aa", "b", "x", "z"]);
}
