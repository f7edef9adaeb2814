use dix::version::{Order, Version, VersionChangeOrdering, VersionComponent, VersionPiece};
use std::cmp::Ordering;
use std::collections::HashSet;

fn component_texts<'a>(v: &'a Version) -> Vec<&'a str> {
    v.components().into_iter().map(|c| c.0).collect()
}

#[test]
fn version_transitivity_regression_for_empty_text_and_numeric_components() {
    let empty = Version::new("");
    let numeric = Version::new("0");
    let text = Version::new(":");

    assert!(empty < text);
    assert!(numeric < text);
    assert!(empty < numeric);
}

#[test]
fn version_suffix_order_is_transitive() {
    let base = Version::new("1");
    let text = Version::new("1-alpha");
    let hyphen_numeric = Version::new("1-0");
    let dot_numeric = Version::new("1.0");

    assert!(text < base);
    assert!(base < hyphen_numeric);
    assert!(base < dot_numeric);
    assert!(text < hyphen_numeric);
    assert!(text < dot_numeric);
}

#[test]
fn version_order_keeps_component_equal_strings_distinct() {
    let dotted = Version::new("1.0");
    let hyphenated = Version::new("1-0");
    // A set ordered by `cmp`: an element joins unless one compares equal.
    let mut versions: Vec<Version> = Vec::new();
    for v in [dotted.clone(), hyphenated.clone()] {
        if !versions.iter().any(|x| x.cmp(&v) == Ordering::Equal) {
            versions.push(v);
        }
    }

    assert_ne!(dotted, hyphenated);
    assert_ne!(dotted.cmp(&hyphenated), Ordering::Equal);
    assert_eq!(versions.len(), 2);
}

#[test]
fn change_ordering_treats_component_equal_strings_as_changed() {
    let dotted = Version::new("1.0");
    let hyphenated = Version::new("1-0");

    assert_eq!(dotted.change_ordering(&hyphenated), VersionChangeOrdering::Ordered(Order::Equal));
    assert_ne!(dotted.cmp(&hyphenated), Ordering::Equal);
}

#[test]
fn version_component_iter() {
    let version = Version::new("132.1.2test234-1-man----.--.......---------..---");
    let components: Vec<VersionComponent> =
        version.iter().into_vec().into_iter().filter_map(VersionPiece::component).collect();

    assert_eq!(
        components,
        [
            VersionComponent("132"),
            VersionComponent("1"),
            VersionComponent("2test234"),
            VersionComponent("1"),
            VersionComponent("man")
        ]
    );
}

#[test]
fn version_comparison() {
    assert!(Version::new("2.0.0") > Version::new("1.9.9"));
    assert!(Version::new("2.1.0") > Version::new("2.0.9"));
    assert!(Version::new("2.0.1") > Version::new("2.0.0"));
    assert!(Version::new("1.0.0") > Version::new("1.0.0-pre"));
    assert!(Version::new("1.0.0") > Version::new("1.0.0-alpha"));
    assert!(Version::new("1.0.0-beta") > Version::new("1.0.0-alpha"));
    assert!(Version::new("1.0.0-beta.11") > Version::new("1.0.0-beta.2"));
    assert_eq!(Version::new("1.0.0"), Version::new("1.0.0"));
}

#[test]
fn change_ordering_treats_git_short_hash_pair_as_unordered() {
    let old = Version::new("0.11.1-946aa34");
    let new = Version::new("0.11.1-3564204");

    assert_eq!(old.change_ordering(&new), VersionChangeOrdering::Unordered);
    assert_eq!(new.change_ordering(&old), VersionChangeOrdering::Unordered);
}

#[test]
fn change_ordering_treats_git_long_hash_pair_as_unordered() {
    let old = Version::new("0bf8387987c21bf2f8ed41d2575a8f22b139687f");
    let new = Version::new("cd1931314beafeebc957964c65802961e283411e");

    assert_eq!(old.change_ordering(&new), VersionChangeOrdering::Unordered);
    assert_eq!(new.change_ordering(&old), VersionChangeOrdering::Unordered);
}

#[test]
fn change_ordering_uses_non_hash_components_before_hashes() {
    let old = Version::new("25.05.31pre20250531_946aa34");
    let new = Version::new("25.05.31pre20250601_3564204");

    assert_eq!(old.change_ordering(&new), VersionChangeOrdering::Ordered(Order::Less));
    assert_eq!(new.change_ordering(&old), VersionChangeOrdering::Ordered(Order::Greater));
}

#[test]
fn change_ordering_keeps_numeric_components_ordered() {
    let old = Version::new("1.0-1234567");
    let new = Version::new("1.0-2345678");

    assert_eq!(old.change_ordering(&new), VersionChangeOrdering::Ordered(Order::Less));
}

#[test]
fn version_piece_iterator_includes_separators() {
    let version = Version::new("1.2.3-alpha");
    let pieces: Vec<VersionPiece> = version.iter().into_vec();
    assert_eq!(pieces.len(), 7);
    assert!(matches!(pieces[0], VersionPiece::Component(_)));
    assert!(matches!(pieces[1], VersionPiece::Separator(".")));
    assert!(matches!(pieces[2], VersionPiece::Component(_)));
    assert!(matches!(pieces[3], VersionPiece::Separator(".")));
    assert!(matches!(pieces[4], VersionPiece::Component(_)));
    assert!(matches!(pieces[5], VersionPiece::Separator("-")));
    assert!(matches!(pieces[6], VersionPiece::Component(_)));
}

#[test]
fn version_piece_methods() {
    let comp = VersionPiece::Component(VersionComponent("123"));
    let sep = VersionPiece::Separator("-");

    assert_eq!(comp.component(), Some(VersionComponent("123")));
    assert_eq!(comp.separator(), None);
    assert_eq!(sep.component(), None);
    assert_eq!(sep.separator(), Some("-"));
}

#[test]
fn version_component_is_numeric() {
    assert!(VersionComponent("123").is_numeric());
    assert!(VersionComponent("0").is_numeric());
    assert!(!VersionComponent("abc").is_numeric());
    assert!(!VersionComponent("123abc").is_numeric());
    assert!(!VersionComponent("").is_numeric());
    assert!(!VersionComponent("12.3").is_numeric());
}

#[test]
fn version_component_as_u64() {
    assert_eq!(VersionComponent("123").as_u64(), Some(123));
    assert_eq!(VersionComponent("0").as_u64(), Some(0));
    assert_eq!(VersionComponent("18446744073709551615").as_u64(), Some(u64::MAX));
    assert_eq!(VersionComponent("abc").as_u64(), None);
    assert_eq!(VersionComponent("123abc").as_u64(), None);
    assert_eq!(VersionComponent("").as_u64(), None);
}

#[test]
fn component_comparison_numeric() {
    assert!(VersionComponent("10") > VersionComponent("2"));
    assert!(VersionComponent("2") < VersionComponent("10"));
    assert_eq!(VersionComponent("5"), VersionComponent("5"));
}

#[test]
fn component_comparison_text() {
    assert!(VersionComponent("beta") > VersionComponent("alpha"));
    assert!(VersionComponent("rc") > VersionComponent("beta"));
    assert_eq!(VersionComponent("stable"), VersionComponent("stable"));
}

#[test]
fn component_comparison_pre_special_case() {
    assert!(VersionComponent("pre") < VersionComponent("alpha"));
    assert!(VersionComponent("pre") > VersionComponent("1"));
    assert!(VersionComponent("alpha") > VersionComponent("pre"));
}

#[test]
fn component_comparison_mixed_types() {
    assert!(VersionComponent("2") < VersionComponent("alpha"));
    assert!(VersionComponent("alpha") > VersionComponent("2"));
}

#[test]
fn component_comparison_mixed_alphanumeric() {
    assert_eq!(VersionComponent("2test234"), VersionComponent("2test234"));
    assert!(VersionComponent("abc123") > VersionComponent("123abc"));
}

#[test]
fn version_comparison_equal_lengths() {
    assert!(Version::new("1.2.3") > Version::new("1.2.2"));
    assert!(Version::new("1.2.3") < Version::new("1.2.4"));
    assert_eq!(Version::new("1.2.3"), Version::new("1.2.3"));
}

#[test]
fn version_comparison_suffix_edge_cases() {
    assert!(Version::new("1.0.0") > Version::new("1.0.0-alpha"));
    assert!(Version::new("1.0.0-alpha") < Version::new("1.0.0"));
    assert!(Version::new("1.0.0-1") > Version::new("1.0.0"));
    assert!(Version::new("1.0.0-alpha") < Version::new("1.0.0-1"));
    assert!(Version::new("1.0.0-alpha") < Version::new("1.0.0-beta"));
    assert!(Version::new("1.0.0-1") < Version::new("1.0.0-2"));
    assert!(Version::new("1.0.0-9") < Version::new("1.0.0-10"));
}

#[test]
fn version_comparison_numeric_extensions() {
    assert!(Version::new("1.0.0.1") > Version::new("1.0.0"));
    assert!(Version::new("1.0.0") < Version::new("1.0.0.1"));
}

#[test]
fn version_display() {
    let v1 = Version::new("1.2.3");
    assert_eq!(v1.to_string(), "1.2.3");
}

#[test]
fn version_write() {
    let mut v = Version::new("1.0");
    v.write_str(&format!(".{}-beta", 2));
    assert_eq!(v.name, "1.0.2-beta");
}

#[test]
fn empty_version() {
    let v = Version::new("");
    assert_eq!(v.components().len(), 0);
}

#[test]
fn version_with_only_separators() {
    let v = Version::new("...---___");
    assert_eq!(v.components().len(), 0);
}

#[test]
fn version_from_string() {
    let v1: Version = Version::new("1.2.3");
    assert_eq!(v1.name, "1.2.3");

    let v2: Version = String::from("4.5.6").into();
    assert_eq!(v2.name, "4.5.6");
}

#[test]
fn various_separators() {
    let v = Version::new("1_2+3=4*5×6 7");
    let comps = component_texts(&v);
    assert_eq!(comps.len(), 7);
    assert_eq!(comps[0], "1");
    assert_eq!(comps[6], "7");
}

#[test]
fn complex_version_parsing() {
    let v = Version::new("firefox-123.0.1_beta-1-x86_64");
    let comps = component_texts(&v);
    assert_eq!(comps[0], "firefox");
    assert_eq!(comps[1], "123");
    assert_eq!(comps[2], "0");
    assert_eq!(comps[3], "1");
    assert_eq!(comps[4], "beta");
    assert_eq!(comps[5], "1");
    assert_eq!(comps[6], "x86");
    assert_eq!(comps[7], "64");
}

#[test]
fn version_clone_and_eq() {
    let v1 = Version::new("1.0.0");
    let v2 = v1.clone();
    assert_eq!(v1, v2);
    assert_eq!(v1.name, v2.name);
}

#[test]
fn version_hash_consistency() {
    let v1 = Version::new("1.0.0");
    let v2 = Version::new("1.0.0");
    let v3 = Version::new("2.0.0");

    let mut set = HashSet::new();
    set.insert(v1);
    assert!(set.contains(&v2));
    assert!(!set.contains(&v3));
}

#[test]
fn version_order_is_antisymmetric_on_examples() {
    let samples = ["", "0", ":", "1", "1-alpha", "1-0", "1.0", "2.0.0", "1.0.0-rc", "abc"];
    for a in samples {
        for b in samples {
            let x = Version::new(a);
            let y = Version::new(b);
            assert_eq!(x.cmp(&y), y.cmp(&x).reverse());
            assert_eq!(x.cmp(&y) == Ordering::Equal, a == b);
        }
    }
}

#[test]
fn change_ordering_flips_when_swapped() {
    let pairs = [("1.0", "2.0"), ("0.11.1-946aa34", "0.11.1-3564204"), ("1.0", "1-0"), ("3", "3")];
    for (a, b) in pairs {
        let x = Version::new(a);
        let y = Version::new(b);
        let forward = x.change_ordering(&y);
        let backward = y.change_ordering(&x);
        let flipped = match forward {
            VersionChangeOrdering::Ordered(Order::Less) => VersionChangeOrdering::Ordered(Order::Greater),
            VersionChangeOrdering::Ordered(Order::Greater) => VersionChangeOrdering::Ordered(Order::Less),
            other => other,
        };
        assert_eq!(backward, flipped);
    }
}
