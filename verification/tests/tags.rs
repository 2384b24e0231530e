//! Tests of the tag value type: strict parsing, rendering, ordering and
//! containment.

use pythonup::tag::Architecture;
use pythonup::tag::Tag;

fn parsed(s: &str) -> Tag {
    Tag::parse_strict(s).expect(s)
}

#[test]
fn parse_fully_specified() {
    let t = parsed("3.7-64");
    assert_eq!(t.major, Some(3));
    assert_eq!(t.minor, Some(7));
    assert_eq!(t.architecture, Some(Architecture::Bits64));
}

#[test]
fn parse_partial_forms() {
    let t = parsed("3");
    assert_eq!(t.major, Some(3));
    assert_eq!(t.minor, None);
    assert_eq!(t.architecture, None);

    let t = parsed("3.10");
    assert_eq!(t.major, Some(3));
    assert_eq!(t.minor, Some(10));
    assert_eq!(t.architecture, None);

    let t = parsed("3-32");
    assert_eq!(t.major, Some(3));
    assert_eq!(t.minor, None);
    assert_eq!(t.architecture, Some(Architecture::Bits32));
}

#[test]
fn parse_extremes() {
    let t = parsed("0");
    assert_eq!(t.major, Some(0));
    let t = parsed("4294967295.0-32");
    assert_eq!(t.major, Some(u32::MAX));
    assert_eq!(t.minor, Some(0));
}

#[test]
fn parse_rejects_malformed() {
    let bad = [
        "", ".", "-", ".7", "-32", "3.", "3-", "3.7-", "03", "3.07", "00", "3.7-16", "3.7-321",
        "3.7-3", "3.7.2", "x", "3x", "3.x", "3.7x", "3.7-64x", "3 ", " 3", "3;7", "4294967296",
    ];
    for s in bad.iter() {
        let r = Tag::parse_strict(s);
        match r {
            Ok(_) => panic!("accepted {:?}", s),
            Err(e) => assert_eq!(e.input, *s, "error should carry the offending input"),
        }
    }
}

#[test]
fn round_trip_fully_specified() {
    let strings = ["3.6-32", "3.7-64", "3.10-32", "0.0-64", "12.345-32"];
    for s in strings.iter() {
        assert_eq!(parsed(s).render(), *s);
    }
}

#[test]
fn round_trip_partial() {
    for s in ["3", "3.7", "3-64", "0.1"].iter() {
        assert_eq!(parsed(s).render(), *s);
    }
}

#[test]
fn render_unspecified_is_empty() {
    assert_eq!(Tag::unspecified().render(), "");
}

#[test]
fn order_by_version_then_architecture() {
    // ascending chain, including the absent-sorts-first rule
    let chain = ["2.7-64", "3", "3-32", "3.6-32", "3.6-64", "3.7", "3.7-32", "3.7-64", "3.10-32"];
    for w in chain.windows(2) {
        let a = parsed(w[0]);
        let b = parsed(w[1]);
        assert!(a.lt(&b), "{} should sort before {}", w[0], w[1]);
        assert!(!b.lt(&a), "{} should not sort before {}", w[1], w[0]);
    }
    let t = parsed("3.7-32");
    assert!(!t.lt(&t));
    assert!(Tag::unspecified().lt(&parsed("0")));
}

#[test]
fn containment_reflexive() {
    let t = parsed("3.7-64");
    assert!(t.contains(&t));
}

#[test]
fn containment_wildcard() {
    let any = Tag::unspecified();
    for s in ["0.0-32", "3.7-64", "4294967295.4294967295-64"].iter() {
        assert!(any.contains(&parsed(s)));
    }
}

#[test]
fn containment_not_symmetric() {
    let p = parsed("3");
    let c = parsed("3.7-64");
    assert!(p.contains(&c));
    assert!(!c.contains(&p));
}

#[test]
fn containment_pins_present_fields() {
    assert!(parsed("3-32").contains(&parsed("3.6-32")));
    assert!(!parsed("3-32").contains(&parsed("3.6-64")));
    assert!(!parsed("3.6").contains(&parsed("3.7-64")));
    // a candidate lacking a field the pattern pins does not match
    assert!(!parsed("3.6-32").contains(&parsed("3.6")));
    assert!(!parsed("3").contains(&parsed("4")));
}

#[test]
fn equality_by_fields() {
    assert_eq!(parsed("3.7-32"), parsed("3.7-32"));
    assert_ne!(parsed("3.7-32"), parsed("3.7-64"));
    assert_ne!(parsed("3"), parsed("3.0"));
    let t = Tag::new(Some(3), Some(7), Some(Architecture::Bits32));
    assert_eq!(t, parsed("3.7-32"));
    assert!(t.same(&parsed("3.7-32")));
    assert!(!t.same(&parsed("3.7")));
}
