use pidtree_mon::config::{Field, Format, Scale, Source, Test};
use pidtree_mon::numeric::Dec;

fn dec(neg: bool, mant: u64, frac: u8) -> Dec {
    Dec::new(neg, mant, frac).unwrap()
}

fn some_dec(mant: u64, frac: u8) -> Option<Dec> {
    Some(dec(false, mant, frac))
}

#[test]
fn test_matches_full_range() {
    let t = Test::Range(some_dec(1, 0), some_dec(2, 0));
    assert!(!t.matches(0.5f32.to_bits()));
    assert!(t.matches(1.0f32.to_bits()));
    assert!(t.matches(1.5f32.to_bits()));
    assert!(!t.matches(2.0f32.to_bits()));
    assert!(!t.matches(2.5f32.to_bits()));
}

#[test]
fn test_matches_partial_range() {
    let t = Test::Range(None, some_dec(2, 0));
    assert!(t.matches(0.5f32.to_bits()));
    assert!(t.matches(1.0f32.to_bits()));
    assert!(t.matches(1.5f32.to_bits()));
    assert!(!t.matches(2.0f32.to_bits()));
    assert!(!t.matches(2.5f32.to_bits()));

    let t = Test::Range(some_dec(1, 0), None);
    assert!(!t.matches(0.5f32.to_bits()));
    assert!(t.matches(1.0f32.to_bits()));
    assert!(t.matches(1.5f32.to_bits()));
    assert!(t.matches(2.0f32.to_bits()));
    assert!(t.matches(2.5f32.to_bits()));
}

#[test]
fn test_matches_degenerated() {
    let t = Test::Range(None, None);
    assert!(t.matches(0.5f32.to_bits()));
    assert!(t.matches(1.0f32.to_bits()));
    assert!(t.matches(1.5f32.to_bits()));
    assert!(t.matches(2.0f32.to_bits()));
    assert!(t.matches(2.5f32.to_bits()));

    let t = Test::Range(some_dec(1, 0), some_dec(1, 0));
    assert!(!t.matches(0.5f32.to_bits()));
    assert!(!t.matches(1.0f32.to_bits()));
    assert!(!t.matches(1.5f32.to_bits()));

    let t = Test::Range(some_dec(2, 0), some_dec(1, 0));
    assert!(!t.matches(0.5f32.to_bits()));
    assert!(!t.matches(1.0f32.to_bits()));
    assert!(!t.matches(1.5f32.to_bits()));
}

#[test]
fn fails_to_parse_bad() {
    let f = Field::from_str("bad");
    assert!(f.is_err());

    let f = Field::from_str("");
    assert!(f.is_err());

    let f = Field::from_str("if_greater");
    assert!(f.is_err());
    let f = Field::from_str("if_greater:");
    assert!(f.is_err());
    let f = Field::from_str("if_greater:abc");
    assert!(f.is_err());
    let f = Field::from_str("if_greater:13");
    assert!(f.is_err());
}

#[test]
fn parses_simple() {
    for (spec, field) in [
        ("sum", Field(Source::Sum, Scale::OfCore, Format::Float(2))),
        (
            "all_loads",
            Field(Source::AllLoads, Scale::OfCore, Format::Float(2)),
        ),
    ] {
        let f = Field::from_str(spec).unwrap();
        assert_eq!(f, field);
        let with_junk = format!("{spec}:sth");
        let f = Field::from_str(&with_junk);
        assert!(f.is_err());
    }
}

#[test]
fn parses_if_greater() {
    let f = Field::from_str("if_greater:3:then").unwrap();
    let Field(
        Source::Sum,
        Scale::OfCore,
        Format::IfThenElse {
            test: Test::Range(Some(value), None),
            then,
            otherwise,
        },
    ) = f
    else {
        panic!("should parse");
    };
    assert_eq!(value, dec(false, 3, 0));
    assert_eq!(then, "then");
    assert_eq!(otherwise, "");

    let f = Field::from_str("if_greater:3:then:").unwrap();
    let Field(
        Source::Sum,
        Scale::OfCore,
        Format::IfThenElse {
            test: Test::Range(Some(value), None),
            then,
            otherwise,
        },
    ) = f
    else {
        panic!("should parse");
    };
    assert_eq!(value, dec(false, 3, 0));
    assert_eq!(then, "then");
    assert_eq!(otherwise, "");

    let f = Field::from_str("if_greater:3:then:x").unwrap();
    let Field(
        Source::Sum,
        Scale::OfCore,
        Format::IfThenElse {
            test: Test::Range(Some(value), None),
            then,
            otherwise,
        },
    ) = f
    else {
        panic!("should parse");
    };
    assert_eq!(value, dec(false, 3, 0));
    assert_eq!(then, "then");
    assert_eq!(otherwise, "x");

    let f = Field::from_str("if_greater:3:then::").unwrap();
    let Field(
        Source::Sum,
        Scale::OfCore,
        Format::IfThenElse {
            test: Test::Range(Some(value), None),
            then,
            otherwise,
        },
    ) = f
    else {
        panic!("should parse");
    };
    assert_eq!(value, dec(false, 3, 0));
    assert_eq!(then, "then");
    assert_eq!(otherwise, ":");

    let f = Field::from_str("if_greater:3:").unwrap();
    let Field(
        Source::Sum,
        Scale::OfCore,
        Format::IfThenElse {
            test: Test::Range(Some(value), None),
            then,
            otherwise,
        },
    ) = f
    else {
        panic!("should parse");
    };
    assert_eq!(value, dec(false, 3, 0));
    assert_eq!(then, "");
    assert_eq!(otherwise, "");
}

#[test]
fn parses_all_loads() {
    let f = Field::from_str("all_loads").unwrap();
    assert!(matches!(
        f,
        Field(Source::AllLoads, Scale::OfCore, Format::Float(2))
    ));

    let f = Field::from_str("all_loads:.3").unwrap();
    assert!(matches!(
        f,
        Field(Source::AllLoads, Scale::OfCore, Format::Float(3))
    ));

    let f = Field::from_str("all_loads:%0").unwrap();
    assert!(matches!(
        f,
        Field(Source::AllLoads, Scale::OfCore, Format::Percent(0))
    ));

    let f = Field::from_str("all_loads:%0d");
    assert!(f.is_err());

    let f = Field::from_str("all_loads:if_greater:2.0:x:y::").unwrap();
    let Field(
        Source::AllLoads,
        Scale::OfCore,
        Format::IfThenElse {
            test: Test::Range(Some(value), None),
            then,
            otherwise,
        },
    ) = f
    else {
        panic!("should parse");
    };
    assert_eq!(value, dec(false, 2, 0));
    assert_eq!(then, "x");
    assert_eq!(otherwise, "y::");
}

#[test]
fn parses_if_range_bounds() {
    let f = Field::from_str("if_range:1..2:in:out").unwrap();
    let Field(
        Source::Sum,
        Scale::OfCore,
        Format::IfThenElse {
            test: Test::Range(Some(lo), Some(hi)),
            then,
            otherwise,
        },
    ) = f
    else {
        panic!("should parse");
    };
    assert_eq!(lo, dec(false, 1, 0));
    assert_eq!(hi, dec(false, 2, 0));
    assert_eq!(then, "in");
    assert_eq!(otherwise, "out");

    let f = Field::from_str("sum:if_range:..1:x:y").unwrap();
    let Field(
        Source::Sum,
        Scale::OfCore,
        Format::IfThenElse {
            test: Test::Range(None, Some(hi)),
            ..
        },
    ) = f
    else {
        panic!("should parse");
    };
    assert_eq!(hi, dec(false, 1, 0));

    let f = Field::from_str("if_range:..:always").unwrap();
    assert!(matches!(
        f,
        Field(
            Source::Sum,
            Scale::OfCore,
            Format::IfThenElse {
                test: Test::Range(None, None),
                ..
            }
        )
    ));

    assert!(Field::from_str("if_range:1..2").is_err());
    assert!(Field::from_str("if_range:z..2:x").is_err());
}

#[test]
fn parses_decimal_bounds() {
    let f = Field::from_str("if_greater:1.50:hot").unwrap();
    let Field(_, _, Format::IfThenElse { test: Test::Range(Some(v), None), .. }) = f else {
        panic!("should parse");
    };
    // Normalised: trailing zero stripped.
    assert_eq!(v, dec(false, 15, 1));

    let f = Field::from_str("if_greater:-0.25:neg").unwrap();
    let Field(_, _, Format::IfThenElse { test: Test::Range(Some(v), None), .. }) = f else {
        panic!("should parse");
    };
    assert_eq!(v, dec(true, 25, 2));
}

#[test]
fn matches_exact_decimals() {
    // The bound 0.1 is compared exactly, so the nearest float above it
    // passes and the nearest float below it does not.
    let t = Test::Range(some_dec(1, 1), None);
    assert!(t.matches(0.1f32.to_bits())); // 0.1f32 is slightly above 1/10
    assert!(!t.matches(0.09999999f32.to_bits()));
    // Not-a-number never matches a bounded range.
    let nan = f32::NAN.to_bits();
    assert!(!t.matches(nan));
    assert!(Test::Range(None, None).matches(nan));
    // Infinities order as expected.
    assert!(t.matches(f32::INFINITY.to_bits()));
    assert!(!t.matches(f32::NEG_INFINITY.to_bits()));
}

#[test]
fn parses_scaled_heads() {
    let f = Field::from_str("sum_t:.3").unwrap();
    assert_eq!(f, Field(Source::Sum, Scale::OfTotal, Format::Float(3)));
    let f = Field::from_str("all_loads_t").unwrap();
    assert_eq!(f, Field(Source::AllLoads, Scale::OfTotal, Format::Float(2)));
    let f = Field::from_str("sum:%12").unwrap();
    assert_eq!(f, Field(Source::Sum, Scale::OfCore, Format::Percent(12)));
    assert!(Field::from_str("sum:%256").is_err());
    assert!(Field::from_str("sum:.").is_err());
}

#[test]
fn parses_timeout() {
    assert_eq!(pidtree_mon::config::parse_timeout_duration("12"), Ok(12));
    assert_eq!(pidtree_mon::config::parse_timeout_duration("+12"), Ok(12));
    assert_eq!(pidtree_mon::config::parse_timeout_duration("0"), Ok(0));
    assert!(pidtree_mon::config::parse_timeout_duration("").is_err());
    assert!(pidtree_mon::config::parse_timeout_duration("+").is_err());
    assert!(pidtree_mon::config::parse_timeout_duration("1x").is_err());
    assert!(pidtree_mon::config::parse_timeout_duration("-1").is_err());
    assert!(
        pidtree_mon::config::parse_timeout_duration("18446744073709551616").is_err()
    );
    assert_eq!(
        pidtree_mon::config::parse_timeout_duration("18446744073709551615"),
        Ok(u64::MAX)
    );
}

#[test]
fn parses_bare_fraction_and_signed_precision() {
    // A bound may start at the decimal point, as float parsing allows.
    let f = Field::from_str("if_greater:.5:hot").unwrap();
    let Field(_, _, Format::IfThenElse { test: Test::Range(Some(v), None), .. }) = f else {
        panic!("should parse");
    };
    assert_eq!(v, dec(false, 5, 1));
    let t = Test::Range(Some(v), None);
    assert!(t.matches(0.5f32.to_bits()));
    assert!(!t.matches(0.25f32.to_bits()));
    // A precision may carry a plus sign, as integer parsing allows.
    let f = Field::from_str("sum:.+3").unwrap();
    assert_eq!(f, Field(Source::Sum, Scale::OfCore, Format::Float(3)));
    // The point alone is no number.
    assert!(Field::from_str("if_greater:.:x").is_err());
}
