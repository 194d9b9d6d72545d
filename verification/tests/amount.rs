use swede::amount::{parse_amount, parse_lag_duration, parse_temp, parse_timer};
use swede::ast::{Amount, Span, TempUnit, Term, Timer};
use swede::number::{parse_number, Number};

fn val(n: Number) -> f64 {
    n.nanos as f64 / 1e9
}

fn num(s: &str) -> Option<f64> {
    parse_number(s).map(val)
}

fn empty() -> Span {
    Span::empty()
}

#[test]
fn numbers() {
    assert_eq!(num("2"), Some(2.0));
    assert_eq!(num("1.5"), Some(1.5));
    assert_eq!(num(".5"), Some(0.5));
    assert_eq!(num("1/2"), Some(0.5));
    assert_eq!(num("1 1/2"), Some(1.5));
}

#[test]
fn measures() {
    let a = parse_amount("500g", empty());
    match a {
        Amount::Quantity { terms, .. } => match &terms[0] {
            Term::Measure { value, unit, .. } => {
                assert_eq!(value.map(val), Some(500.0));
                assert_eq!(unit.as_deref(), Some("g"));
            }
            _ => panic!(),
        },
        _ => panic!(),
    }
}

#[test]
fn compound() {
    let a = parse_amount("1c + 2T", empty());
    match a {
        Amount::Quantity { terms, .. } => assert_eq!(terms.len(), 2),
        _ => panic!(),
    }
}

#[test]
fn basis_constituent() {
    let a = parse_amount("50%* flour", empty());
    match a {
        Amount::Quantity { terms, .. } => match &terms[0] {
            Term::Basis { percent, constituent, basis, .. } => {
                assert_eq!(percent.map(val), Some(50.0));
                assert!(*constituent);
                assert_eq!(basis, "flour");
            }
            _ => panic!(),
        },
        _ => panic!(),
    }
}

#[test]
fn to_taste_and_unquantified() {
    assert!(matches!(parse_amount("~", empty()), Amount::ToTaste { .. }));
    assert!(matches!(parse_amount("?", empty()), Amount::Unquantified { .. }));
}

#[test]
fn timers() {
    assert!(matches!(parse_timer("@3m", empty()), Some(Timer::Active(_))));
    assert!(matches!(parse_timer("~?", empty()), Some(Timer::Unbounded { .. })));
    match parse_timer("~6-10m", empty()) {
        Some(Timer::Passive(r)) => {
            assert_eq!(val(r.low.value), 6.0);
            assert_eq!(val(r.high.unwrap().value), 10.0);
        }
        _ => panic!(),
    }
}

#[test]
fn temps() {
    let t = parse_temp("{350F}", empty()).unwrap();
    assert_eq!(val(t.value), 350.0);
    assert_eq!(t.unit, TempUnit::F);
}

#[test]
fn lag() {
    assert_eq!(val(parse_lag_duration("0").unwrap().value), 0.0);
    assert_eq!(parse_lag_duration("5m").unwrap().seconds() as f64 / 1e9, 300.0);
}

#[test]
fn numbers_edge_cases() {
    assert_eq!(num(""), None);
    assert_eq!(num("abc"), None);
    assert_eq!(num("1/0"), None);
    assert_eq!(num("-2"), Some(-2.0));
    assert_eq!(num("3."), Some(3.0));
    assert_eq!(num("  7  "), Some(7.0));
    assert_eq!(num("1/3").map(|v| (v * 1e9).round()), Some(333_333_333.0));
    assert_eq!(num("2 1/4"), Some(2.25));
    assert_eq!(num("."), None);
}

#[test]
fn measure_without_number_and_bare_count() {
    match parse_amount("pinch", empty()) {
        Amount::Quantity { terms, .. } => match &terms[0] {
            Term::Measure { value, unit, .. } => {
                assert!(value.is_none());
                assert_eq!(unit.as_deref(), Some("pinch"));
            }
            _ => panic!(),
        },
        _ => panic!(),
    }
    match parse_amount("8", empty()) {
        Amount::Quantity { terms, .. } => match &terms[0] {
            Term::Measure { value, unit, .. } => {
                assert_eq!(value.map(val), Some(8.0));
                assert!(unit.is_none());
            }
            _ => panic!(),
        },
        _ => panic!(),
    }
}

#[test]
fn plain_percent_is_not_a_constituent() {
    match parse_amount("72% flour", empty()) {
        Amount::Quantity { terms, .. } => match &terms[0] {
            Term::Basis { percent, constituent, basis, .. } => {
                assert_eq!(percent.map(val), Some(72.0));
                assert!(!*constituent);
                assert_eq!(basis, "flour");
            }
            _ => panic!(),
        },
        _ => panic!(),
    }
}

#[test]
fn temps_and_timers_reject_bad_units() {
    assert!(parse_temp("{350K}", empty()).is_none());
    assert!(parse_temp("{180c}", empty()).is_some());
    assert!(parse_timer("@3x", empty()).is_none());
    assert!(parse_timer("3m", empty()).is_none());
    assert!(parse_lag_duration("5").is_none());
}
