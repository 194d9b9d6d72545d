use swede::scale::swede_token;
use swede::units::{canonical_unit, floor_symbol, split_quantity, unit_label, System};

fn canon(s: &str) -> Option<String> {
    canonical_unit(s)
}

#[test]
fn aliases_resolve_to_canonical_symbols() {
    assert_eq!(canon("tbsp").as_deref(), Some("tbsp"));
    assert_eq!(canon("T").as_deref(), Some("tbsp"));
    assert_eq!(canon("t").as_deref(), Some("tsp"));
    assert_eq!(canon("c").as_deref(), Some("cup"));
    assert_eq!(canon(" cups ").as_deref(), Some("cup"));
    assert_eq!(canon("fluid ounces").as_deref(), Some("floz"));
    assert_eq!(canon("\"").as_deref(), Some("in"));
    assert_eq!(canon("").as_deref(), Some("each"));
    assert_eq!(canon("lbs").as_deref(), Some("lb"));
}

#[test]
fn long_names_match_in_any_case_short_ones_do_not() {
    assert_eq!(canon("Cups").as_deref(), Some("cup"));
    assert_eq!(canon("ML").as_deref(), Some("ml"));
    assert_eq!(canon("KiloGrams").as_deref(), Some("kg"));
    assert_eq!(canon("C"), None);
    assert_eq!(canon("G"), None);
    assert_eq!(canon("pinch"), None);
}

#[test]
fn quantities_split_into_number_and_unit() {
    let sp = |s: &str| split_quantity(s).map(|(a, b)| (a, b));
    assert_eq!(sp("2 tbsp"), Some(("2".to_string(), "tbsp".to_string())));
    assert_eq!(sp("1 1/2 cups"), Some(("1 1/2".to_string(), "cups".to_string())));
    assert_eq!(sp("500g"), Some(("500".to_string(), "g".to_string())));
    assert_eq!(sp(" .25 in "), Some((".25".to_string(), "in".to_string())));
    assert_eq!(sp("8"), Some(("8".to_string(), String::new())));
    assert_eq!(sp("3\""), Some(("3".to_string(), "\"".to_string())));
    assert_eq!(sp("cup"), None);
}

#[test]
fn system_floors_and_labels() {
    assert_eq!(floor_symbol(System::UsVolume), "tsp");
    assert_eq!(floor_symbol(System::MetricMass), "g");
    assert_eq!(floor_symbol(System::Length), "mm");
    assert_eq!(unit_label("cup", true), "cups");
    assert_eq!(unit_label("cup", false), "cup");
    assert_eq!(unit_label("tbsp", true), "tbsp");
    assert_eq!(unit_label("each", true), "");
}

#[test]
fn swede_tokens() {
    assert_eq!(swede_token("tsp"), "t");
    assert_eq!(swede_token("tbsp"), "T");
    assert_eq!(swede_token("cup"), "c");
    assert_eq!(swede_token("gallon"), "gal");
    assert_eq!(swede_token("kg"), "kg");
    assert_eq!(swede_token("each"), "");
    assert_eq!(swede_token("parsec"), "");
}

/// A quantity's unit symbol and value, as the library reads them.
fn quantity(s: &str) -> Option<(String, i128)> {
    let (num, unit) = split_quantity(s)?;
    let value = swede::number::parse_number(&num)?;
    let sym = canonical_unit(&unit)?;
    Some((sym, value.nanos))
}

const ONE: i128 = 1_000_000_000;

#[test]
fn parses_forms() {
    assert_eq!(quantity("2 tbsp").unwrap().0, "tbsp");
    assert_eq!(quantity("2T").unwrap().0, "tbsp");
    assert_eq!(quantity(".5t").unwrap().0, "tsp");
    assert_eq!(quantity("1c").unwrap().0, "cup");
    assert_eq!(quantity("500g").unwrap().1, 500 * ONE);
    assert_eq!(quantity("1 1/2 cups").unwrap().1, 3 * ONE / 2);
    assert_eq!(quantity("8").unwrap().0, "each");
}

#[test]
fn case_sensitive_short_forms() {
    assert_eq!(quantity("1T").unwrap().0, "tbsp");
    assert_eq!(quantity("1t").unwrap().0, "tsp");
}
