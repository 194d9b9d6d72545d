use swede::diagnostic::Diagnostic;
use swede::validate::validate_source;

const MISO: &str = r#"recipe miso_chicken_and_rice
  :serves 3-4
  :tags chicken, rice, one-pot, weeknight
  :source https://smittenkitchen.com/2026/02/miso-chicken-and-rice/

marinade  = mix(soy_sauce[2T], oyster_sauce[1T], shaoxing_wine[1T], miso[2T],
                kosher_salt[.5t], sugar[1t], sesame_oil[.5t], white_pepper[~]) @3m
strips    = cut(chicken_thighs[1lb]) @2m "1-inch strips"
caps      = slice(shiitake_caps[8]) @1m "thin"
coated    = mix(marinade, strips, caps) @5m
whites, greens = slice(scallions[2])
hot       = preheat(!oven {350F}) ~12m  &by(assembled)
assembled = layer(rice[1c], broth[1c + 2T], ginger[.25in] "grated",
                  coated, whites; !baking_dish) @5m
baked     = bake(assembled; hot) ~35-45m [covered] "rice tender, chicken cooked through"
plate     = top(baked, greens) @1m "eat right away"
"#;

const SALAD: &str = r#"recipe snow_pea_salad
  :yields 2 mains | 4 sides
  :tags salad, vegan, quick, summer
  :source Smitten Kitchen

toasted    = toast(walnuts[50g]; !sheet_pan, !oven {350F}) ~6-10m "fragrant, darker"
cooled     = cool(toasted) ~?
soaked     = soak(snow_peas[225g]; !ice_water) ~10-20m
ribbons    = slice(pat_dry(drain(soaked))) @4m "thin, lengthwise"
base       = whisk(chop(cooled), olive_oil[60ml], lemon_juice[20ml],
                   kosher_salt[~], black_pepper[~], chile_flakes[~]) @2m
tossed     = toss(base, ribbons) @1m
sliced_avo = slice(avocado[1]) @1m "thin"
plate      = fold(tossed, sliced_avo) @1m  &lag(0) "eat right away"
"#;

const LOAF: &str = r#"recipe fifty_fifty_loaf
  :yields 1 loaf
  :tags bread, sourdough

basis flour = 800g

blend    = mix(white_flour[50%* flour], whole_wheat_flour[50%* flour])
poolish  = <+bread/poolish>[20%* flour]
autolyse = mix(blend, water[72% flour]) ~1-2h
dough    = knead(autolyse, kosher_salt[2% flour], poolish) "smooth, then slap and fold"
// bulk ferment needs the v2 loop construct:
// bulk  = repeat(4, every ~30m) { fold(dough) } ~4h
"#;

const MENU: &str = r#"menu tuesday
  chicken = miso_chicken_and_rice
  salad   = snow_pea_salad  &by(chicken.plate)
"#;

fn codes(diags: &[Diagnostic]) -> Vec<String> {
    diags.iter().map(|d| d.code.clone()).collect()
}

fn show(diags: &[Diagnostic]) -> Vec<String> {
    diags.iter().map(|d| format!("{} {}", d.code, d.message)).collect()
}

#[test]
fn valid_fixtures_match_expected() {
    let cases: &[(&str, &str, &[&str])] = &[
        ("miso_chicken_and_rice", MISO, &[]),
        ("snow_pea_salad", SALAD, &["W002"]),
        ("fifty_fifty_loaf", LOAF, &[]),
        ("tuesday.menu", MENU, &[]),
    ];
    for (fixture, src, expected) in cases {
        let diags = validate_source(src);
        assert_eq!(&codes(&diags), expected, "{fixture}: got {:?}", show(&diags));
    }
}

#[test]
fn negative_fixtures_flag_expected_code() {
    let cases: &[(&str, &str, &str)] = &[
        ("e001_unknown_ref", "recipe r\nx = mix(a[1g], nothing)\nplate = f(x)\n", "E001"),
        ("e002_reuse", "recipe r\nx = mix(a[1g])\ny = f(x)\nz = g(x)\nplate = h(y, z)\n", "E002"),
        ("e003_redeclare", "recipe r\nx = mix(a[1g])\ny = mix(x, a[2g])\nplate = f(y)\n", "E003"),
        ("e004_forward", "recipe r\nx = f(y)\ny = g(a[1g])\nplate = h(x)\n", "E004"),
        ("e005_link_contradiction", "recipe r\nx = f(a[1g])\ny = g(x) &by(x)\nplate = h(y)\n", "E005"),
        ("w003_split_sum", "recipe r\na[1T], b[2T] = divide(butter[2T])\nplate = f(a, b)\n", "W003"),
        (
            "w004_constituents",
            "recipe r\nbasis flour = 800g\nblend = mix(w[60%* flour], ww[50%* flour])\nplate = bake(blend)\n",
            "W004",
        ),
    ];
    for (fixture, src, code) in cases {
        let diags = validate_source(src);
        assert!(
            codes(&diags).iter().any(|c| c == code),
            "{fixture}: expected {code}, got {:?}",
            show(&diags)
        );
    }
}

#[test]
fn salad_w002_names_cooled() {
    let diags = validate_source(SALAD);
    assert_eq!(diags.len(), 1);
    assert!(diags[0].message.contains("'cooled'"), "{:?}", show(&diags));
    assert!(!diags[0].is_error());
}

#[test]
fn syntax_errors_surface_as_e000() {
    let diags = validate_source("recipe r\na = f(\n");
    assert!(codes(&diags).iter().any(|c| c == "E000"), "{:?}", show(&diags));
}

#[test]
fn messages_carry_names_and_numbers() {
    let d = validate_source("recipe r\na[1T], b[2T] = divide(butter[2T])\nplate = f(a, b)\n");
    let w = d.iter().find(|x| x.code == "W003").unwrap();
    assert_eq!(w.message, "split amounts sum to 3 but the input is 2");
    let d = validate_source(
        "recipe r\nbasis flour = 800g\nblend = mix(w[60%* flour], ww[50%* flour])\nplate = bake(blend)\n",
    );
    let w = d.iter().find(|x| x.code == "W004").unwrap();
    assert_eq!(w.message, "constituent percentages of basis 'flour' sum to 110%, not 100%");
    let d = validate_source("recipe r\nx = mix(a[1g])\ny = f(x)\nz = g(x)\nplate = h(y, z)\n");
    let e = d.iter().find(|x| x.code == "E002").unwrap();
    assert_eq!(e.message, "'x' is consumed 2 times; a node may be used once. Insert an explicit split.");
}

#[test]
fn reserved_and_rebinding_are_e008() {
    let d = validate_source("recipe r\nalt = f(a[1g])\nalt = g(alt)\nplate = h(alt)\n");
    let c = codes(&d);
    assert!(c.iter().filter(|x| *x == "E008").count() >= 3, "{:?}", show(&d));
}

#[test]
fn orphans_warn_w001() {
    let d = validate_source("recipe r\nx = f(a[1g])\nplate = g(b[1g])\n");
    assert_eq!(codes(&d), vec!["W001".to_string()]);
}

#[test]
fn unknown_menu_alias_is_e006() {
    let d = validate_source("menu m\n  a = r1\n  b = r2 &by(c.plate)\n");
    assert_eq!(codes(&d), vec!["E006".to_string()]);
}

#[test]
fn diagnostics_sorted_by_position() {
    let d = validate_source("recipe r\nx = f(y)\ny = g(a[1g])\nq = h(zz)\nplate = k(x, q)\n");
    let starts: Vec<usize> = d.iter().map(|x| x.span.start_byte).collect();
    let mut sorted = starts.clone();
    sorted.sort();
    assert_eq!(starts, sorted);
}
