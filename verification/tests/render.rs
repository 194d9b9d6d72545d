use swede::ast::{File, Recipe};
use swede::grid::grid_table;
use swede::parse::parse;
use swede::render::{flow_table, pretty_name};

const MISO: &str = r#"recipe miso_chicken_and_rice
  :serves 3-4
  :tags chicken, rice, one-pot, weeknight
  :source https://smittenkitchen.com/2026/02/miso-chicken-and-rice/

marinade  = mix(soy_sauce[2T], oyster_sauce[1T], shaoxing_wine[1T], miso[2T],
                kosher_salt[.5t], sugar[1t], sesame_oil[.5t], white_pepper[~]) @3m
strips    = cut(chicken_thighs[1lb]) @2m "1-inch strips"
caps      = slice(shiitake_caps[8]) @1m "thin"
coated    = mix(marinade, strips, caps) @5m
whites, greens = slice(scallions[2])
hot       = preheat(!oven {350F}) ~12m  &by(assembled)
assembled = layer(rice[1c], broth[1c + 2T], ginger[.25in] "grated",
                  coated, whites; !baking_dish) @5m
baked     = bake(assembled; hot) ~35-45m [covered] "rice tender, chicken cooked through"
plate     = top(baked, greens) @1m "eat right away"
"#;

const LOAF: &str = r#"recipe fifty_fifty_loaf
  :yields 1 loaf
  :tags bread, sourdough

basis flour = 800g

blend    = mix(white_flour[50%* flour], whole_wheat_flour[50%* flour])
poolish  = <+bread/poolish>[20%* flour]
autolyse = mix(blend, water[72% flour]) ~1-2h
dough    = knead(autolyse, kosher_salt[2% flour], poolish) "smooth, then slap and fold"
// bulk ferment needs the v2 loop construct:
// bulk  = repeat(4, every ~30m) { fold(dough) } ~4h
"#;

fn recipe(src: &str) -> Recipe {
    match parse(src).file {
        Some(File::Recipe(r)) => r,
        _ => panic!("expected recipe"),
    }
}

#[test]
fn flow_table_has_structure() {
    let out = flow_table(&recipe(MISO));
    assert!(out.contains("| marinade | mix |"));
    assert!(out.contains("whites, greens")); // split
    assert!(out.contains("finish by: assembled")); // link on preheat
    assert!(out.contains("!oven 350F")); // equipment + temp
    assert!(out.contains("~35-45m")); // passive range timer
    assert!(out.contains("eat right away")); // doneness annotation
}

#[test]
fn flow_table_resolves_basis() {
    let out = flow_table(&recipe(LOAF));
    // 50% of 800g flour = 400g; 72% = 576g
    assert!(out.contains("(400g)"), "{out}");
    assert!(out.contains("(576g)"), "{out}");
}

#[test]
fn grid_table_is_deterministic() {
    let r = recipe(MISO);
    let a = grid_table(&r);
    let b = grid_table(&r);
    assert_eq!(a, b);
    assert!(a.contains("preheat")); // equipment-prep header strip
    assert!(a.contains("scallions")); // fork band leaf
}

#[test]
fn flow_table_header_and_first_rows() {
    let out = flow_table(&recipe(LOAF));
    let expected_head = "# Fifty Fifty Loaf\n\n- **yields**: 1 loaf\n- **tags**: bread, sourdough\n\n- **basis** `flour` = 800g\n\n| # | node | verb | inputs | time | equipment | notes |\n|---|------|------|--------|------|-----------|-------|\n";
    assert!(out.starts_with(expected_head), "{out}");
    assert!(out.contains(
        "| 1 | blend | mix | white_flour 50%* flour (400g), whole_wheat_flour 50%* flour (400g) |  |  |  |\n"
    ), "{out}");
    assert!(out.contains("| 2 | poolish | <+bread/poolish> |  |  |  |  |\n"), "{out}");
    assert!(out.contains("| 3 | autolyse | mix | blend, water 72% flour (576g) | ~1-2h |  |  |\n"), "{out}");
}

#[test]
fn grid_table_exact_small() {
    let r = recipe("recipe two_step\na = mix(x[1g], y[2g]) @5m\nb = bake(a) ~10m\n");
    let out = grid_table(&r);
    assert_eq!(out, "Two Step\n\nx 1g  mix @5m  bake ~10m\ny 2g\n");
}

#[test]
fn grid_strips_equipment_prep() {
    let r = recipe("recipe p\nhot = preheat(!oven {350F}) ~12m &by(done)\ndone = bake(x[1g]; hot) ~20m\n");
    let out = grid_table(&r);
    assert!(out.starts_with("P\n[ hot: preheat !oven 350F ]  (finish by: done)\n\n"), "{out:?}");
}

#[test]
fn pretty_name_title_cases() {
    assert_eq!(pretty_name("snow_pea_salad"), "Snow Pea Salad");
    assert_eq!(pretty_name("a__b"), "A  B");
}

#[test]
fn markdown_pipes_are_escaped() {
    let out = flow_table(&recipe("recipe r\na = mix(x[1g]) \"a|b\"\n"));
    assert!(out.contains("a\\|b"), "{out}");
}
