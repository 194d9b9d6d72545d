use swede::ast::{Annotation, Arg, Expr, File, Link, Recipe, Timer};
use swede::parse::parse;

const MISO: &str = r#"recipe miso_chicken_and_rice
  :serves 3-4
  :tags chicken, rice, one-pot, weeknight
  :source https://smittenkitchen.com/2026/02/miso-chicken-and-rice/

marinade  = mix(soy_sauce[2T], oyster_sauce[1T], shaoxing_wine[1T], miso[2T],
                kosher_salt[.5t], sugar[1t], sesame_oil[.5t], white_pepper[~]) @3m
strips    = cut(chicken_thighs[1lb]) @2m "1-inch strips"
caps      = slice(shiitake_caps[8]) @1m "thin"
coated    = mix(marinade, strips, caps) @5m
whites, greens = slice(scallions[2])
hot       = preheat(!oven {350F}) ~12m  &by(assembled)
assembled = layer(rice[1c], broth[1c + 2T], ginger[.25in] "grated",
                  coated, whites; !baking_dish) @5m
baked     = bake(assembled; hot) ~35-45m [covered] "rice tender, chicken cooked through"
plate     = top(baked, greens) @1m "eat right away"
"#;

const SALAD: &str = r#"recipe snow_pea_salad
  :yields 2 mains | 4 sides
  :tags salad, vegan, quick, summer
  :source Smitten Kitchen

toasted    = toast(walnuts[50g]; !sheet_pan, !oven {350F}) ~6-10m "fragrant, darker"
cooled     = cool(toasted) ~?
soaked     = soak(snow_peas[225g]; !ice_water) ~10-20m
ribbons    = slice(pat_dry(drain(soaked))) @4m "thin, lengthwise"
base       = whisk(chop(cooled), olive_oil[60ml], lemon_juice[20ml],
                   kosher_salt[~], black_pepper[~], chile_flakes[~]) @2m
tossed     = toss(base, ribbons) @1m
sliced_avo = slice(avocado[1]) @1m "thin"
plate      = fold(tossed, sliced_avo) @1m  &lag(0) "eat right away"
"#;

const LOAF: &str = r#"recipe fifty_fifty_loaf
  :yields 1 loaf
  :tags bread, sourdough

basis flour = 800g

blend    = mix(white_flour[50%* flour], whole_wheat_flour[50%* flour])
poolish  = <+bread/poolish>[20%* flour]
autolyse = mix(blend, water[72% flour]) ~1-2h
dough    = knead(autolyse, kosher_salt[2% flour], poolish) "smooth, then slap and fold"
// bulk ferment needs the v2 loop construct:
// bulk  = repeat(4, every ~30m) { fold(dough) } ~4h
"#;

const MENU: &str = r#"menu tuesday
  chicken = miso_chicken_and_rice
  salad   = snow_pea_salad  &by(chicken.plate)
"#;

fn recipe(src: &str) -> Recipe {
    let r = parse(src);
    assert!(r.errors.is_empty(), "syntax errors: {:?}", r.errors);
    match r.file {
        Some(File::Recipe(rec)) => rec,
        other => panic!("expected recipe, got {other:?}"),
    }
}

#[test]
fn chicken_structure() {
    let r = recipe(MISO);
    assert_eq!(r.name, "miso_chicken_and_rice");
    // meta: serves, tags, source (source URL kept verbatim, `//` intact)
    assert_eq!(r.meta.len(), 3);
    let source = r.meta.iter().find(|m| m.key == "source").unwrap();
    assert!(
        source.value.contains("https://smittenkitchen.com/2026/02/"),
        "{}",
        source.value
    );

    // the split binding: whites, greens = slice(scallions[2])
    let split = r.bindings.iter().find(|b| b.outputs.len() == 2).unwrap();
    let names: Vec<_> = split.outputs.iter().map(|o| o.name.as_str()).collect();
    assert_eq!(names, vec!["whites", "greens"]);

    // the preheat with a forward &by link and an equipment-state node.
    // `!oven {350F}` sits in arg position here (no `;`), so it is an equip arg.
    let hot = r
        .bindings
        .iter()
        .find(|b| b.outputs[0].name == "hot")
        .unwrap();
    assert!(matches!(&hot.value, Expr::Call(c)
        if c.args.iter().any(|a| matches!(a, Arg::Equip(e) if e.name == "oven" && e.temp.is_some()))));
    let has_by = hot
        .annotations
        .iter()
        .any(|a| matches!(a, Annotation::Link(Link::By { .. })));
    assert!(has_by, "hot should carry a &by link");

    // baked: passive range timer + [covered] flag + doneness string
    let baked = r
        .bindings
        .iter()
        .find(|b| b.outputs[0].name == "baked")
        .unwrap();
    assert!(baked
        .annotations
        .iter()
        .any(|a| matches!(a, Annotation::Timer(Timer::Passive(_)))));
    assert!(baked
        .annotations
        .iter()
        .any(|a| matches!(a, Annotation::Flag { name, .. } if name == "covered")));
    assert!(baked
        .annotations
        .iter()
        .any(|a| matches!(a, Annotation::Doc { .. })));
}

#[test]
fn salad_structure() {
    let r = recipe(SALAD);
    // cooled = cool(toasted) ~?
    let cooled = r
        .bindings
        .iter()
        .find(|b| b.outputs[0].name == "cooled")
        .unwrap();
    assert!(cooled
        .annotations
        .iter()
        .any(|a| matches!(a, Annotation::Timer(Timer::Unbounded { .. }))));
    // plate carries &lag(0)
    let plate = r.bindings.last().unwrap();
    assert!(plate
        .annotations
        .iter()
        .any(|a| matches!(a, Annotation::Link(Link::Lag { .. }))));
    // nested call: ribbons = slice(pat_dry(drain(soaked)))
    let ribbons = r
        .bindings
        .iter()
        .find(|b| b.outputs[0].name == "ribbons")
        .unwrap();
    assert!(matches!(&ribbons.value, Expr::Call(c) if matches!(&c.args[0], Arg::Call(_))));
}

#[test]
fn loaf_basis() {
    let r = recipe(LOAF);
    assert_eq!(r.bases.len(), 1);
    assert_eq!(r.bases[0].name, "flour");
    // poolish = <+bread/poolish>[20%* flour]
    let poolish = r
        .bindings
        .iter()
        .find(|b| b.outputs[0].name == "poolish")
        .unwrap();
    match &poolish.value {
        Expr::SubRef(s) => {
            assert_eq!(s.path, vec!["bread", "poolish"]);
            assert!(s.amount.is_some());
        }
        other => panic!("expected sub_ref, got {other:?}"),
    }
}

#[test]
fn menu_structure() {
    let r = parse(MENU);
    assert!(r.errors.is_empty(), "{:?}", r.errors);
    match r.file {
        Some(File::Menu(m)) => {
            assert_eq!(m.entries.len(), 2);
            let salad = &m.entries[1];
            // salad = snow_pea_salad &by(chicken.plate)
            match &salad.links[0] {
                Link::By { target, .. } => {
                    assert_eq!(target.name, "chicken");
                    assert_eq!(target.member.as_deref(), Some("plate"));
                }
                other => panic!("expected &by, got {other:?}"),
            }
        }
        other => panic!("expected menu, got {other:?}"),
    }
}

#[test]
fn header_decides_kind_and_name() {
    let l = parse("  // a note\n\n recipe   lentil_soup\n");
    assert!(l.errors.is_empty());
    match l.file {
        Some(File::Recipe(r)) => {
            assert_eq!(r.name, "lentil_soup");
            assert_eq!(r.name_span.start_byte, 23);
            assert_eq!(r.name_span.end_byte, 34);
        }
        _ => panic!("expected a recipe"),
    }
    assert!(matches!(parse("menu friday\n").file, Some(File::Menu(_))));
    let bad = parse("recipes soup\n");
    assert!(bad.file.is_none());
    assert!(!bad.errors.is_empty());
    let nameless = parse("recipe\n");
    assert!(matches!(nameless.file, Some(File::Recipe(_))));
    assert!(!nameless.errors.is_empty());
}

#[test]
fn annotations_keep_source_order_and_drop_unreadable_tokens() {
    let l = parse("recipe r\nx = bake(a[1g]) {abc} ~20m \"done\" [covered] {350F} &lag(0)\n");
    assert!(l.errors.is_empty());
    let r = match l.file {
        Some(File::Recipe(r)) => r,
        _ => panic!("expected a recipe"),
    };
    let kinds: Vec<&str> = r.bindings[0]
        .annotations
        .iter()
        .map(|a| match a {
            Annotation::Temp(_) => "temp",
            Annotation::Timer(_) => "timer",
            Annotation::Doc { .. } => "doc",
            Annotation::Flag { .. } => "flag",
            Annotation::Link(_) => "link",
        })
        .collect();
    assert_eq!(kinds, vec!["timer", "doc", "flag", "temp", "link"]);
    assert_eq!(r.bindings[0].span.end_byte, "recipe r\nx = bake(a[1g]) {abc} ~20m \"done\" [covered] {350F} &lag(0)".len());
}
