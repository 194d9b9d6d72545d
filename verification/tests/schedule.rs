use swede::ast::{File, Menu, Recipe};
use swede::parse::parse;
use swede::schedule::{render_timeline, schedule_menu, schedule_recipe, MenuError, Plan};

const MISO: &str = r#"recipe miso_chicken_and_rice
  :serves 3-4
  :tags chicken, rice, one-pot, weeknight
  :source https://smittenkitchen.com/2026/02/miso-chicken-and-rice/

marinade  = mix(soy_sauce[2T], oyster_sauce[1T], shaoxing_wine[1T], miso[2T],
                kosher_salt[.5t], sugar[1t], sesame_oil[.5t], white_pepper[~]) @3m
strips    = cut(chicken_thighs[1lb]) @2m "1-inch strips"
caps      = slice(shiitake_caps[8]) @1m "thin"
coated    = mix(marinade, strips, caps) @5m
whites, greens = slice(scallions[2])
hot       = preheat(!oven {350F}) ~12m  &by(assembled)
assembled = layer(rice[1c], broth[1c + 2T], ginger[.25in] "grated",
                  coated, whites; !baking_dish) @5m
baked     = bake(assembled; hot) ~35-45m [covered] "rice tender, chicken cooked through"
plate     = top(baked, greens) @1m "eat right away"
"#;

const SALAD: &str = r#"recipe snow_pea_salad
  :yields 2 mains | 4 sides
  :tags salad, vegan, quick, summer
  :source Smitten Kitchen

toasted    = toast(walnuts[50g]; !sheet_pan, !oven {350F}) ~6-10m "fragrant, darker"
cooled     = cool(toasted) ~?
soaked     = soak(snow_peas[225g]; !ice_water) ~10-20m
ribbons    = slice(pat_dry(drain(soaked))) @4m "thin, lengthwise"
base       = whisk(chop(cooled), olive_oil[60ml], lemon_juice[20ml],
                   kosher_salt[~], black_pepper[~], chile_flakes[~]) @2m
tossed     = toss(base, ribbons) @1m
sliced_avo = slice(avocado[1]) @1m "thin"
plate      = fold(tossed, sliced_avo) @1m  &lag(0) "eat right away"
"#;

const LOAF: &str = r#"recipe fifty_fifty_loaf
  :yields 1 loaf
  :tags bread, sourdough

basis flour = 800g

blend    = mix(white_flour[50%* flour], whole_wheat_flour[50%* flour])
poolish  = <+bread/poolish>[20%* flour]
autolyse = mix(blend, water[72% flour]) ~1-2h
dough    = knead(autolyse, kosher_salt[2% flour], poolish) "smooth, then slap and fold"
// bulk ferment needs the v2 loop construct:
// bulk  = repeat(4, every ~30m) { fold(dough) } ~4h
"#;

const MENU: &str = r#"menu tuesday
  chicken = miso_chicken_and_rice
  salad   = snow_pea_salad  &by(chicken.plate)
"#;

fn recipe(src: &str) -> Recipe {
    match parse(src).file {
        Some(File::Recipe(r)) => r,
        _ => panic!("expected recipe"),
    }
}

fn menu(src: &str) -> Menu {
    match parse(src).file {
        Some(File::Menu(m)) => m,
        _ => panic!("expected menu"),
    }
}

fn tuesday() -> Plan {
    let m = menu(MENU);
    let sources = vec![Some(MISO.to_string()), Some(SALAD.to_string())];
    match schedule_menu(&m, &sources) {
        Ok(p) => p,
        Err(e) => panic!("schedule menu: {}", e.message()),
    }
}

const SEC: i128 = 1_000_000_000;

#[test]
fn preheat_is_back_placed() {
    // `hot` (preheat) should start after T=0, back-placed to finish
    // by `assembled`, rather than starting at 0.
    let plan = schedule_recipe(&recipe(MISO));
    let hot = plan
        .lanes
        .iter()
        .flat_map(|l| l.tasks.iter())
        .find(|t| t.name == "hot")
        .expect("hot task");
    assert!(hot.start > 0, "preheat should be back-placed, started at {}", hot.start);
    assert!(plan.notes.iter().any(|n| n.contains("back-placed")));
}

#[test]
fn menu_aligns_and_proposes_coresidency() {
    // The cross-recipe schedule proposes walnuts inside the chicken oven.
    let plan = tuesday();
    assert_eq!(plan.lanes.len(), 2);
    assert!(
        plan.notes.iter().any(|n| n.contains("co-residency") && n.contains("oven")),
        "expected oven co-residency note, got {:?}",
        plan.notes
    );
    // both recipes end by serve time (T=0)
    let max_finish = plan
        .lanes
        .iter()
        .flat_map(|l| l.tasks.iter())
        .map(|t| t.finish)
        .fold(i128::MIN, i128::max);
    assert!(max_finish <= SEC / 100, "everything should finish by serve time, got {max_finish}");
}

#[test]
fn recipe_times_are_exact() {
    let plan = schedule_recipe(&recipe(MISO));
    // marinade 3m, coated waits on it then 5m; assembled 5m after coated;
    // baked 45m; plate 1m: makespan 3+5+5+45+1 = 59 minutes
    assert_eq!(plan.makespan, 59 * 60 * SEC);
    let hot = plan.lanes[0].tasks.iter().find(|t| t.name == "hot").unwrap();
    // finishes with `assembled` at 13m, started 12m earlier
    assert_eq!(hot.finish, 13 * 60 * SEC);
    assert_eq!(hot.start, 60 * SEC);
    assert!(plan.notes[0] == "'hot' back-placed to finish by 'assembled' (starts at +1m, not T=0)", "{:?}", plan.notes);
    assert_eq!(plan.notes.last().unwrap(), "single cook: 17m active, 59m elapsed");
}

#[test]
fn tasks_are_ordered_by_start() {
    let plan = schedule_recipe(&recipe(MISO));
    let starts: Vec<i128> = plan.lanes[0].tasks.iter().map(|t| t.start).collect();
    let mut sorted = starts.clone();
    sorted.sort();
    assert_eq!(starts, sorted);
}

#[test]
fn bake_inherits_the_oven() {
    let plan = schedule_recipe(&recipe(MISO));
    let baked = plan.lanes[0].tasks.iter().find(|t| t.name == "baked").unwrap();
    assert!(baked.equipment.iter().any(|(n, _)| n == "oven"));
}

#[test]
fn menu_errors_name_the_entry() {
    let m = menu(MENU);
    let missing = vec![Some(MISO.to_string()), None];
    assert!(matches!(schedule_menu(&m, &missing), Err(MenuError::Unreadable { entry: 1, .. })));
    let not_recipe = vec![Some(MENU.to_string()), Some(SALAD.to_string())];
    match schedule_menu(&m, &not_recipe) {
        Err(e) => assert_eq!(e.message(), "'miso_chicken_and_rice' is not a recipe"),
        Ok(_) => panic!("expected an error"),
    }
    let empty = vec![Some("recipe nothing\n".to_string()), Some(SALAD.to_string())];
    assert!(matches!(schedule_menu(&m, &empty), Err(MenuError::NoSteps { .. })));
}

#[test]
fn timeline_renders_lanes_and_notes() {
    let plan = tuesday();
    let out = render_timeline(&plan);
    assert!(out.starts_with("Timeline: tuesday\n  · co-residency possible: "), "{out}");
    assert!(out.contains("[chicken (miso_chicken_and_rice)]\n"), "{out}");
    assert!(out.contains("[salad (snow_pea_salad)]\n"), "{out}");
    assert!(out.contains("@active"));
    assert!(out.contains("~passive"));
}

#[test]
fn timeline_line_layout() {
    let plan = schedule_recipe(&recipe("recipe r\na = mix(x[1g]) @10m\n"));
    let out = render_timeline(&plan);
    let bar: String = std::iter::repeat('█').take(48).collect();
    let expected = format!(
        "Timeline: r\n  · single cook: 10m active, 10m elapsed\n\n  {:>7} {:<50} {:<12} @active\n",
        "+0m", bar, "a"
    );
    assert_eq!(out, expected);
}

#[test]
fn consumers_start_after_their_inputs_finish() {
    let plan = schedule_recipe(&recipe(MISO));
    let task = |name: &str| plan.lanes[0].tasks.iter().find(|t| t.name == name).unwrap();
    let marinade = task("marinade");
    let coated = task("coated");
    let assembled = task("assembled");
    let baked = task("baked");
    assert_eq!(marinade.finish, 3 * 60 * SEC);
    assert_eq!(coated.start, marinade.finish);
    assert_eq!(assembled.start, coated.finish);
    assert_eq!(baked.start, assembled.finish);
    assert!(baked.start >= task("hot").finish);
}

#[test]
fn unreadable_entry_names_its_recipe() {
    let m = menu(MENU);
    let missing = vec![Some(MISO.to_string()), None];
    let name = swede::schedule::menu_recipe_name(&m.entries[1]);
    match schedule_menu(&m, &missing) {
        Err(e) => assert_eq!(e.message(), format!("cannot load recipe '{}'", name)),
        Ok(_) => panic!("expected an error"),
    }
}
