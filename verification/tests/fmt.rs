use swede::fmt::format_source;

const MISO: &str = r#"recipe miso_chicken_and_rice
  :serves 3-4
  :tags chicken, rice, one-pot, weeknight
  :source https://smittenkitchen.com/2026/02/miso-chicken-and-rice/

marinade  = mix(soy_sauce[2T], oyster_sauce[1T], shaoxing_wine[1T], miso[2T],
                kosher_salt[.5t], sugar[1t], sesame_oil[.5t], white_pepper[~]) @3m
strips    = cut(chicken_thighs[1lb]) @2m "1-inch strips"
caps      = slice(shiitake_caps[8]) @1m "thin"
coated    = mix(marinade, strips, caps) @5m
whites, greens = slice(scallions[2])
hot       = preheat(!oven {350F}) ~12m  &by(assembled)
assembled = layer(rice[1c], broth[1c + 2T], ginger[.25in] "grated",
                  coated, whites; !baking_dish) @5m
baked     = bake(assembled; hot) ~35-45m [covered] "rice tender, chicken cooked through"
plate     = top(baked, greens) @1m "eat right away"
"#;

const SALAD: &str = r#"recipe snow_pea_salad
  :yields 2 mains | 4 sides
  :tags salad, vegan, quick, summer
  :source Smitten Kitchen

toasted    = toast(walnuts[50g]; !sheet_pan, !oven {350F}) ~6-10m "fragrant, darker"
cooled     = cool(toasted) ~?
soaked     = soak(snow_peas[225g]; !ice_water) ~10-20m
ribbons    = slice(pat_dry(drain(soaked))) @4m "thin, lengthwise"
base       = whisk(chop(cooled), olive_oil[60ml], lemon_juice[20ml],
                   kosher_salt[~], black_pepper[~], chile_flakes[~]) @2m
tossed     = toss(base, ribbons) @1m
sliced_avo = slice(avocado[1]) @1m "thin"
plate      = fold(tossed, sliced_avo) @1m  &lag(0) "eat right away"
"#;

const LOAF: &str = r#"recipe fifty_fifty_loaf
  :yields 1 loaf
  :tags bread, sourdough

basis flour = 800g

blend    = mix(white_flour[50%* flour], whole_wheat_flour[50%* flour])
poolish  = <+bread/poolish>[20%* flour]
autolyse = mix(blend, water[72% flour]) ~1-2h
dough    = knead(autolyse, kosher_salt[2% flour], poolish) "smooth, then slap and fold"
// bulk ferment needs the v2 loop construct:
// bulk  = repeat(4, every ~30m) { fold(dough) } ~4h
"#;

const MENU: &str = r#"menu tuesday
  chicken = miso_chicken_and_rice
  salad   = snow_pea_salad  &by(chicken.plate)
"#;

fn assert_idempotent(src: &str) {
    let once = format_source(src);
    let twice = format_source(&once);
    assert_eq!(once, twice, "not idempotent");
}

fn non_ws(s: &str) -> String {
    s.chars().filter(|c| !c.is_whitespace()).collect()
}

#[test]
fn aligns_equals_in_a_run() {
    let src = "recipe r\na = f(x[1g])\nbb = g(a)\nplate = h(bb)\n";
    let out = format_source(src);
    // all `=` align to the widest left side ("plate" = 5) at column 6
    for line in out.lines().filter(|l| l.contains('=')) {
        assert_eq!(line.find('=').unwrap(), 6, "line: {line:?}");
    }
    assert_idempotent(src);
}

#[test]
fn preserves_comments_and_blanks() {
    let src = "recipe r\na = f(x[1g])\n\n// note\nplate = h(a)\n";
    let out = format_source(src);
    assert!(out.contains("// note"));
    assert!(out.contains("\n\n// note"), "blank line preserved: {out:?}");
    // the blank+comment breaks the run, so each of the two runs aligns alone
    assert_idempotent(src);
}

#[test]
fn syntax_error_passes_through() {
    let src = "recipe r\na = f(\n"; // unclosed call
    assert_eq!(format_source(src), src);
}

#[test]
fn multiline_continuation_shifts_with_verb() {
    // `=` moves right; the wrapped arg line should move right by the same amount
    let src = "recipe r\nx = mix(a[1g],\n        b[2g])\nplateee = done(x)\n";
    let out = format_source(src);
    let lines: Vec<&str> = out.lines().collect();
    // "plateee" (7) sets the column; x's verb moves right, continuation follows
    let verb_col = lines[1].find("mix(").unwrap();
    let cont_col = lines[2].find("b[2g]").unwrap();
    // b[ sat one past the `(` of `mix(` before formatting; it still does
    assert_eq!(cont_col, verb_col + 4, "continuation should track the paren: {out:?}");
    assert_idempotent(src);
}

#[test]
fn real_fixtures_are_idempotent() {
    for src in [MISO, SALAD, LOAF, MENU] {
        assert_idempotent(src);
    }
}

#[test]
fn exact_alignment_output() {
    let src = "recipe r\na = f(x[1g])\nbb = g(a)\nplate = h(bb)\n";
    assert_eq!(
        format_source(src),
        "recipe r\na     = f(x[1g])\nbb    = g(a)\nplate = h(bb)\n"
    );
}

#[test]
fn squeezes_space_after_equals() {
    let src = "recipe r\nab   =    f(x[1g])\n";
    assert_eq!(format_source(src), "recipe r\nab = f(x[1g])\n");
}

#[test]
fn only_whitespace_changes() {
    let src = "recipe r\nx = mix(a[1g],\n   b[2g])\n\nlongername=done(x)\n";
    let out = format_source(src);
    assert_eq!(non_ws(&out), non_ws(src));
}

#[test]
fn menu_entries_align() {
    let src = "menu m\n  a = one\n  bbb = two\n";
    // the rewrite starts at the line start, so the indent goes too
    assert_eq!(format_source(src), "menu m\na   = one\nbbb = two\n");
}
