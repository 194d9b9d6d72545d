use swede::analysis::{definition, diagnostics, document_symbols, formatting, Position, PositionMapper, SymbolKind};
use swede::diagnostic::Severity;

const SALAD: &str = r#"recipe snow_pea_salad
  :yields 2 mains | 4 sides
  :tags salad, vegan, quick, summer
  :source Smitten Kitchen

toasted    = toast(walnuts[50g]; !sheet_pan, !oven {350F}) ~6-10m "fragrant, darker"
cooled     = cool(toasted) ~?
soaked     = soak(snow_peas[225g]; !ice_water) ~10-20m
ribbons    = slice(pat_dry(drain(soaked))) @4m "thin, lengthwise"
base       = whisk(chop(cooled), olive_oil[60ml], lemon_juice[20ml],
                   kosher_salt[~], black_pepper[~], chile_flakes[~]) @2m
tossed     = toss(base, ribbons) @1m
sliced_avo = slice(avocado[1]) @1m "thin"
plate      = fold(tossed, sliced_avo) @1m  &lag(0) "eat right away"
"#;

#[test]
fn diagnostics_surface_w002() {
    let d = diagnostics(SALAD);
    assert!(d.iter().any(|x| x.code == "W002"));
    assert!(d.iter().all(|x| x.source == "swede"));
    assert!(d.iter().all(|x| x.severity == Severity::Warning));
}

#[test]
fn symbols_list_nodes() {
    let syms = document_symbols(SALAD);
    assert_eq!(syms.len(), 1);
    let kids = syms[0].children.as_ref().unwrap();
    assert!(kids.iter().any(|s| s.name == "plate"));
    assert!(kids.iter().any(|s| s.name == "cooled"));
    assert_eq!(syms[0].kind, SymbolKind::Module);
    assert_eq!(syms[0].detail.as_deref(), Some("recipe"));
}

#[test]
fn goto_definition_finds_producer() {
    // in `tossed = toss(base, ribbons)`, jumping on `base` leads to the `base` binding
    let idx = SALAD.find("toss(base").unwrap() + "toss(".len();
    let mapper = PositionMapper::new(SALAD);
    let pos = mapper.position(idx + 1);
    match definition(SALAD, pos) {
        Some(range) => {
            let off = mapper.offset(range.start);
            assert!(SALAD[off..].starts_with("base"));
        }
        None => panic!("expected a definition"),
    }
}

#[test]
fn positions_count_lines_and_utf16_units() {
    let text = "ab\nc\u{1F600}d\n";
    let m = PositionMapper::new(text);
    assert_eq!(m.position(0), Position { line: 0, character: 0 });
    assert_eq!(m.position(3), Position { line: 1, character: 0 });
    // the emoji is one character but two UTF-16 units
    assert_eq!(m.position(5), Position { line: 1, character: 3 });
    assert_eq!(m.position(100), Position { line: 2, character: 0 });
    assert_eq!(m.offset(Position { line: 1, character: 3 }), 5);
    assert_eq!(m.offset(Position { line: 1, character: 99 }), 6);
    assert_eq!(m.offset(Position { line: 9, character: 0 }), 7);
}

#[test]
fn no_definition_off_a_reference() {
    assert!(definition(SALAD, Position { line: 0, character: 0 }).is_none());
}

#[test]
fn formatting_replaces_whole_document() {
    let text = "recipe r\na = f(x[1g])\nplate = h(a)\n";
    let edits = formatting(text);
    assert_eq!(edits.len(), 1);
    assert_eq!(edits[0].range.start, Position { line: 0, character: 0 });
    assert_eq!(edits[0].range.end, Position { line: 3, character: 0 });
    assert_eq!(edits[0].new_text, "recipe r\na     = f(x[1g])\nplate = h(a)\n");
    assert!(formatting(&edits[0].new_text).is_empty());
}

#[test]
fn menu_outline_lists_entries() {
    let syms = document_symbols("menu m\n  a = one\n  b = two\n");
    assert_eq!(syms.len(), 1);
    let kids = syms[0].children.as_ref().unwrap();
    let names: Vec<&str> = kids.iter().map(|k| k.name.as_str()).collect();
    assert_eq!(names, vec!["a", "b"]);
}
