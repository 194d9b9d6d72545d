use swede::ast::{File, Span};
use swede::number::Number;
use swede::parse::parse;
use swede::scale::{apply_edits, current_serves, meta_edit, number_spans, scale_edits, scale_numbers, scale_targets, Target};

fn n(units: i128) -> Number {
    Number { nanos: units * 1_000_000_000 }
}

#[test]
fn current_serves_midpoint() {
    assert_eq!(current_serves("recipe r\n:serves 3-4\nx = f(a[1g])\n"), Some(Number { nanos: 3_500_000_000 }));
    assert_eq!(current_serves("recipe r\n:serves 4\nx = f(a[1g])\n"), Some(n(4)));
}

#[test]
fn serves_falls_back_to_yields() {
    assert_eq!(current_serves("recipe r\n:yields 2 mains | 4 sides\nx = f(a[1g])\n"), Some(n(3)));
    assert_eq!(current_serves("recipe r\nx = f(a[1g])\n"), None);
    assert_eq!(current_serves("menu m\n  a = b\n"), None);
}

#[test]
fn number_tokens_and_values() {
    let spans = number_spans("2 mains | .5 cup, 1.2.3 x 10");
    assert_eq!(spans, vec![(0, 1, 2_000_000_000), (10, 2, 500_000_000), (26, 2, 10_000_000_000)]);
}

#[test]
fn serving_numbers_scale_to_whole_counts() {
    assert_eq!(scale_numbers("3-4", n(2)), "6-8");
    assert_eq!(scale_numbers("1 loaf", Number { nanos: 500_000_000 }), "1 loaf");
    assert_eq!(scale_numbers("3", Number { nanos: 500_000_000 }), "2");
    assert_eq!(scale_numbers("no numbers", n(2)), "no numbers");
}

#[test]
fn meta_edit_rewrites_changed_lines_only() {
    let l = parse("recipe loaf\n:serves 1\n\nbasis flour = 800g\nplate = bake(x[1g])\n");
    let r = match &l.file {
        Some(File::Recipe(r)) => r,
        _ => panic!("expected recipe"),
    };
    assert_eq!(meta_edit(&r.meta[0], n(2)), Some(":serves 2".to_string()));
    assert_eq!(meta_edit(&r.meta[0], n(1)), None);
}

#[test]
fn targets_cover_bases_amounts_and_servings() {
    let src = "recipe loaf\n:serves 1\n:tags bread\n\nbasis flour = 800g\nblend = mix(w[50%* flour], water[72% flour])\npoolish = <+bread/poolish>[20%* flour]\nplate = bake(blend, f(salt[1g]))\n";
    let l = parse(src);
    let r = match &l.file {
        Some(File::Recipe(r)) => r,
        _ => panic!("expected recipe"),
    };
    let ts = scale_targets(r);
    let kinds: Vec<&str> = ts
        .iter()
        .map(|t| match t {
            Target::Basis(_) => "basis",
            Target::Amount(_) => "amount",
            Target::Meta(_) => "meta",
        })
        .collect();
    assert_eq!(kinds, vec!["basis", "amount", "amount", "amount", "amount", "meta"]);
}

#[test]
fn edits_splice_in_start_order_keeping_leading_space() {
    let src = "abc def ghi";
    let sp = |a: usize, b: usize| Span { start_byte: a, end_byte: b, start_row: 0, start_col: a };
    let edits = vec![(sp(8, 11), "XYZ".to_string()), (sp(3, 7), "Q".to_string()), (sp(4, 5), "skip".to_string())];
    // the span 3..7 is " def": its leading space stays
    assert_eq!(apply_edits(src, &edits), "abc Q XYZ");
    assert_eq!(apply_edits(src, &Vec::new()), src);
}

#[test]
fn scale_edits_take_given_texts_and_scale_servings() {
    let src = "recipe r\n:serves 2\nbasis flour = 800g\nx = f(a[1g], b[~])\n";
    let l = parse(src);
    let r = match &l.file {
        Some(File::Recipe(r)) => r,
        _ => panic!("expected recipe"),
    };
    let ts = scale_targets(r);
    assert_eq!(ts.len(), 4);
    let texts = vec![Some("1600 g".to_string()), Some("2 g".to_string()), None, None];
    let edits = scale_edits(&ts, &texts, n(2));
    let shown: Vec<(usize, usize, String)> = edits.iter().map(|(s, t)| (s.start_byte, s.end_byte, t.clone())).collect();
    assert_eq!(
        shown,
        vec![(32, 37, "1600 g".to_string()), (46, 48, "2 g".to_string()), (9, 18, ":serves 4".to_string())]
    );
    assert_eq!(apply_edits(src, &edits), "recipe r\n:serves 4\nbasis flour = 1600 g\nx = f(a[2 g], b[~])\n");
}
