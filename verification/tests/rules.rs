use swede::ast::{Arg, Expr, File, Recipe, Span};
use swede::diagnostic::{format_line, Diagnostic};
use swede::model::build;
use swede::parse::parse;
use swede::scale::{plan_amount, AmountPlan, TermPlan};
use swede::validate::validate_source;

fn recipe(src: &str) -> Recipe {
    match parse(src).file {
        Some(File::Recipe(r)) => r,
        _ => panic!("expected a recipe"),
    }
}

fn codes(src: &str) -> Vec<String> {
    validate_source(src).iter().map(|d| d.code.clone()).collect()
}

#[test]
fn format_line_gives_code_position_and_message() {
    let d = Diagnostic::error(
        "E001",
        "unknown reference 'foo'".to_string(),
        Span { start_byte: 0, end_byte: 3, start_row: 2, start_col: 11 },
    );
    assert_eq!(format_line(&d), "E001 [3:12] unknown reference 'foo'");
    let w = Diagnostic::warning("W001", "orphan".to_string(), Span { start_byte: 0, end_byte: 1, start_row: 0, start_col: 0 });
    assert_eq!(format_line(&w), "W001 [1:1] orphan");
}

#[test]
fn split_sum_compares_in_a_common_unit() {
    let a = "recipe r\na[1T], b[1T] = divide(butter[3T])\nplate = mix(a, b)\n";
    assert_eq!(codes(a), vec!["W003".to_string()]);
    let b = "recipe r\na[1c], b[1c] = divide(butter[32T])\nplate = mix(a, b)\n";
    assert!(codes(b).is_empty());
    let c = "recipe r\na[1kg], b[500g] = divide(flour[1.5kg])\nplate = mix(a, b)\n";
    assert!(codes(c).is_empty());
}

#[test]
fn split_sum_reports_in_the_input_unit() {
    let src = "recipe r\na[1c], b[1c] = divide(butter[30T])\nplate = mix(a, b)\n";
    let d = validate_source(src);
    let w = d.iter().find(|x| x.code == "W003").unwrap();
    assert_eq!(w.message, "split amounts sum to 32 but the input is 30");
}

#[test]
fn split_sum_skips_units_that_do_not_compare() {
    let mixed = "recipe r\na[1c], b[100g] = divide(butter[2c])\nplate = mix(a, b)\n";
    assert!(!codes(mixed).contains(&"W003".to_string()));
    let alike = "recipe r\na[1 clove], b[1 clove] = divide(garlic[3 clove])\nplate = mix(a, b)\n";
    assert!(codes(alike).contains(&"W003".to_string()));
}

#[test]
fn unbounded_passive_on_a_link_target_warns() {
    let src = "recipe r\nrest = wait(dough[1]) ~?\nhot = preheat(!oven {350F}) ~12m &by(rest)\nplate = bake(hot)\n";
    assert!(codes(src).contains(&"W002".to_string()));
}

#[test]
fn terminal_is_marked_and_named_after_last_output() {
    let r = recipe("recipe r\nsoaked = soak(peas[225g]) ~10m\nplate = fold(soaked)\n");
    let g = build(&r);
    assert!(g.nodes[g.terminal].is_terminal);
    assert_eq!(g.nodes[g.terminal].name.as_deref(), Some("plate"));
    let r = recipe("recipe r\nwhites, greens = slice(scallions[2])\n");
    let g = build(&r);
    assert!(g.nodes[g.terminal].is_terminal);
    assert_eq!(g.nodes[g.terminal].name.as_deref(), Some("greens"));
}

fn plan_of(src: &str) -> AmountPlan {
    let r = recipe(src);
    match &r.bindings[0].value {
        Expr::Call(c) => match &c.args[0] {
            Arg::Ingredient(i) => plan_amount(&i.amount),
            _ => panic!("expected an ingredient"),
        },
        _ => panic!("expected a call"),
    }
}

#[test]
fn scaling_plans_sum_one_system_and_keep_the_rest() {
    assert!(matches!(plan_of("recipe r\nx = mix(broth[1c + 2T])\n"), AmountPlan::Sum));
    match plan_of("recipe r\nx = mix(stock[1c + 2 pinch])\n") {
        AmountPlan::Terms(ps) => assert_eq!(ps, vec![TermPlan::Quantity, TermPlan::Number]),
        _ => panic!("expected a term-by-term plan"),
    }
    match plan_of("recipe r\nx = mix(salt[2g])\n") {
        AmountPlan::Terms(ps) => assert_eq!(ps, vec![TermPlan::Quantity]),
        _ => panic!("expected a term-by-term plan"),
    }
}

#[test]
fn message_numbers_are_written_in_full() {
    let d = validate_source("recipe r\na[1.25g], b[0.0625g] = divide(butter[2g])\nplate = mix(a, b)\n");
    let w = d.iter().find(|x| x.code == "W003").unwrap();
    assert_eq!(w.message, "split amounts sum to 1.3125 but the input is 2");
}

#[test]
fn a_bad_line_is_one_error_and_reading_resumes_on_the_next() {
    let src = "recipe r\na = f(x[1g])\nbad line here\nplate = g(a)\n";
    let l = parse(src);
    assert_eq!(l.errors.len(), 1);
    let at = src.find("line").unwrap();
    assert_eq!(l.errors[0].span.start_byte, at);
    match l.file {
        Some(File::Recipe(r)) => {
            let names: Vec<String> = r.bindings.iter().map(|b| b.outputs[0].name.clone()).collect();
            assert_eq!(names, vec!["a".to_string(), "plate".to_string()]);
        }
        _ => panic!("expected a recipe"),
    }
}

#[test]
fn well_formed_text_parses_without_errors() {
    let src = "recipe r\n:serves 2\nbasis flour = 500g\na, b = divide(x[2g]) @1m\nplate = g(a, b; !oven {350F}) ~?\n";
    let l = parse(src);
    assert!(l.errors.is_empty());
    match l.file {
        Some(File::Recipe(r)) => {
            assert_eq!(r.meta.len(), 1);
            assert_eq!(r.bases.len(), 1);
            assert_eq!(r.bindings.len(), 2);
        }
        _ => panic!("expected a recipe"),
    }
}
