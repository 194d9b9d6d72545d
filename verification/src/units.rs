//! Kitchen units by name: the measurement systems, the names and aliases a
//! unit may be written with, and how a quantity's text splits into its
//! number and its unit. Sizes and conversions are arithmetic on real values
//! and live with the program that does them.

use vstd::prelude::*;
use crate::number::trimmed;
use crate::text::{chars_of, push_str, str_eq, string_of, trim_range};

verus! {

/// A measurement system: units convert only within one.
#[derive(Clone, Copy, PartialEq, Eq, Debug)]
pub enum System {
    UsVolume,
    MetricVolume,
    UsMass,
    MetricMass,
    Count,
    Length,
}

/// The canonical symbol that a unit name or alias stands for, as written.
pub open spec fn alias_of(s: Seq<char>) -> Option<Seq<char>> {
    if s == "t"@ || s == "tsp"@ || s == "teaspoon"@ || s == "teaspoons"@ {
        Some("tsp"@)
    } else if s == "T"@ || s == "tbsp"@ || s == "tbs"@ || s == "tablespoon"@ || s == "tablespoons"@ {
        Some("tbsp"@)
    } else if s == "c"@ || s == "cup"@ || s == "cups"@ {
        Some("cup"@)
    } else if s == "floz"@ || s == "fluid ounce"@ || s == "fluid ounces"@ {
        Some("floz"@)
    } else if s == "pt"@ || s == "pint"@ || s == "pints"@ {
        Some("pint"@)
    } else if s == "qt"@ || s == "quart"@ || s == "quarts"@ {
        Some("quart"@)
    } else if s == "gal"@ || s == "gallon"@ || s == "gallons"@ {
        Some("gallon"@)
    } else if s == "ml"@ || s == "mL"@ || s == "milliliter"@ || s == "milliliters"@ || s == "millilitre"@
        || s == "millilitres"@ {
        Some("ml"@)
    } else if s == "dl"@ {
        Some("dl"@)
    } else if s == "l"@ || s == "L"@ || s == "liter"@ || s == "liters"@ || s == "litre"@ || s == "litres"@ {
        Some("l"@)
    } else if s == "oz"@ || s == "ounce"@ || s == "ounces"@ {
        Some("oz"@)
    } else if s == "lb"@ || s == "lbs"@ || s == "pound"@ || s == "pounds"@ {
        Some("lb"@)
    } else if s == "mg"@ || s == "milligram"@ || s == "milligrams"@ {
        Some("mg"@)
    } else if s == "g"@ || s == "gram"@ || s == "grams"@ {
        Some("g"@)
    } else if s == "kg"@ || s == "kilogram"@ || s == "kilograms"@ {
        Some("kg"@)
    } else if s == "mm"@ || s == "millimeter"@ || s == "millimeters"@ {
        Some("mm"@)
    } else if s == "cm"@ || s == "centimeter"@ || s == "centimeters"@ {
        Some("cm"@)
    } else if s == "in"@ || s == "inch"@ || s == "inches"@ || s == "\""@ {
        Some("in"@)
    } else if s == "ft"@ || s == "foot"@ || s == "feet"@ {
        Some("ft"@)
    } else if s == "each"@ || s == "ea"@ || s == ""@ {
        Some("each"@)
    } else {
        None
    }
}

/// A character in ASCII lower case.
pub open spec fn lower_char(c: char) -> char {
    if 'A' <= c && c <= 'Z' {
        ((c as u32) + 32) as char
    } else {
        c
    }
}

/// Text in ASCII lower case.
pub open spec fn ascii_lower(s: Seq<char>) -> Seq<char> {
    Seq::new(s.len(), |i: int| lower_char(s[i]))
}

/// The canonical symbol of a unit name, trimmed: one-letter names match as
/// written (`T` is tbsp, `t` tsp), longer ones also in lower case.
pub open spec fn canonical_of(sym: Seq<char>) -> Option<Seq<char>> {
    let s = trimmed(sym);
    match alias_of(s) {
        Some(c) => Some(c),
        None => if s.len() > 1 {
            alias_of(ascii_lower(s))
        } else {
            None
        },
    }
}

fn some_str(t: &str) -> (r: Option<String>)
    ensures
        r matches Some(x) && x@ == t@,
{
    let mut out = String::new();
    push_str(&mut out, t);
    Some(out)
}

/// The canonical symbol of a name or alias as written.
fn alias_exec(s: &str) -> (r: Option<String>)
    ensures
        match alias_of(s@) {
            Some(c) => r matches Some(x) && x@ == c,
            None => r is None,
        },
{
    if str_eq(s, "t") || str_eq(s, "tsp") || str_eq(s, "teaspoon") || str_eq(s, "teaspoons") {
        some_str("tsp")
    } else if str_eq(s, "T") || str_eq(s, "tbsp") || str_eq(s, "tbs") || str_eq(s, "tablespoon") || str_eq(
        s,
        "tablespoons",
    ) {
        some_str("tbsp")
    } else if str_eq(s, "c") || str_eq(s, "cup") || str_eq(s, "cups") {
        some_str("cup")
    } else if str_eq(s, "floz") || str_eq(s, "fluid ounce") || str_eq(s, "fluid ounces") {
        some_str("floz")
    } else if str_eq(s, "pt") || str_eq(s, "pint") || str_eq(s, "pints") {
        some_str("pint")
    } else if str_eq(s, "qt") || str_eq(s, "quart") || str_eq(s, "quarts") {
        some_str("quart")
    } else if str_eq(s, "gal") || str_eq(s, "gallon") || str_eq(s, "gallons") {
        some_str("gallon")
    } else if str_eq(s, "ml") || str_eq(s, "mL") || str_eq(s, "milliliter") || str_eq(s, "milliliters")
        || str_eq(s, "millilitre") || str_eq(s, "millilitres") {
        some_str("ml")
    } else if str_eq(s, "dl") {
        some_str("dl")
    } else if str_eq(s, "l") || str_eq(s, "L") || str_eq(s, "liter") || str_eq(s, "liters") || str_eq(
        s,
        "litre",
    ) || str_eq(s, "litres") {
        some_str("l")
    } else if str_eq(s, "oz") || str_eq(s, "ounce") || str_eq(s, "ounces") {
        some_str("oz")
    } else if str_eq(s, "lb") || str_eq(s, "lbs") || str_eq(s, "pound") || str_eq(s, "pounds") {
        some_str("lb")
    } else if str_eq(s, "mg") || str_eq(s, "milligram") || str_eq(s, "milligrams") {
        some_str("mg")
    } else if str_eq(s, "g") || str_eq(s, "gram") || str_eq(s, "grams") {
        some_str("g")
    } else if str_eq(s, "kg") || str_eq(s, "kilogram") || str_eq(s, "kilograms") {
        some_str("kg")
    } else if str_eq(s, "mm") || str_eq(s, "millimeter") || str_eq(s, "millimeters") {
        some_str("mm")
    } else if str_eq(s, "cm") || str_eq(s, "centimeter") || str_eq(s, "centimeters") {
        some_str("cm")
    } else if str_eq(s, "in") || str_eq(s, "inch") || str_eq(s, "inches") || str_eq(s, "\"") {
        some_str("in")
    } else if str_eq(s, "ft") || str_eq(s, "foot") || str_eq(s, "feet") {
        some_str("ft")
    } else if str_eq(s, "each") || str_eq(s, "ea") || str_eq(s, "") {
        some_str("each")
    } else {
        None
    }
}

/// A character in ASCII lower case.
fn lower(c: char) -> (r: char)
    ensures
        r == lower_char(c),
{
    if 'A' <= c && c <= 'Z' {
        let v: u32 = c as u32;
        assert(v + 32 <= 0x7f);
        let b: u8 = (v + 32) as u8;
        b as char
    } else {
        c
    }
}

/// Resolves a unit name or alias to its canonical symbol (`tsp`, `tbsp`,
/// `cup`, `ml`, `g`, ...), or `None` if it names no known unit.
pub fn canonical_unit(sym: &str) -> (r: Option<String>)
    ensures
        match canonical_of(sym@) {
            Some(c) => r matches Some(x) && x@ == c,
            None => r is None,
        },
{
    let cs = chars_of(sym);
    let (a, b) = trim_range(cs.as_slice(), 0, cs.len());
    let s = string_of(cs.as_slice(), a, b);
    assert(s@ == trimmed(sym@));
    match alias_exec(s.as_str()) {
        Some(c) => Some(c),
        None => {
            if b - a > 1 {
                let mut low = String::new();
                let mut i = a;
                while i < b
                    invariant
                        a <= i <= b <= cs@.len(),
                        cs@ == sym@,
                        low@ == ascii_lower(cs@.subrange(a as int, i as int)),
                    decreases b - i,
                {
                    let ghost before = low@;
                    crate::text::push_char(&mut low, lower(cs[i]));
                    assert(low@ =~= ascii_lower(cs@.subrange(a as int, i + 1)));
                    i = i + 1;
                }
                alias_exec(low.as_str())
            } else {
                None
            }
        },
    }
}

/// Whether a character ends a quantity's number: an ASCII letter or `"`.
pub open spec fn unit_start(c: char) -> bool {
    ('a' <= c && c <= 'z') || ('A' <= c && c <= 'Z') || c == '"'
}

/// The first unit character of `t`, or its length.
pub open spec fn unit_at(t: Seq<char>) -> int
    decreases t.len(),
{
    if t.len() == 0 {
        0
    } else if unit_start(t[0]) {
        0
    } else {
        1 + unit_at(t.drop_first())
    }
}

/// A quantity's text split into its number and its unit, both trimmed; a
/// text without a unit has the empty unit, and one that starts with its unit
/// has no number and does not split.
pub open spec fn split_of(s: Seq<char>) -> Option<(Seq<char>, Seq<char>)> {
    let t = trimmed(s);
    let k = unit_at(t);
    if k >= t.len() {
        Some((t, Seq::empty()))
    } else if k == 0 {
        None
    } else {
        Some((trimmed(t.take(k)), trimmed(t.skip(k))))
    }
}

proof fn lemma_unit_at(t: Seq<char>)
    ensures
        0 <= unit_at(t) <= t.len(),
        unit_at(t) < t.len() ==> unit_start(t[unit_at(t)]),
        forall|i: int| 0 <= i < unit_at(t) ==> !unit_start(#[trigger] t[i]),
    decreases t.len(),
{
    if t.len() > 0 && !unit_start(t[0]) {
        lemma_unit_at(t.drop_first());
        assert forall|i: int| 0 <= i < unit_at(t) implies !unit_start(#[trigger] t[i]) by {
            if i > 0 {
                assert(t[i] == t.drop_first()[i - 1]);
            }
        }
    }
}

/// Splits a quantity such as `1 1/2 cups`, `500g` or `8` into its number
/// and its unit.
pub fn split_quantity(s: &str) -> (r: Option<(String, String)>)
    ensures
        match split_of(s@) {
            Some((n, u)) => r matches Some((a, b)) && a@ == n && b@ == u,
            None => r is None,
        },
{
    let cs = chars_of(s);
    let (a, b) = trim_range(cs.as_slice(), 0, cs.len());
    let ghost t = cs@.subrange(a as int, b as int);
    assert(t == trimmed(s@));
    proof {
        lemma_unit_at(t);
    }
    let mut k = a;
    while k < b && !(('a' <= cs[k] && cs[k] <= 'z') || ('A' <= cs[k] && cs[k] <= 'Z') || cs[k] == '"')
        invariant
            a <= k <= b <= cs@.len(),
            t == cs@.subrange(a as int, b as int),
            forall|i: int| a <= i < k ==> !unit_start(#[trigger] cs@[i]),
        decreases b - k,
    {
        k = k + 1;
    }
    assert(k - a == unit_at(t)) by {
        assert forall|i: int| 0 <= i < k - a implies !unit_start(#[trigger] t[i]) by {
            assert(t[i] == cs@[a + i]);
        }
        if k < b {
            assert(t[k - a] == cs@[k as int]);
        }
        lemma_unit_at_unique(t, k - a);
    }
    if k >= b {
        return Some((string_of(cs.as_slice(), a, b), String::new()));
    }
    if k == a {
        return None;
    }
    let (na, nb) = trim_range(cs.as_slice(), a, k);
    let (ua, ub) = trim_range(cs.as_slice(), k, b);
    proof {
        crate::number::lemma_trimmed_sub(cs@, a as int, k as int);
        crate::number::lemma_trimmed_sub(cs@, k as int, b as int);
        assert(t.take(k - a) == cs@.subrange(a as int, k as int));
        assert(t.skip(k - a) == cs@.subrange(k as int, b as int));
    }
    Some((string_of(cs.as_slice(), na, nb), string_of(cs.as_slice(), ua, ub)))
}

/// `unit_at` is the first unit character: one found at `k` with none before.
proof fn lemma_unit_at_unique(t: Seq<char>, k: int)
    requires
        0 <= k <= t.len(),
        forall|i: int| 0 <= i < k ==> !unit_start(#[trigger] t[i]),
        k < t.len() ==> unit_start(t[k]),
    ensures
        unit_at(t) == k,
    decreases t.len(),
{
    if k > 0 {
        assert forall|i: int| 0 <= i < k - 1 implies !unit_start(#[trigger] t.drop_first()[i]) by {
            assert(t.drop_first()[i] == t[i + 1]);
        }
        if k < t.len() {
            assert(t.drop_first()[k - 1] == t[k]);
        }
        lemma_unit_at_unique(t.drop_first(), k - 1);
    }
}

/// The smallest unit of a system, which sums of mixed units are counted in.
pub open spec fn floor_of(sys: System) -> Seq<char> {
    match sys {
        System::UsVolume => "tsp"@,
        System::MetricVolume => "ml"@,
        System::UsMass => "oz"@,
        System::MetricMass => "g"@,
        System::Count => "each"@,
        System::Length => "mm"@,
    }
}

/// The smallest unit of a system.
pub fn floor_symbol(sys: System) -> (r: String)
    ensures
        r@ == floor_of(sys),
{
    let mut out = String::new();
    match sys {
        System::UsVolume => push_str(&mut out, "tsp"),
        System::MetricVolume => push_str(&mut out, "ml"),
        System::UsMass => push_str(&mut out, "oz"),
        System::MetricMass => push_str(&mut out, "g"),
        System::Count => push_str(&mut out, "each"),
        System::Length => push_str(&mut out, "mm"),
    }
    out
}

/// How a unit reads after a value: `each` is not written, and cups, pints,
/// quarts and gallons take an `s` when there is more than one.
pub open spec fn label_of(symbol: Seq<char>, many: bool) -> Seq<char> {
    if symbol == "each"@ {
        Seq::empty()
    } else if many && (symbol == "cup"@ || symbol == "pint"@ || symbol == "quart"@ || symbol == "gallon"@) {
        symbol + "s"@
    } else {
        symbol
    }
}

/// How a unit reads after a value (`many`: the value is more than one).
pub fn unit_label(symbol: &str, many: bool) -> (r: String)
    ensures
        r@ == label_of(symbol@, many),
{
    let mut out = String::new();
    if str_eq(symbol, "each") {
        return out;
    }
    push_str(&mut out, symbol);
    if many && (str_eq(symbol, "cup") || str_eq(symbol, "pint") || str_eq(symbol, "quart") || str_eq(symbol, "gallon")) {
        push_str(&mut out, "s");
    }
    out
}

/// Where a canonical unit stands for comparison: its system (numbered in the
/// order of `System`) and its size as a whole multiple of the system's
/// smallest step (tsp, ml, oz, mg, each, a fifth of a millimetre), exactly
/// as the unit table relates them.
pub open spec fn unit_scale(canon: Seq<char>) -> Option<(int, int)> {
    if canon == "tsp"@ { Some((0, 1)) }
    else if canon == "tbsp"@ { Some((0, 3)) }
    else if canon == "floz"@ { Some((0, 6)) }
    else if canon == "cup"@ { Some((0, 48)) }
    else if canon == "pint"@ { Some((0, 96)) }
    else if canon == "quart"@ { Some((0, 192)) }
    else if canon == "gallon"@ { Some((0, 768)) }
    else if canon == "ml"@ { Some((1, 1)) }
    else if canon == "dl"@ { Some((1, 100)) }
    else if canon == "l"@ { Some((1, 1000)) }
    else if canon == "oz"@ { Some((2, 1)) }
    else if canon == "lb"@ { Some((2, 16)) }
    else if canon == "mg"@ { Some((3, 1)) }
    else if canon == "g"@ { Some((3, 1000)) }
    else if canon == "kg"@ { Some((3, 1000000)) }
    else if canon == "each"@ { Some((4, 1)) }
    else if canon == "mm"@ { Some((5, 5)) }
    else if canon == "cm"@ { Some((5, 50)) }
    else if canon == "in"@ { Some((5, 127)) }
    else if canon == "ft"@ { Some((5, 1524)) }
    else { None }
}

/// The system and size of a unit as written (any name or alias).
pub open spec fn scale_of_text(sym: Seq<char>) -> Option<(int, int)> {
    match canonical_of(sym) {
        Some(c) => unit_scale(c),
        None => None,
    }
}

fn unit_scale_exec(canon: &str) -> (r: Option<(u8, i128)>)
    ensures
        match unit_scale(canon@) {
            Some((k, f)) => r matches Some((k2, f2)) && k2 == k && f2 == f,
            None => r is None,
        },
{
    if str_eq(canon, "tsp") { Some((0, 1)) }
    else if str_eq(canon, "tbsp") { Some((0, 3)) }
    else if str_eq(canon, "floz") { Some((0, 6)) }
    else if str_eq(canon, "cup") { Some((0, 48)) }
    else if str_eq(canon, "pint") { Some((0, 96)) }
    else if str_eq(canon, "quart") { Some((0, 192)) }
    else if str_eq(canon, "gallon") { Some((0, 768)) }
    else if str_eq(canon, "ml") { Some((1, 1)) }
    else if str_eq(canon, "dl") { Some((1, 100)) }
    else if str_eq(canon, "l") { Some((1, 1000)) }
    else if str_eq(canon, "oz") { Some((2, 1)) }
    else if str_eq(canon, "lb") { Some((2, 16)) }
    else if str_eq(canon, "mg") { Some((3, 1)) }
    else if str_eq(canon, "g") { Some((3, 1000)) }
    else if str_eq(canon, "kg") { Some((3, 1000000)) }
    else if str_eq(canon, "each") { Some((4, 1)) }
    else if str_eq(canon, "mm") { Some((5, 5)) }
    else if str_eq(canon, "cm") { Some((5, 50)) }
    else if str_eq(canon, "in") { Some((5, 127)) }
    else if str_eq(canon, "ft") { Some((5, 1524)) }
    else { None }
}

/// The system and size of a unit as written, for comparing amounts.
pub fn scale_of_unit(sym: &str) -> (r: Option<(u8, i128)>)
    ensures
        match scale_of_text(sym@) {
            Some((k, f)) => r matches Some((k2, f2)) && k2 == k && f2 == f && 1 <= f <= 1000000,
            None => r is None,
        },
{
    match canonical_unit(sym) {
        Some(c) => unit_scale_exec(c.as_str()),
        None => None,
    }
}

} // verus!
verus! {

proof fn lemma_trimmed_plain(s: Seq<char>)
    requires
        s.len() > 0,
        !crate::text::spec_is_ws(s[0]),
        !crate::text::spec_is_ws(s[s.len() - 1]),
    ensures
        trimmed(s) == s,
{
    assert(crate::text::skip_ws_fwd(s, 0, s.len() as int) == 0);
    assert(crate::text::skip_ws_back(s, 0, s.len() as int) == s.len());
    assert(s.subrange(0, s.len() as int) =~= s);
}

/// Every unit of the table is named by its own symbol: the symbol resolves
/// to itself (so `oz` is the ounce, a sixteenth of the pound, not another
/// unit).
pub proof fn law_table_symbols_name_themselves(c: Seq<char>)
    requires
        unit_scale(c) is Some,
    ensures
        canonical_of(c) == Some(c),
{
    reveal_strlit("t");
    reveal_strlit("tsp");
    reveal_strlit("teaspoon");
    reveal_strlit("teaspoons");
    reveal_strlit("T");
    reveal_strlit("tbsp");
    reveal_strlit("tbs");
    reveal_strlit("tablespoon");
    reveal_strlit("tablespoons");
    reveal_strlit("c");
    reveal_strlit("cup");
    reveal_strlit("cups");
    reveal_strlit("floz");
    reveal_strlit("fluid ounce");
    reveal_strlit("fluid ounces");
    reveal_strlit("pt");
    reveal_strlit("pint");
    reveal_strlit("pints");
    reveal_strlit("qt");
    reveal_strlit("quart");
    reveal_strlit("quarts");
    reveal_strlit("gal");
    reveal_strlit("gallon");
    reveal_strlit("gallons");
    reveal_strlit("ml");
    reveal_strlit("mL");
    reveal_strlit("milliliter");
    reveal_strlit("milliliters");
    reveal_strlit("millilitre");
    reveal_strlit("millilitres");
    reveal_strlit("dl");
    reveal_strlit("l");
    reveal_strlit("L");
    reveal_strlit("liter");
    reveal_strlit("liters");
    reveal_strlit("litre");
    reveal_strlit("litres");
    reveal_strlit("oz");
    reveal_strlit("ounce");
    reveal_strlit("ounces");
    reveal_strlit("lb");
    reveal_strlit("lbs");
    reveal_strlit("pound");
    reveal_strlit("pounds");
    reveal_strlit("mg");
    reveal_strlit("milligram");
    reveal_strlit("milligrams");
    reveal_strlit("g");
    reveal_strlit("gram");
    reveal_strlit("grams");
    reveal_strlit("kg");
    reveal_strlit("kilogram");
    reveal_strlit("kilograms");
    reveal_strlit("mm");
    reveal_strlit("millimeter");
    reveal_strlit("millimeters");
    reveal_strlit("cm");
    reveal_strlit("centimeter");
    reveal_strlit("centimeters");
    reveal_strlit("in");
    reveal_strlit("inch");
    reveal_strlit("inches");
    reveal_strlit("\"");
    reveal_strlit("ft");
    reveal_strlit("foot");
    reveal_strlit("feet");
    reveal_strlit("each");
    reveal_strlit("ea");
    reveal_strlit("");
    if c == "tsp"@ {
        lemma_trimmed_plain(c);
    }
    if c == "tbsp"@ {
        lemma_trimmed_plain(c);
    }
    if c == "floz"@ {
        lemma_trimmed_plain(c);
    }
    if c == "cup"@ {
        lemma_trimmed_plain(c);
    }
    if c == "pint"@ {
        lemma_trimmed_plain(c);
    }
    if c == "quart"@ {
        lemma_trimmed_plain(c);
    }
    if c == "gallon"@ {
        lemma_trimmed_plain(c);
    }
    if c == "ml"@ {
        lemma_trimmed_plain(c);
    }
    if c == "dl"@ {
        lemma_trimmed_plain(c);
    }
    if c == "l"@ {
        lemma_trimmed_plain(c);
    }
    if c == "oz"@ {
        lemma_trimmed_plain(c);
    }
    if c == "lb"@ {
        lemma_trimmed_plain(c);
    }
    if c == "mg"@ {
        lemma_trimmed_plain(c);
    }
    if c == "g"@ {
        lemma_trimmed_plain(c);
    }
    if c == "kg"@ {
        lemma_trimmed_plain(c);
    }
    if c == "each"@ {
        lemma_trimmed_plain(c);
    }
    if c == "mm"@ {
        lemma_trimmed_plain(c);
    }
    if c == "cm"@ {
        lemma_trimmed_plain(c);
    }
    if c == "in"@ {
        lemma_trimmed_plain(c);
    }
    if c == "ft"@ {
        lemma_trimmed_plain(c);
    }
}

/// Every name resolves, if at all, to a unit of the table.
pub proof fn law_names_resolve_into_table(sym: Seq<char>)
    ensures
        canonical_of(sym) matches Some(c) ==> unit_scale(c) is Some,
{
    reveal_strlit("t");
    reveal_strlit("tsp");
    reveal_strlit("teaspoon");
    reveal_strlit("teaspoons");
    reveal_strlit("T");
    reveal_strlit("tbsp");
    reveal_strlit("tbs");
    reveal_strlit("tablespoon");
    reveal_strlit("tablespoons");
    reveal_strlit("c");
    reveal_strlit("cup");
    reveal_strlit("cups");
    reveal_strlit("floz");
    reveal_strlit("fluid ounce");
    reveal_strlit("fluid ounces");
    reveal_strlit("pt");
    reveal_strlit("pint");
    reveal_strlit("pints");
    reveal_strlit("qt");
    reveal_strlit("quart");
    reveal_strlit("quarts");
    reveal_strlit("gal");
    reveal_strlit("gallon");
    reveal_strlit("gallons");
    reveal_strlit("ml");
    reveal_strlit("mL");
    reveal_strlit("milliliter");
    reveal_strlit("milliliters");
    reveal_strlit("millilitre");
    reveal_strlit("millilitres");
    reveal_strlit("dl");
    reveal_strlit("l");
    reveal_strlit("L");
    reveal_strlit("liter");
    reveal_strlit("liters");
    reveal_strlit("litre");
    reveal_strlit("litres");
    reveal_strlit("oz");
    reveal_strlit("ounce");
    reveal_strlit("ounces");
    reveal_strlit("lb");
    reveal_strlit("lbs");
    reveal_strlit("pound");
    reveal_strlit("pounds");
    reveal_strlit("mg");
    reveal_strlit("milligram");
    reveal_strlit("milligrams");
    reveal_strlit("g");
    reveal_strlit("gram");
    reveal_strlit("grams");
    reveal_strlit("kg");
    reveal_strlit("kilogram");
    reveal_strlit("kilograms");
    reveal_strlit("mm");
    reveal_strlit("millimeter");
    reveal_strlit("millimeters");
    reveal_strlit("cm");
    reveal_strlit("centimeter");
    reveal_strlit("centimeters");
    reveal_strlit("in");
    reveal_strlit("inch");
    reveal_strlit("inches");
    reveal_strlit("\"");
    reveal_strlit("ft");
    reveal_strlit("foot");
    reveal_strlit("feet");
    reveal_strlit("each");
    reveal_strlit("ea");
    reveal_strlit("");
}


} // verus!
