//! The typed Swede AST.
//!
//! Amounts, timers and temperatures are classified (not left opaque), so the
//! semantic layer works with structured values. Offsets in spans count
//! characters of the source text.

use vstd::prelude::*;
use crate::number::Number;

verus! {

/// A span of the source, for diagnostics: start/end offsets and the row and
/// column (both zero-based) where it starts. Offsets and columns count
/// characters (Unicode scalar values) of the source, not bytes; for ASCII text
/// the two agree. The fields keep the names that JSON consumers expect, and
/// the command line converts them to UTF-8 byte offsets when it writes JSON.
#[derive(Debug, Clone, Copy, PartialEq, Eq)]
pub struct Span {
    pub start_byte: usize,
    pub end_byte: usize,
    pub start_row: usize,
    pub start_col: usize,
}

impl Span {
    /// The empty span at the start of the file.
    pub fn empty() -> (r: Span)
        ensures
            r == (Span { start_byte: 0, end_byte: 0, start_row: 0, start_col: 0 }),
    {
        Span { start_byte: 0, end_byte: 0, start_row: 0, start_col: 0 }
    }

    pub open spec fn within(self, len: nat) -> bool {
        self.start_byte <= self.end_byte <= len
    }
}

/// A whole file: a recipe or a menu.
#[derive(Debug)]
pub enum File {
    Recipe(Recipe),
    Menu(Menu),
}

#[derive(Debug)]
pub struct Recipe {
    pub name: String,
    pub name_span: Span,
    pub meta: Vec<Meta>,
    pub bases: Vec<Basis>,
    pub bindings: Vec<Binding>,
    pub span: Span,
}

#[derive(Debug)]
pub struct Menu {
    pub name: String,
    pub name_span: Span,
    pub meta: Vec<Meta>,
    pub entries: Vec<MenuEntry>,
    pub span: Span,
}

#[derive(Debug)]
pub struct MenuEntry {
    pub alias: String,
    /// The referenced recipe: either a bare name or a sub-recipe path.
    pub recipe: MenuTarget,
    pub links: Vec<Link>,
    pub span: Span,
}

#[derive(Debug)]
pub enum MenuTarget {
    Name(String),
    SubRef(SubRef),
}

#[derive(Debug)]
pub struct Meta {
    pub key: String,
    pub value: String,
    pub span: Span,
}

#[derive(Debug)]
pub struct Basis {
    pub name: String,
    pub amount: Amount,
    pub span: Span,
}

#[derive(Debug)]
pub struct Binding {
    pub outputs: Vec<Output>,
    pub value: Expr,
    pub annotations: Vec<Annotation>,
    pub span: Span,
}

#[derive(Debug)]
pub struct Output {
    pub name: String,
    pub amount: Option<Amount>,
    pub span: Span,
}

#[derive(Debug)]
pub enum Expr {
    Call(Call),
    SubRef(SubRef),
    NodeRef(NodeRef),
}

#[derive(Debug)]
pub struct Call {
    pub verb: String,
    pub verb_span: Span,
    pub args: Vec<Arg>,
    pub equipment: Vec<EquipItem>,
    pub span: Span,
}

#[derive(Debug)]
pub enum Arg {
    Call(Call),
    Ingredient(Ingredient),
    Equip(Equip),
    NodeRef(NodeRef),
}

#[derive(Debug)]
pub struct Ingredient {
    pub name: String,
    pub amount: Amount,
    pub qualifier: Option<String>,
    pub span: Span,
}

#[derive(Debug)]
pub struct Equip {
    pub name: String,
    pub temp: Option<Temp>,
    pub span: Span,
}

#[derive(Debug)]
pub enum EquipItem {
    Equip(Equip),
    NodeRef(NodeRef),
}

#[derive(Debug)]
pub struct NodeRef {
    pub name: String,
    /// The `.member` half of a dotted `alias.node` reference (menu scope only).
    pub member: Option<String>,
    pub span: Span,
}

#[derive(Debug)]
pub struct SubRef {
    pub path: Vec<String>,
    pub anchor: Option<String>,
    pub amount: Option<Amount>,
    pub remap: Vec<(String, String)>,
    pub span: Span,
}

#[derive(Debug)]
pub enum Annotation {
    Temp(Temp),
    Timer(Timer),
    /// A free-prose string annotation (qualifier / doneness).
    Doc { text: String, span: Span },
    Flag { name: String, span: Span },
    Link(Link),
}

#[derive(Debug, Clone, Copy, PartialEq, Eq)]
pub struct Temp {
    pub value: Number,
    pub unit: TempUnit,
    pub span: Span,
}

#[derive(Debug, Clone, Copy, PartialEq, Eq)]
pub enum TempUnit {
    F,
    C,
}

#[derive(Debug, Clone, Copy, PartialEq, Eq)]
pub enum Timer {
    Active(DurationRange),
    Passive(DurationRange),
    /// `~?` — unbounded passive.
    Unbounded { span: Span },
}

#[derive(Debug, Clone, Copy, PartialEq, Eq)]
pub struct DurationRange {
    pub low: Duration,
    pub high: Option<Duration>,
    pub span: Span,
}

#[derive(Debug, Clone, Copy, PartialEq, Eq)]
pub struct Duration {
    pub value: Number,
    pub unit: TimeUnit,
}

impl Duration {
    pub open spec fn spec_seconds(self) -> int {
        self.value.nanos * self.unit.spec_seconds()
    }

    /// The length in nanoseconds, for scheduling arithmetic.
    pub fn seconds(&self) -> (r: i128)
        requires
            self.value.wf(),
        ensures
            r == self.spec_seconds(),
    {
        assert(self.value.nanos * self.unit.spec_seconds() <= 1_000_000_000_000_000_000 * 86400)
            by (nonlinear_arith)
            requires
                self.value.nanos <= 1_000_000_000_000_000_000,
                1 <= self.unit.spec_seconds() <= 86400,
        ;
        assert(self.value.nanos * self.unit.spec_seconds() >= -1_000_000_000_000_000_000 * 86400)
            by (nonlinear_arith)
            requires
                self.value.nanos >= -1_000_000_000_000_000_000,
                1 <= self.unit.spec_seconds() <= 86400,
        ;
        self.value.nanos * self.unit.seconds()
    }
}

#[derive(Debug, Clone, Copy, PartialEq, Eq)]
pub enum TimeUnit {
    S,
    M,
    H,
    D,
}

impl TimeUnit {
    pub open spec fn spec_seconds(self) -> int {
        match self {
            TimeUnit::S => 1,
            TimeUnit::M => 60,
            TimeUnit::H => 3600,
            TimeUnit::D => 86400,
        }
    }

    /// Seconds per unit.
    pub fn seconds(&self) -> (r: i128)
        ensures
            r == self.spec_seconds(),
    {
        match self {
            TimeUnit::S => 1,
            TimeUnit::M => 60,
            TimeUnit::H => 3600,
            TimeUnit::D => 86400,
        }
    }
}

#[derive(Debug)]
pub enum Link {
    By { target: NodeRef, span: Span },
    During { target: NodeRef, span: Span },
    Lag { duration: Duration, span: Span },
}

impl Link {
    pub open spec fn spec_span(&self) -> Span {
        match self {
            Link::By { span, .. } => *span,
            Link::During { span, .. } => *span,
            Link::Lag { span, .. } => *span,
        }
    }

    pub fn span(&self) -> (r: Span)
        ensures
            r == self.spec_span(),
    {
        match self {
            Link::By { span, .. } => *span,
            Link::During { span, .. } => *span,
            Link::Lag { span, .. } => *span,
        }
    }
}

/// A classified amount inside `[...]`.
#[derive(Debug)]
pub enum Amount {
    /// One or more `+`-joined terms (`1c`, `1c + 2T`, `50%* flour`).
    Quantity { terms: Vec<Term>, raw: String, span: Span },
    /// `~` — to taste.
    ToTaste { span: Span },
    /// `?` — stated but unquantified.
    Unquantified { span: Span },
}

impl Amount {
    pub open spec fn spec_span(&self) -> Span {
        match self {
            Amount::Quantity { span, .. } => *span,
            Amount::ToTaste { span } => *span,
            Amount::Unquantified { span } => *span,
        }
    }

    pub fn span(&self) -> (r: Span)
        ensures
            r == self.spec_span(),
    {
        match self {
            Amount::Quantity { span, .. } => *span,
            Amount::ToTaste { span } => *span,
            Amount::Unquantified { span } => *span,
        }
    }

    pub open spec fn spec_raw(&self) -> Seq<char> {
        match self {
            Amount::Quantity { raw, .. } => raw@,
            Amount::ToTaste { .. } => seq!['~'],
            Amount::Unquantified { .. } => seq!['?'],
        }
    }

    /// The amount's source text (`~` / `?` for the two special forms).
    pub fn raw(&self) -> (r: String)
        ensures
            r@ == self.spec_raw(),
    {
        match self {
            Amount::Quantity { raw, .. } => raw.clone(),
            Amount::ToTaste { .. } => {
                let mut s = String::new();
                crate::text::push_char(&mut s, '~');
                s
            },
            Amount::Unquantified { .. } => {
                let mut s = String::new();
                crate::text::push_char(&mut s, '?');
                s
            },
        }
    }
}

#[derive(Debug)]
pub enum Term {
    /// A literal measure: `500 g`, `2 T`, `8`, `pinch`.
    Measure { value: Option<Number>, unit: Option<String>, raw: String },
    /// A basis-relative amount: `72% flour` (plain) or `50%* flour` (constituent).
    Basis { percent: Option<Number>, constituent: bool, basis: String, raw: String },
}

} // verus!
