//! The intermediate representation of a cite: a tree of rendered fragments,
//! name blocks, year-suffix hooks, conditional sub-trees and sequences, which
//! disambiguation edits in place.
use vstd::prelude::*;
use crate::edges::{EdgeData, EdgePayload};
use crate::names::NameIR;
use crate::style::{DateVariable, GivenNameDisambiguationRule, NumberVariable, StandardVariable, Variable};

verus! {

/// Whether a group rendered the variables it referenced.
#[derive(Debug, PartialEq, Eq, Structural, Copy, Clone)]
pub enum GroupVars {
    /// Only plain text so far.
    Plain,
    /// At least one referenced variable rendered.
    Important,
    /// Variables were referenced, and none rendered.
    Missing,
    /// Not yet known (a year suffix not yet assigned).
    Unresolved,
    /// The element rendered only empty output.
    OnlyEmpty,
}

/// Combines the group variables of two siblings.
pub open spec fn neighbour_spec(a: GroupVars, b: GroupVars) -> GroupVars {
    if a == GroupVars::Important || b == GroupVars::Important {
        GroupVars::Important
    } else if a == GroupVars::Missing || b == GroupVars::Missing || a == GroupVars::OnlyEmpty || b
        == GroupVars::OnlyEmpty {
        GroupVars::Missing
    } else if a == GroupVars::Unresolved || b == GroupVars::Unresolved {
        GroupVars::Unresolved
    } else {
        GroupVars::Plain
    }
}

impl GroupVars {
    /// Combines the group variables of two siblings.
    pub fn neighbour(self, other: GroupVars) -> (r: GroupVars)
        ensures
            r == neighbour_spec(self, other),
    {
        if self == GroupVars::Important || other == GroupVars::Important {
            GroupVars::Important
        } else if self == GroupVars::Missing || other == GroupVars::Missing || self
            == GroupVars::OnlyEmpty || other == GroupVars::OnlyEmpty {
            GroupVars::Missing
        } else if self == GroupVars::Unresolved || other == GroupVars::Unresolved {
            GroupVars::Unresolved
        } else {
            GroupVars::Plain
        }
    }
}

/// A prefix and a suffix around a group.
#[derive(Debug, Clone)]
pub struct Affixes {
    pub prefix: String,
    pub suffix: String,
}

/// The opening and closing quotation marks of the locale.
#[derive(Debug, Clone)]
pub struct LocalizedQuotes {
    pub opening: String,
    pub closing: String,
}

/// Where a group is laid out in a bibliography entry.
#[derive(Debug, PartialEq, Eq, Structural, Copy, Clone)]
pub enum DisplayMode {
    Block,
    LeftMargin,
    RightInline,
    Indent,
}

/// A rendered fragment, tagged with what it renders.
#[derive(Debug, Clone)]
pub enum CiteEdgeData {
    Output(String),
    Locator(String),
    LocatorLabel(String),
    /// A year suffix that has actually been rendered during disambiguation.
    YearSuffix(String),
    CitationNumber(String),
    CitationNumberLabel(String),
    Frnn(String),
    FrnnLabel(String),
    /// Accessed isn't really part of a reference: it doesn't help to tell one
    /// from another, so matching ignores its text.
    Accessed(String),
    Year(String),
    Term(String),
}

/// The text of a fragment.
pub open spec fn inner_text(d: CiteEdgeData) -> Seq<char> {
    match d {
        CiteEdgeData::Output(x) => x@,
        CiteEdgeData::Locator(x) => x@,
        CiteEdgeData::LocatorLabel(x) => x@,
        CiteEdgeData::YearSuffix(x) => x@,
        CiteEdgeData::CitationNumber(x) => x@,
        CiteEdgeData::CitationNumberLabel(x) => x@,
        CiteEdgeData::Frnn(x) => x@,
        CiteEdgeData::FrnnLabel(x) => x@,
        CiteEdgeData::Accessed(x) => x@,
        CiteEdgeData::Year(x) => x@,
        CiteEdgeData::Term(x) => x@,
    }
}

/// The edge payload of a fragment: its text for plain output, a sentinel otherwise.
pub open spec fn payload_of(d: CiteEdgeData) -> EdgePayload {
    match d {
        CiteEdgeData::Output(x) => EdgePayload::Output(x@),
        CiteEdgeData::Year(x) => EdgePayload::Output(x@),
        CiteEdgeData::Term(x) => EdgePayload::Output(x@),
        CiteEdgeData::YearSuffix(_) => EdgePayload::YearSuffix,
        CiteEdgeData::Frnn(_) => EdgePayload::Frnn,
        CiteEdgeData::FrnnLabel(_) => EdgePayload::FrnnLabel,
        CiteEdgeData::Locator(_) => EdgePayload::Locator,
        CiteEdgeData::LocatorLabel(_) => EdgePayload::LocatorLabel,
        CiteEdgeData::CitationNumber(_) => EdgePayload::CitationNumber,
        CiteEdgeData::CitationNumberLabel(_) => EdgePayload::CitationNumberLabel,
        CiteEdgeData::Accessed(_) => EdgePayload::Accessed,
    }
}

/// The fragment is plain output, not a sentinel.
pub open spec fn is_plain_output(d: CiteEdgeData) -> bool {
    d is Output || d is Year || d is Term
}

impl CiteEdgeData {
    /// The text of this fragment.
    pub fn inner(&self) -> (r: String)
        ensures
            r@ == inner_text(*self),
    {
        match self {
            CiteEdgeData::Output(x) | CiteEdgeData::Term(x) | CiteEdgeData::Year(x)
            | CiteEdgeData::YearSuffix(x) | CiteEdgeData::Frnn(x) | CiteEdgeData::FrnnLabel(x)
            | CiteEdgeData::Locator(x) | CiteEdgeData::LocatorLabel(x)
            | CiteEdgeData::CitationNumber(x) | CiteEdgeData::Accessed(x)
            | CiteEdgeData::CitationNumberLabel(x) => x.clone(),
        }
    }

    /// The edge payload of this fragment.
    pub fn to_edge_data(&self) -> (r: EdgeData)
        ensures
            r@ == payload_of(*self),
    {
        match self {
            CiteEdgeData::Output(x) | CiteEdgeData::Year(x) | CiteEdgeData::Term(x) => {
                EdgeData::Output(x.clone())
            },
            CiteEdgeData::YearSuffix(_) => EdgeData::YearSuffix,
            CiteEdgeData::Frnn(_) => EdgeData::Frnn,
            CiteEdgeData::FrnnLabel(_) => EdgeData::FrnnLabel,
            CiteEdgeData::Locator(_) => EdgeData::Locator,
            CiteEdgeData::LocatorLabel(_) => EdgeData::LocatorLabel,
            CiteEdgeData::CitationNumber(_) => EdgeData::CitationNumber,
            CiteEdgeData::CitationNumberLabel(_) => EdgeData::CitationNumberLabel,
            CiteEdgeData::Accessed(_) => EdgeData::Accessed,
        }
    }
}

impl CiteEdgeData {
    /// The fragment for a rendered number variable (`label` for its label):
    /// locators, first-reference note numbers and citation numbers are
    /// sentinels, other numbers plain output.
    pub fn from_number_variable(var: NumberVariable, label: bool, build: String) -> (r: Self)
        ensures
            r == match (var, label) {
                (NumberVariable::Locator, false) => CiteEdgeData::Locator(build),
                (NumberVariable::Locator, true) => CiteEdgeData::LocatorLabel(build),
                (NumberVariable::FirstReferenceNoteNumber, false) => CiteEdgeData::Frnn(build),
                (NumberVariable::FirstReferenceNoteNumber, true) => CiteEdgeData::FrnnLabel(build),
                (NumberVariable::CitationNumber, false) => CiteEdgeData::CitationNumber(build),
                (NumberVariable::CitationNumber, true) => CiteEdgeData::CitationNumberLabel(build),
                _ => CiteEdgeData::Output(build),
            },
    {
        match (var, label) {
            (NumberVariable::Locator, false) => CiteEdgeData::Locator(build),
            (NumberVariable::Locator, true) => CiteEdgeData::LocatorLabel(build),
            (NumberVariable::FirstReferenceNoteNumber, false) => CiteEdgeData::Frnn(build),
            (NumberVariable::FirstReferenceNoteNumber, true) => CiteEdgeData::FrnnLabel(build),
            (NumberVariable::CitationNumber, false) => CiteEdgeData::CitationNumber(build),
            (NumberVariable::CitationNumber, true) => CiteEdgeData::CitationNumberLabel(build),
            _ => CiteEdgeData::Output(build),
        }
    }

    /// The fragment for a rendered text variable: the year suffix is a
    /// sentinel, others plain output.
    pub fn from_ordinary_variable(var: Variable, build: String) -> (r: Self)
        ensures
            r == match var {
                Variable::YearSuffix => CiteEdgeData::YearSuffix(build),
                _ => CiteEdgeData::Output(build),
            },
    {
        match var {
            Variable::YearSuffix => CiteEdgeData::YearSuffix(build),
            _ => CiteEdgeData::Output(build),
        }
    }

    /// The fragment for a rendered standard variable.
    pub fn from_standard_variable(var: StandardVariable, label: bool, build: String) -> (r: Self)
        ensures
            r == match var {
                StandardVariable::Number(nv) => match (nv, label) {
                    (NumberVariable::Locator, false) => CiteEdgeData::Locator(build),
                    (NumberVariable::Locator, true) => CiteEdgeData::LocatorLabel(build),
                    (NumberVariable::FirstReferenceNoteNumber, false) => CiteEdgeData::Frnn(build),
                    (NumberVariable::FirstReferenceNoteNumber, true) => CiteEdgeData::FrnnLabel(build),
                    (NumberVariable::CitationNumber, false) => CiteEdgeData::CitationNumber(build),
                    (NumberVariable::CitationNumber, true) => CiteEdgeData::CitationNumberLabel(build),
                    _ => CiteEdgeData::Output(build),
                },
                StandardVariable::Ordinary(Variable::YearSuffix) => CiteEdgeData::YearSuffix(build),
                StandardVariable::Ordinary(_) => CiteEdgeData::Output(build),
            },
    {
        match var {
            StandardVariable::Number(nv) => CiteEdgeData::from_number_variable(nv, label, build),
            StandardVariable::Ordinary(v) => CiteEdgeData::from_ordinary_variable(v, build),
        }
    }

    /// The fragment for a rendered date: the accessed date is a sentinel,
    /// others plain output.
    pub fn from_date_variable(var: DateVariable, build: String) -> (r: Self)
        ensures
            r == match var {
                DateVariable::Accessed => CiteEdgeData::Accessed(build),
                _ => CiteEdgeData::Output(build),
            },
    {
        match var {
            DateVariable::Accessed => CiteEdgeData::Accessed(build),
            _ => CiteEdgeData::Output(build),
        }
    }
}

/// How a year-suffix hook entered the tree.
#[derive(Debug, PartialEq, Eq, Structural, Copy, Clone)]
pub enum YearSuffixHook {
    /// The style renders the year-suffix variable itself.
    Explicit,
    /// The suffix goes after the first year.
    Plain,
}

/// A hook where a year suffix will be injected; holds its rendered content.
#[derive(Debug)]
pub struct YearSuffix {
    pub hook: YearSuffixHook,
    pub ir: Box<IR>,
    pub group_vars: GroupVars,
    pub suffix_num: Option<u32>,
}

/// A `<choose>` whose branches may be re-selected when the disambiguate flag
/// flips; holds the branch rendered so far.
#[derive(Debug)]
pub struct ConditionalDisambIR {
    pub ir: Box<IR>,
    pub group_vars: GroupVars,
    pub done: bool,
}

/// Aggregates a cite's name blocks where the style counts names.
#[derive(Debug)]
pub struct IrNameCounter {
    pub name_irs: Vec<NameIR>,
    pub group_vars: GroupVars,
}

/// An ordered group of children, with its delimiter, affixes, quotes and
/// display mode, and the group variables that decide whether it renders.
#[derive(Debug)]
pub struct IrSeq {
    pub contents: Vec<(IR, GroupVars)>,
    pub affixes: Option<Affixes>,
    pub delimiter: String,
    pub display: Option<DisplayMode>,
    pub quotes: Option<LocalizedQuotes>,
    /// If this is None, this sequence is simply an implicit conditional
    pub dropped_gv: Option<GroupVars>,
    /// Font formatting of the group; plain-text output carries no markup, so
    /// it leaves the text as it is.
    pub formatting: Option<Formatting>,
    /// The case transformation applied to the whole group, affixes included.
    pub text_case: TextCase,
}

/// Font formatting of a group.
#[derive(Debug, PartialEq, Eq, Structural, Copy, Clone)]
pub struct Formatting {
    pub italic: bool,
    pub bold: bool,
    pub small_caps: bool,
    pub underline: bool,
}

/// A case transformation of a group's text.
#[derive(Debug, PartialEq, Eq, Structural, Copy, Clone)]
pub enum TextCase {
    AsIs,
    Lowercase,
    Uppercase,
}

/// What `str::to_lowercase` returns for a text.
pub uninterp spec fn lower_of(s: Seq<char>) -> Seq<char>;

/// What `str::to_uppercase` returns for a text.
pub uninterp spec fn upper_of(s: Seq<char>) -> Seq<char>;

/// Relies on `str::to_lowercase`: the result depends on the text alone.
#[verifier::external_body]
fn lowercase(s: &str) -> (r: String)
    ensures
        r@ == lower_of(s@),
{
    s.to_lowercase()
}

/// Relies on `str::to_uppercase`: the result depends on the text alone.
#[verifier::external_body]
fn uppercase(s: &str) -> (r: String)
    ensures
        r@ == upper_of(s@),
{
    s.to_uppercase()
}

/// A text after a case transformation.
pub open spec fn cased(tc: TextCase, s: Seq<char>) -> Seq<char> {
    match tc {
        TextCase::AsIs => s,
        TextCase::Lowercase => lower_of(s),
        TextCase::Uppercase => upper_of(s),
    }
}

/// Applies a case transformation.
pub fn apply_text_case(tc: TextCase, s: String) -> (r: String)
    ensures
        r@ == cased(tc, s@),
{
    match tc {
        TextCase::AsIs => s,
        TextCase::Lowercase => lowercase(s.as_str()),
        TextCase::Uppercase => uppercase(s.as_str()),
    }
}

/// A node of the intermediate representation.
#[derive(Debug)]
pub enum IR {
    /// No (further) disambiguation possible.
    Rendered(Option<CiteEdgeData>),
    /// A name block.
    Name(NameIR),
    /// A `<choose>` re-rendered in the conditional pass.
    ConditionalDisamb(ConditionalDisambIR),
    YearSuffix(YearSuffix),
    Sequence(IrSeq),
    /// Only exists to aggregate the counts of names.
    NameCounter(IrNameCounter),
}

impl IR {
    /// A year-suffix hook with no suffix assigned yet, and its group variables.
    pub fn year_suffix(hook: YearSuffixHook) -> (r: (IR, GroupVars))
        ensures
            r.1 == GroupVars::Unresolved,
            match r.0 {
                IR::YearSuffix(ys) => ys.hook == hook && ys.group_vars == GroupVars::Unresolved
                    && ys.suffix_num is None && *ys.ir == IR::Rendered(None),
                _ => false,
            },
    {
        (
            IR::YearSuffix(YearSuffix {
                hook,
                ir: Box::new(IR::Rendered(None)),
                group_vars: GroupVars::Unresolved,
                suffix_num: None,
            }),
            GroupVars::Unresolved,
        )
    }
}

impl Default for IR {
    /// The empty tree.
    fn default() -> (r: IR)
        ensures
            r == IR::Rendered(None),
    {
        IR::Rendered(None)
    }
}

/// A step of per-cite disambiguation.
#[derive(Debug, PartialEq, Eq, Structural, Copy, Clone)]
pub enum DisambPass {
    AddNames,
    AddGivenName(GivenNameDisambiguationRule),
    AddYearSuffix(u32),
    Conditionals,
}

/// The group variables of `cs`, folded from `init` with `neighbour`.
pub open spec fn fold_gv(init: GroupVars, cs: Seq<(IR, GroupVars)>) -> GroupVars
    decreases cs.len(),
{
    if cs.len() == 0 {
        init
    } else {
        neighbour_spec(fold_gv(init, cs.drop_last()), cs.last().1)
    }
}

/// A sequence renders unless its dropped group variables, folded with its
/// children's, come out `Missing`.
pub open spec fn seq_renders(s: IrSeq) -> bool {
    match s.dropped_gv {
        Some(d) => fold_gv(d, s.contents@) != GroupVars::Missing,
        None => true,
    }
}

/// The overall group variables of a sequence: `Important` where the fold is
/// not `Missing`, `Plain` where it is.
pub open spec fn overall_gv_spec(s: IrSeq) -> Option<GroupVars> {
    match s.dropped_gv {
        Some(d) => Some(
            if fold_gv(d, s.contents@) != GroupVars::Missing {
                GroupVars::Important
            } else {
                GroupVars::Plain
            },
        ),
        None => None,
    }
}

impl IrSeq {
    /// The fold of the dropped group variables with the children's.
    fn fold_children(&self, init: GroupVars) -> (r: GroupVars)
        ensures
            r == fold_gv(init, self.contents@),
    {
        let mut acc = init;
        let mut i: usize = 0;
        assert(self.contents@.take(0) =~= Seq::<(IR, GroupVars)>::empty());
        while i < self.contents.len()
            invariant
                0 <= i <= self.contents@.len(),
                acc == fold_gv(init, self.contents@.take(i as int)),
            decreases self.contents@.len() - i,
        {
            acc = acc.neighbour(self.contents[i].1);
            proof {
                assert(self.contents@.take(i + 1).drop_last() =~= self.contents@.take(i as int));
            }
            i = i + 1;
        }
        assert(self.contents@.take(i as int) =~= self.contents@);
        acc
    }

    /// The overall group variables of this sequence.
    pub fn overall_group_vars(&self) -> (r: Option<GroupVars>)
        ensures
            r == overall_gv_spec(*self),
    {
        match self.dropped_gv {
            Some(dropped) => {
                let acc = self.fold_children(dropped);
                // a group that rendered a variable counts as important
                if acc != GroupVars::Missing {
                    Some(GroupVars::Important)
                } else {
                    Some(GroupVars::Plain)
                }
            },
            None => None,
        }
    }

    /// Whether this sequence renders at all.
    pub fn should_render(&self) -> (r: bool)
        ensures
            r == seq_renders(*self),
    {
        match self.dropped_gv {
            Some(dropped) => self.fold_children(dropped) != GroupVars::Missing,
            None => true,
        }
    }
}

/// The decimal digits of `n`.
pub open spec fn decimal(n: nat) -> Seq<char>
    decreases n,
{
    if n < 10 {
        seq![digit_char(n)]
    } else {
        decimal(n / 10).push(digit_char(n % 10))
    }
}

/// The character of a decimal digit.
pub open spec fn digit_char(d: nat) -> char {
    if d == 0 { '0' } else if d == 1 { '1' } else if d == 2 { '2' } else if d == 3 { '3' }
    else if d == 4 { '4' } else if d == 5 { '5' } else if d == 6 { '6' } else if d == 7 { '7' }
    else if d == 8 { '8' } else { '9' }
}

fn digit_str(d: u32) -> (s: &'static str)
    requires
        d < 10,
    ensures
        s@ == seq![digit_char(d as nat)],
{
    proof {
        reveal_strlit("0"); reveal_strlit("1"); reveal_strlit("2"); reveal_strlit("3");
        reveal_strlit("4"); reveal_strlit("5"); reveal_strlit("6"); reveal_strlit("7");
        reveal_strlit("8"); reveal_strlit("9");
    }
    let s = if d == 0 { "0" } else if d == 1 { "1" } else if d == 2 { "2" } else if d == 3 { "3" }
    else if d == 4 { "4" } else if d == 5 { "5" } else if d == 6 { "6" } else if d == 7 { "7" }
    else if d == 8 { "8" } else { "9" };
    assert(s@ =~= seq![digit_char(d as nat)]);
    s
}

/// The decimal rendering of a number.
pub fn decimal_string(n: u32) -> (s: String)
    ensures
        s@ == decimal(n as nat),
    decreases n,
{
    if n < 10 {
        let mut s = String::new();
        s.append(digit_str(n));
        assert(s@ =~= decimal(n as nat));
        s
    } else {
        let mut s = decimal_string(n / 10);
        s.append(digit_str(n % 10));
        assert(s@ =~= decimal(n as nat));
        s
    }
}

/// The number of names that the name blocks `ns` show.
pub open spec fn names_shown(ns: Seq<NameIR>) -> nat
    decreases ns.len(),
{
    if ns.len() == 0 {
        0
    } else {
        names_shown(ns.drop_last()) + ns.last().current_name_count as nat
    }
}

/// The number of names shown, capped at `u32::MAX`.
pub open spec fn counted(ns: Seq<NameIR>) -> u32 {
    if names_shown(ns) <= u32::MAX {
        names_shown(ns) as u32
    } else {
        u32::MAX
    }
}

impl IrNameCounter {
    /// How many names the counted blocks show, at most `u32::MAX`.
    pub fn count(&self) -> (n: u32)
        ensures
            n == counted(self.name_irs@),
    {
        let mut n: u32 = 0;
        let mut i: usize = 0;
        assert(self.name_irs@.take(0) =~= Seq::<NameIR>::empty());
        while i < self.name_irs.len()
            invariant
                0 <= i <= self.name_irs@.len(),
                n == counted(self.name_irs@.take(i as int)),
            decreases self.name_irs@.len() - i,
        {
            proof {
                assert(self.name_irs@.take(i + 1).drop_last() =~= self.name_irs@.take(i as int));
            }
            let c = self.name_irs[i].current_name_count as u32;
            if n > u32::MAX - c {
                n = u32::MAX;
            } else {
                n = n + c;
            }
            i = i + 1;
        }
        assert(self.name_irs@.take(i as int) =~= self.name_irs@);
        n
    }

    /// The counter rendered as a number of names.
    pub fn render_cite(&self) -> (r: (IR, GroupVars))
        ensures
            r.1 == GroupVars::Important,
            match r.0 {
                IR::Rendered(Some(CiteEdgeData::Output(s))) => s@ == decimal(counted(self.name_irs@) as nat),
                _ => false,
            },
    {
        let count = self.count();
        (IR::Rendered(Some(CiteEdgeData::Output(decimal_string(count)))), GroupVars::Important)
    }
}

/// The pieces `xs` joined with the delimiter `d`.
pub open spec fn join(xs: Seq<Seq<char>>, d: Seq<char>) -> Seq<char>
    decreases xs.len(),
{
    if xs.len() == 0 {
        Seq::empty()
    } else if xs.len() == 1 {
        xs[0]
    } else {
        join(xs.drop_last(), d) + d + xs.last()
    }
}

/// A sequence's body with its quotes, then its affixes, around it, then its
/// text case applied. Formatting and display mode leave plain text as it is.
pub open spec fn wrap_seq(s: IrSeq, body: Seq<char>) -> Seq<char> {
    let quoted = match s.quotes {
        Some(q) => q.opening@ + body + q.closing@,
        None => body,
    };
    cased(
        s.text_case,
        match s.affixes {
            Some(a) => a.prefix@ + quoted + a.suffix@,
            None => quoted,
        },
    )
}

/// The flattened text of a tree; `None` where it renders nothing.
pub open spec fn flat(ir: IR) -> Option<Seq<char>>
    decreases ir,
{
    match ir {
        IR::Rendered(None) => None,
        IR::Rendered(Some(d)) => Some(inner_text(d)),
        IR::Name(n) => flat(*n.ir),
        IR::ConditionalDisamb(c) => flat(*c.ir),
        IR::YearSuffix(y) => flat(*y.ir),
        IR::NameCounter(nc) => Some(decimal(counted(nc.name_irs@) as nat)),
        IR::Sequence(s) => if !seq_renders(s) {
            None
        } else {
            let xs = flat_children(s.contents@);
            if xs.len() == 0 {
                None
            } else {
                Some(wrap_seq(s, join(xs, s.delimiter@)))
            }
        },
    }
}

/// The flattened texts of the children that render.
pub open spec fn flat_children(cs: Seq<(IR, GroupVars)>) -> Seq<Seq<char>>
    decreases cs,
{
    if cs.len() == 0 {
        Seq::empty()
    } else {
        flat_children(cs.drop_last()) + match flat(cs.last().0) {
            Some(x) => seq![x],
            None => Seq::empty(),
        }
    }
}

/// The views of a list of strings.
pub open spec fn strs_view(v: Seq<String>) -> Seq<Seq<char>> {
    v.map_values(|x: String| x@)
}

/// Joins `xs` with the delimiter `d`.
fn join_strings(xs: &Vec<String>, d: &String) -> (r: String)
    ensures
        r@ == join(strs_view(xs@), d@),
{
    let mut out = String::new();
    let mut i: usize = 0;
    assert(strs_view(xs@.take(0)) =~= Seq::<Seq<char>>::empty());
    while i < xs.len()
        invariant
            0 <= i <= xs@.len(),
            out@ == join(strs_view(xs@.take(i as int)), d@),
        decreases xs@.len() - i,
    {
        proof {
            assert(strs_view(xs@.take(i + 1)).drop_last() =~= strs_view(xs@.take(i as int)));
            assert(strs_view(xs@.take(i + 1)).last() == xs@[i as int]@);
        }
        if i > 0 {
            out.append(d.as_str());
        }
        out.append(xs[i].as_str());
        proof {
            if i == 0 {
                assert(out@ =~= xs@[0]@);
            }
        }
        i = i + 1;
    }
    assert(xs@.take(i as int) =~= xs@);
    out
}

impl IR {
    /// Flattens this tree to its text; `None` where it renders nothing.
    pub fn flatten(&self) -> (r: Option<String>)
        ensures
            crate::style::opt_view(r) == flat(*self),
        decreases self,
    {
        match self {
            IR::Rendered(None) => None,
            IR::Rendered(Some(x)) => Some(x.inner()),
            IR::Name(n) => n.ir.flatten(),
            IR::ConditionalDisamb(c) => c.ir.flatten(),
            IR::YearSuffix(y) => y.ir.flatten(),
            IR::NameCounter(nc) => Some(decimal_string(nc.count())),
            IR::Sequence(seq) => seq.flatten_seq(),
        }
    }
}

impl IR {
    /// Flattens children into one group without a delimiter; `None` where none
    /// of them renders.
    pub fn flatten_children(children: &Vec<(IR, GroupVars)>) -> (r: Option<String>)
        ensures
            crate::style::opt_view(r) == (if flat_children(children@).len() == 0 {
                None::<Seq<char>>
            } else {
                Some(join(flat_children(children@), Seq::empty()))
            }),
    {
        let mut xs: Vec<String> = Vec::new();
        let mut i: usize = 0;
        assert(children@.take(0) =~= Seq::<(IR, GroupVars)>::empty());
        assert(strs_view(xs@) =~= Seq::<Seq<char>>::empty());
        while i < children.len()
            invariant
                0 <= i <= children@.len(),
                strs_view(xs@) == flat_children(children@.take(i as int)),
            decreases children@.len() - i,
        {
            proof {
                assert(children@.take(i + 1).drop_last() =~= children@.take(i as int));
            }
            match children[i].0.flatten() {
                Some(x) => {
                    xs.push(x);
                },
                None => {},
            }
            proof {
                assert(strs_view(xs@) =~= flat_children(children@.take(i + 1)));
            }
            i = i + 1;
        }
        assert(children@.take(i as int) =~= children@);
        if xs.len() == 0 {
            return None;
        }
        let empty = String::new();
        Some(join_strings(&xs, &empty))
    }
}

impl IrSeq {
    /// Flattens a sequence: its children that render, joined with the
    /// delimiter, then quoted, then affixed.
    pub fn flatten_seq(&self) -> (r: Option<String>)
        ensures
            crate::style::opt_view(r) == flat(IR::Sequence(*self)),
        decreases self,
    {
        if !self.should_render() {
            return None;
        }
        let mut xs: Vec<String> = Vec::new();
        let mut i: usize = 0;
        assert(self.contents@.take(0) =~= Seq::<(IR, GroupVars)>::empty());
        assert(strs_view(xs@) =~= Seq::<Seq<char>>::empty());
        while i < self.contents.len()
            invariant
                0 <= i <= self.contents@.len(),
                strs_view(xs@) == flat_children(self.contents@.take(i as int)),
            decreases self.contents@.len() - i,
        {
            proof {
                assert(self.contents@.take(i + 1).drop_last() =~= self.contents@.take(i as int));
                assert(decreases_to!(self => self.contents));
            }
            let child = self.contents[i].0.flatten();
            match child {
                Some(x) => {
                    xs.push(x);
                },
                None => {},
            }
            proof {
                assert(strs_view(xs@) =~= flat_children(self.contents@.take(i + 1)));
            }
            i = i + 1;
        }
        assert(self.contents@.take(i as int) =~= self.contents@);
        if xs.len() == 0 {
            return None;
        }
        let body = join_strings(&xs, &self.delimiter);
        let mut quoted = String::new();
        match &self.quotes {
            Some(q) => {
                quoted.append(q.opening.as_str());
                quoted.append(body.as_str());
                quoted.append(q.closing.as_str());
            },
            None => {
                quoted.append(body.as_str());
            },
        }
        let mut out = String::new();
        match &self.affixes {
            Some(a) => {
                out.append(a.prefix.as_str());
                out.append(quoted.as_str());
                out.append(a.suffix.as_str());
            },
            None => {
                out.append(quoted.as_str());
            },
        }
        let out = apply_text_case(self.text_case, out);
        assert(out@ =~= wrap_seq(*self, join(strs_view(xs@), self.delimiter@)));
        Some(out)
    }
}

/// A sequence whose group variables fold to `Missing` renders nothing, and its
/// overall group variables are `Plain`.
pub proof fn lemma_group_suppression(s: IrSeq)
    requires
        s.dropped_gv is Some,
        fold_gv(s.dropped_gv->0, s.contents@) == GroupVars::Missing,
    ensures
        flat(IR::Sequence(s)) is None,
        overall_gv_spec(s) == Some(GroupVars::Plain),
{
}

/// The edge of an output text; none for the empty text.
pub open spec fn text_edge(t: Seq<char>) -> Seq<EdgePayload> {
    if t.len() > 0 {
        seq![EdgePayload::Output(t)]
    } else {
        Seq::empty()
    }
}

/// An edge with a text case applied to its output; sentinels stay.
pub open spec fn case_edge(tc: TextCase, e: EdgePayload) -> EdgePayload {
    match e {
        EdgePayload::Output(t) => EdgePayload::Output(cased(tc, t)),
        _ => e,
    }
}

/// Edges with a text case applied to each output fragment.
pub open spec fn case_edges(tc: TextCase, es: Seq<EdgePayload>) -> Seq<EdgePayload> {
    es.map_values(|e: EdgePayload| case_edge(tc, e))
}

/// Appends `es` to `edges` with the text case applied to each output fragment.
fn push_cased(edges: &mut Vec<EdgeData>, es: &Vec<EdgeData>, tc: TextCase)
    ensures
        edata_view(final(edges)@) == edata_view(old(edges)@) + case_edges(tc, edata_view(es@)),
{
    let mut i: usize = 0;
    assert(edata_view(es@).take(0) =~= Seq::<EdgePayload>::empty());
    assert(edata_view(edges@) =~= edata_view(old(edges)@) + case_edges(tc, edata_view(es@).take(0)));
    while i < es.len()
        invariant
            0 <= i <= es@.len(),
            edata_view(edges@) == edata_view(old(edges)@) + case_edges(tc, edata_view(es@).take(i as int)),
        decreases es@.len() - i,
    {
        let e = match &es[i] {
            EdgeData::Output(t) => EdgeData::Output(apply_text_case(tc, t.clone())),
            EdgeData::YearSuffix => EdgeData::YearSuffix,
            EdgeData::Locator => EdgeData::Locator,
            EdgeData::LocatorLabel => EdgeData::LocatorLabel,
            EdgeData::CitationNumber => EdgeData::CitationNumber,
            EdgeData::CitationNumberLabel => EdgeData::CitationNumberLabel,
            EdgeData::Frnn => EdgeData::Frnn,
            EdgeData::FrnnLabel => EdgeData::FrnnLabel,
            EdgeData::Accessed => EdgeData::Accessed,
        };
        let ghost before = edges@;
        edges.push(e);
        proof {
            lemma_edata_push(before, e);
            assert(e@ == case_edge(tc, es@[i as int]@));
            assert(case_edges(tc, edata_view(es@).take(i + 1)) =~= case_edges(tc, edata_view(es@).take(i as int)).push(
                case_edge(tc, es@[i as int]@),
            ));
        }
        i = i + 1;
    }
    assert(edata_view(es@).take(i as int) =~= edata_view(es@));
}

/// The edges that open a sequence: its prefix, then its opening quote.
pub open spec fn open_edges(s: IrSeq) -> Seq<EdgePayload> {
    (match s.affixes {
        Some(a) => text_edge(a.prefix@),
        None => Seq::empty(),
    }) + (match s.quotes {
        Some(q) => text_edge(q.opening@),
        None => Seq::empty(),
    })
}

/// The edges that close a sequence: its closing quote, then its suffix.
pub open spec fn close_edges(s: IrSeq) -> Seq<EdgePayload> {
    (match s.quotes {
        Some(q) => text_edge(q.closing@),
        None => Seq::empty(),
    }) + (match s.affixes {
        Some(a) => text_edge(a.suffix@),
        None => Seq::empty(),
    })
}

/// The edge lists `parts` with the delimiter edges `d` between them.
pub open spec fn interleave(parts: Seq<Seq<EdgePayload>>, d: Seq<EdgePayload>) -> Seq<EdgePayload>
    decreases parts.len(),
{
    if parts.len() == 0 {
        Seq::empty()
    } else if parts.len() == 1 {
        parts[0]
    } else {
        interleave(parts.drop_last(), d) + d + parts.last()
    }
}

/// The edge stream of a tree: what `flat` renders, fragment by fragment, with
/// sentinels in place of locators, year suffixes, citation numbers and the like.
pub open spec fn edge_list(ir: IR) -> Seq<EdgePayload>
    decreases ir,
{
    match ir {
        IR::Rendered(None) => Seq::empty(),
        IR::Rendered(Some(d)) => seq![payload_of(d)],
        IR::Name(n) => edge_list(*n.ir),
        IR::ConditionalDisamb(c) => edge_list(*c.ir),
        IR::YearSuffix(y) => if empty_spec(*y.ir) {
            Seq::empty()
        } else {
            seq![EdgePayload::YearSuffix]
        },
        IR::NameCounter(nc) => seq![EdgePayload::Output(decimal(counted(nc.name_irs@) as nat))],
        IR::Sequence(s) => if !seq_renders(s) {
            Seq::empty()
        } else {
            let parts = edge_children(s.contents@);
            if parts.len() == 0 {
                Seq::empty()
            } else {
                case_edges(s.text_case, open_edges(s) + interleave(parts, text_edge(s.delimiter@)) + close_edges(s))
            }
        },
    }
}

/// The non-empty edge lists of the children, in order.
pub open spec fn edge_children(cs: Seq<(IR, GroupVars)>) -> Seq<Seq<EdgePayload>>
    decreases cs,
{
    if cs.len() == 0 {
        Seq::empty()
    } else {
        edge_children(cs.drop_last()) + if edge_list(cs.last().0).len() > 0 {
            seq![edge_list(cs.last().0)]
        } else {
            Seq::empty()
        }
    }
}

/// The tree holds no sentinel fragment.
pub open spec fn no_sentinels(ir: IR) -> bool
    decreases ir,
{
    match ir {
        IR::Rendered(None) => true,
        IR::Rendered(Some(d)) => is_plain_output(d),
        IR::Name(n) => no_sentinels(*n.ir),
        IR::ConditionalDisamb(c) => no_sentinels(*c.ir),
        IR::YearSuffix(y) => empty_spec(*y.ir),
        IR::NameCounter(_) => true,
        IR::Sequence(s) => s.text_case == TextCase::AsIs && no_sentinels_children(s.contents@),
    }
}

/// No child holds a sentinel fragment.
pub open spec fn no_sentinels_children(cs: Seq<(IR, GroupVars)>) -> bool
    decreases cs,
{
    if cs.len() == 0 {
        true
    } else {
        no_sentinels_children(cs.drop_last()) && no_sentinels(cs.last().0)
    }
}

/// The text of an edge stream: its output edges, concatenated.
pub open spec fn stream_text(es: Seq<EdgePayload>) -> Seq<char>
    decreases es.len(),
{
    if es.len() == 0 {
        Seq::empty()
    } else {
        stream_text(es.drop_last()) + match es.last() {
            EdgePayload::Output(t) => t,
            _ => Seq::empty(),
        }
    }
}

proof fn lemma_stream_text_concat(a: Seq<EdgePayload>, b: Seq<EdgePayload>)
    ensures
        stream_text(a + b) == stream_text(a) + stream_text(b),
    decreases b.len(),
{
    if b.len() == 0 {
        assert(a + b =~= a);
    } else {
        lemma_stream_text_concat(a, b.drop_last());
        assert((a + b).drop_last() =~= a + b.drop_last());
    }
}

proof fn lemma_stream_text_edge(t: Seq<char>)
    ensures
        stream_text(text_edge(t)) == t,
{
    if t.len() > 0 {
        let one = seq![EdgePayload::Output(t)];
        assert(one.drop_last() =~= Seq::<EdgePayload>::empty());
        assert(stream_text(Seq::<EdgePayload>::empty()) == Seq::<char>::empty());
        assert(one.last() == EdgePayload::Output(t));
        assert(stream_text(one) == stream_text(one.drop_last()) + t);
        assert(Seq::<char>::empty() + t =~= t);
    } else {
        assert(t =~= Seq::<char>::empty());
    }
}

proof fn lemma_interleave_text(parts: Seq<Seq<EdgePayload>>, xs: Seq<Seq<char>>, t: Seq<char>)
    requires
        parts.len() == xs.len(),
        forall|k: int| 0 <= k < parts.len() ==> stream_text(#[trigger] parts[k]) == xs[k],
    ensures
        stream_text(interleave(parts, text_edge(t))) == join(xs, t),
    decreases parts.len(),
{
    if parts.len() > 1 {
        lemma_interleave_text(parts.drop_last(), xs.drop_last(), t);
        let a = interleave(parts.drop_last(), text_edge(t));
        lemma_stream_text_concat(a, text_edge(t));
        lemma_stream_text_concat(a + text_edge(t), parts.last());
        lemma_stream_text_edge(t);
        assert(parts.last() == parts[parts.len() - 1]);
    }
}

/// Edge-stream fidelity: for a tree without sentinels, the texts of the edge
/// stream, concatenated, are the flattened text (the empty text where the tree
/// renders nothing), and the stream is empty exactly where nothing renders.
pub proof fn lemma_edge_stream_fidelity(ir: IR)
    requires
        no_sentinels(ir),
    ensures
        stream_text(edge_list(ir)) == match flat(ir) {
            Some(t) => t,
            None => Seq::<char>::empty(),
        },
        (edge_list(ir).len() == 0) == (flat(ir) is None),
        all_output(edge_list(ir)),
    decreases ir,
{
    assert(stream_text(Seq::<EdgePayload>::empty()) == Seq::<char>::empty());
    match ir {
        IR::Rendered(None) => {},
        IR::Rendered(Some(d)) => {
            assert(seq![payload_of(d)].drop_last() =~= Seq::<EdgePayload>::empty());
        },
        IR::Name(n) => {
            lemma_edge_stream_fidelity(*n.ir);
        },
        IR::ConditionalDisamb(c) => {
            lemma_edge_stream_fidelity(*c.ir);
        },
        IR::YearSuffix(y) => {
            lemma_empty_flat(*y.ir);
            assert(edge_list(ir) =~= Seq::<EdgePayload>::empty());
            assert(stream_text(Seq::<EdgePayload>::empty()) == Seq::<char>::empty());
        },
        IR::NameCounter(nc) => {
            let t = decimal(counted(nc.name_irs@) as nat);
            assert(seq![EdgePayload::Output(t)].drop_last() =~= Seq::<EdgePayload>::empty());
        },
        IR::Sequence(s) => {
            lemma_seq_fidelity(s);
        },
    }
}

#[verifier::rlimit(80)]
proof fn lemma_seq_fidelity(s: IrSeq)
    requires
        no_sentinels(IR::Sequence(s)),
    ensures
        stream_text(edge_list(IR::Sequence(s))) == match flat(IR::Sequence(s)) {
            Some(t) => t,
            None => Seq::<char>::empty(),
        },
        (edge_list(IR::Sequence(s)).len() == 0) == (flat(IR::Sequence(s)) is None),
        all_output(edge_list(IR::Sequence(s))),
    decreases s,
{
    let ir = IR::Sequence(s);
    let plain = open_edges(s) + interleave(edge_children(s.contents@), text_edge(s.delimiter@)) + close_edges(s);
    assert(case_edges(TextCase::AsIs, plain) =~= plain);
            if seq_renders(s) {
        lemma_children_fidelity(s.contents@);
        let parts = edge_children(s.contents@);
        let xs = flat_children(s.contents@);
        if parts.len() > 0 {
            let mid = interleave(parts, text_edge(s.delimiter@));
            lemma_interleave_text(parts, xs, s.delimiter@);
            lemma_stream_text_concat(open_edges(s), mid);
            lemma_stream_text_concat(open_edges(s) + mid, close_edges(s));
            match s.affixes {
                Some(a) => {
                    lemma_stream_text_edge(a.prefix@);
                    lemma_stream_text_edge(a.suffix@);
                },
                None => {},
            }
            match s.quotes {
                Some(q) => {
                    lemma_stream_text_edge(q.opening@);
                    lemma_stream_text_edge(q.closing@);
                },
                None => {},
            }
            let pre_a = match s.affixes { Some(a) => text_edge(a.prefix@), None => Seq::empty() };
            let pre_q = match s.quotes { Some(q) => text_edge(q.opening@), None => Seq::empty() };
            let post_q = match s.quotes { Some(q) => text_edge(q.closing@), None => Seq::empty() };
            let post_a = match s.affixes { Some(a) => text_edge(a.suffix@), None => Seq::empty() };
            lemma_stream_text_concat(pre_a, pre_q);
            lemma_stream_text_concat(post_q, post_a);
            lemma_stream_text_edge(Seq::empty());
            assert(stream_text(Seq::<EdgePayload>::empty()) == Seq::<char>::empty());
            let body = join(xs, s.delimiter@);
            assert(stream_text(edge_list(ir)) =~= wrap_seq(s, body));
            lemma_interleave_output(parts, text_edge(s.delimiter@));
            assert(all_output(edge_list(ir)));
            assert(parts[0].len() > 0);
            assert(edge_list(ir).len() > 0) by {
                lemma_interleave_nonempty(parts, text_edge(s.delimiter@));
            }
        }
    }
}

/// Every edge of the stream is an output edge.
pub open spec fn all_output(es: Seq<EdgePayload>) -> bool {
    forall|i: int| 0 <= i < es.len() ==> (#[trigger] es[i]) is Output
}

proof fn lemma_interleave_output(parts: Seq<Seq<EdgePayload>>, d: Seq<EdgePayload>)
    requires
        all_output(d),
        forall|k: int| 0 <= k < parts.len() ==> all_output(#[trigger] parts[k]),
    ensures
        all_output(interleave(parts, d)),
    decreases parts.len(),
{
    if parts.len() > 1 {
        lemma_interleave_output(parts.drop_last(), d);
        assert(all_output(parts[parts.len() - 1]));
    } else if parts.len() == 1 {
        assert(all_output(parts[0]));
    }
}

/// An empty tree flattens to nothing.
proof fn lemma_empty_flat(ir: IR)
    requires
        empty_spec(ir),
    ensures
        flat(ir) is None,
    decreases ir,
{
    match ir {
        IR::Name(n) => lemma_empty_flat(*n.ir),
        IR::ConditionalDisamb(c) => lemma_empty_flat(*c.ir),
        IR::YearSuffix(y) => lemma_empty_flat(*y.ir),
        IR::Sequence(s) => {
            assert(flat_children(s.contents@) =~= Seq::<Seq<char>>::empty());
        },
        _ => {},
    }
}

proof fn lemma_interleave_nonempty(parts: Seq<Seq<EdgePayload>>, d: Seq<EdgePayload>)
    requires
        parts.len() > 0,
        forall|k: int| 0 <= k < parts.len() ==> (#[trigger] parts[k]).len() > 0,
    ensures
        interleave(parts, d).len() > 0,
    decreases parts.len(),
{
    if parts.len() > 1 {
        assert(parts.last() == parts[parts.len() - 1]);
    }
}

proof fn lemma_children_fidelity(cs: Seq<(IR, GroupVars)>)
    requires
        no_sentinels_children(cs),
    ensures
        edge_children(cs).len() == flat_children(cs).len(),
        forall|k: int|
            0 <= k < edge_children(cs).len() ==> stream_text(#[trigger] edge_children(cs)[k])
                == flat_children(cs)[k] && edge_children(cs)[k].len() > 0 && all_output(edge_children(cs)[k]),
    decreases cs,
{
    if cs.len() > 0 {
        lemma_children_fidelity(cs.drop_last());
        lemma_edge_stream_fidelity(cs.last().0);
        let p = edge_children(cs.drop_last());
        let x = flat_children(cs.drop_last());
        assert forall|k: int| 0 <= k < edge_children(cs).len() implies stream_text(
            #[trigger] edge_children(cs)[k],
        ) == flat_children(cs)[k] && edge_children(cs)[k].len() > 0 && all_output(edge_children(cs)[k]) by {
            if k < p.len() {
                assert(edge_children(cs)[k] == p[k]);
                assert(flat_children(cs)[k] == x[k]);
            }
        }
    }
}

/// The payloads of a list of edge data.
pub open spec fn edata_view(v: Seq<EdgeData>) -> Seq<EdgePayload> {
    v.map_values(|e: EdgeData| e@)
}

proof fn lemma_edata_push(v: Seq<EdgeData>, e: EdgeData)
    ensures
        edata_view(v.push(e)) == edata_view(v) + seq![e@],
{
    assert(edata_view(v.push(e)) =~= edata_view(v) + seq![e@]);
}

proof fn lemma_edata_concat(a: Seq<EdgeData>, b: Seq<EdgeData>)
    ensures
        edata_view(a + b) == edata_view(a) + edata_view(b),
{
    assert(edata_view(a + b) =~= edata_view(a) + edata_view(b));
}

/// Appends the edge of `t`, unless `t` is empty.
fn push_text(edges: &mut Vec<EdgeData>, t: &String)
    ensures
        edata_view(final(edges)@) == edata_view(old(edges)@) + text_edge(t@),
{
    if t.as_str().unicode_len() > 0 {
        let e = EdgeData::Output(t.clone());
        edges.push(e);
        proof {
            lemma_edata_push(old(edges)@, e);
        }
        assert(edata_view(edges@) =~= edata_view(old(edges)@) + text_edge(t@));
    } else {
        assert(edata_view(edges@) =~= edata_view(old(edges)@) + text_edge(t@));
    }
}

impl IR {
    /// Appends this tree's edge stream to `edges`.
    pub fn append_edges(&self, edges: &mut Vec<EdgeData>)
        ensures
            edata_view(final(edges)@) == edata_view(old(edges)@) + edge_list(*self),
        decreases self,
    {
        match self {
            IR::Rendered(None) => {
                assert(edata_view(edges@) =~= edata_view(old(edges)@) + edge_list(*self));
            },
            IR::Rendered(Some(ed)) => {
                let e = ed.to_edge_data();
                edges.push(e);
                proof {
                    lemma_edata_push(old(edges)@, e);
                }
            },
            IR::Name(n) => n.ir.append_edges(edges),
            IR::ConditionalDisamb(c) => c.ir.append_edges(edges),
            IR::YearSuffix(y) => {
                if !y.ir.is_empty() {
                    edges.push(EdgeData::YearSuffix);
                    proof {
                        lemma_edata_push(old(edges)@, EdgeData::YearSuffix);
                    }
                } else {
                    assert(edata_view(edges@) =~= edata_view(old(edges)@) + edge_list(*self));
                }
            },
            IR::NameCounter(nc) => {
                let e = EdgeData::Output(decimal_string(nc.count()));
                edges.push(e);
                proof {
                    lemma_edata_push(old(edges)@, e);
                }
            },
            IR::Sequence(seq) => seq.append_edges(edges),
        }
    }

    /// The edge stream of this tree, which reference matching reads.
    pub fn to_edge_stream(&self) -> (r: Vec<EdgeData>)
        ensures
            edata_view(r@) == edge_list(*self),
    {
        let mut edges: Vec<EdgeData> = Vec::new();
        self.append_edges(&mut edges);
        assert(edata_view(Seq::<EdgeData>::empty()) + edge_list(*self) =~= edge_list(*self));
        edges
    }
}

impl IrSeq {
    /// Appends this sequence's edge stream to `edges`: the children's edges
    /// with delimiter edges between them, inside the quotes and affixes.
    #[verifier::rlimit(60)]
    pub fn append_edges(&self, edges: &mut Vec<EdgeData>)
        ensures
            edata_view(final(edges)@) == edata_view(old(edges)@) + edge_list(IR::Sequence(*self)),
        decreases self,
    {
        if !self.should_render() {
            assert(edata_view(edges@) =~= edata_view(old(edges)@) + edge_list(IR::Sequence(*self)));
            return;
        }
        let ghost d = text_edge(self.delimiter@);
        let has_delim = self.delimiter.as_str().unicode_len() > 0;
        let mut inner: Vec<EdgeData> = Vec::new();
        let mut seen = false;
        let mut i: usize = 0;
        assert(self.contents@.take(0) =~= Seq::<(IR, GroupVars)>::empty());
        assert(edata_view(inner@) =~= Seq::<EdgePayload>::empty());
        while i < self.contents.len()
            invariant
                0 <= i <= self.contents@.len(),
                d == text_edge(self.delimiter@),
                has_delim == (self.delimiter@.len() > 0),
                edata_view(inner@) == interleave(edge_children(self.contents@.take(i as int)), d),
                seen == (edge_children(self.contents@.take(i as int)).len() > 0),
            decreases self.contents@.len() - i,
        {
            let ghost parts = edge_children(self.contents@.take(i as int));
            proof {
                assert(self.contents@.take(i + 1).drop_last() =~= self.contents@.take(i as int));
                assert(decreases_to!(self => self.contents));
            }
            let mut sub: Vec<EdgeData> = Vec::new();
            self.contents[i].0.append_edges(&mut sub);
            assert(edata_view(sub@) =~= edge_list(self.contents@[i as int].0));
            if sub.len() > 0 {
                let ghost before = inner@;
                if seen {
                    if has_delim {
                        let e = EdgeData::Output(self.delimiter.clone());
                        inner.push(e);
                        proof {
                            lemma_edata_push(before, e);
                        }
                    }
                    assert(edata_view(inner@) =~= edata_view(before) + d);
                } else {
                    seen = true;
                }
                let ghost mid = inner@;
                let ghost subs = sub@;
                inner.append(&mut sub);
                proof {
                    lemma_edata_concat(mid, subs);
                    let np = edge_children(self.contents@.take(i + 1));
                    assert(np =~= parts.push(edge_list(self.contents@[i as int].0)));
                    assert(np.drop_last() =~= parts);
                    if parts.len() == 0 {
                        assert(edata_view(inner@) =~= interleave(np, d));
                    } else {
                        assert(edata_view(inner@) =~= interleave(np, d));
                    }
                }
            } else {
                proof {
                    assert(edge_children(self.contents@.take(i + 1)) =~= parts);
                }
            }
            i = i + 1;
        }
        assert(self.contents@.take(i as int) =~= self.contents@);
        if !seen {
            assert(edata_view(edges@) =~= edata_view(old(edges)@) + edge_list(IR::Sequence(*self)));
            return;
        }
        let mut mine: Vec<EdgeData> = Vec::new();
        match &self.affixes {
            Some(a) => push_text(&mut mine, &a.prefix),
            None => {},
        }
        match &self.quotes {
            Some(q) => push_text(&mut mine, &q.opening),
            None => {},
        }
        let ghost e1 = mine@;
        let ghost body = inner@;
        mine.append(&mut inner);
        proof {
            lemma_edata_concat(e1, body);
        }
        match &self.quotes {
            Some(q) => push_text(&mut mine, &q.closing),
            None => {},
        }
        match &self.affixes {
            Some(a) => push_text(&mut mine, &a.suffix),
            None => {},
        }
        assert(edata_view(mine@) =~= open_edges(*self) + interleave(
            edge_children(self.contents@),
            text_edge(self.delimiter@),
        ) + close_edges(*self));
        push_cased(edges, &mine, self.text_case);
    }
}

/// A tree is empty when it is `Rendered(None)`, a sequence without children,
/// or a name block, conditional or year suffix whose content is empty. A name
/// counter always renders a number, so it is never empty.
pub open spec fn empty_spec(ir: IR) -> bool
    decreases ir,
{
    match ir {
        IR::Rendered(None) => true,
        IR::Rendered(Some(_)) => false,
        IR::Sequence(s) => s.contents@.len() == 0,
        IR::Name(n) => empty_spec(*n.ir),
        IR::ConditionalDisamb(c) => empty_spec(*c.ir),
        IR::YearSuffix(y) => empty_spec(*y.ir),
        IR::NameCounter(_) => false,
    }
}

impl IR {
    /// Whether this tree is empty.
    pub fn is_empty(&self) -> (r: bool)
        ensures
            r == empty_spec(*self),
        decreases self,
    {
        match self {
            IR::Rendered(None) => true,
            IR::Rendered(Some(_)) => false,
            IR::Sequence(s) => s.contents.len() == 0,
            IR::Name(n) => n.ir.is_empty(),
            IR::ConditionalDisamb(c) => c.ir.is_empty(),
            IR::YearSuffix(y) => y.ir.is_empty(),
            IR::NameCounter(_) => false,
        }
    }
}

/// The positions of the year-suffix hooks of a tree, in pre-order, each as the
/// path of child indices that leads to it. Conditionals (one child, index 0)
/// and sequences are entered; name blocks and name counters are not.
pub open spec fn hook_paths(ir: IR) -> Seq<Seq<usize>>
    decreases ir,
{
    match ir {
        IR::YearSuffix(_) => seq![Seq::<usize>::empty()],
        IR::ConditionalDisamb(c) => prefix_all(hook_paths(*c.ir), 0),
        IR::Sequence(s) => hook_paths_children(s.contents@),
        _ => Seq::empty(),
    }
}

/// The hook paths of the children, each behind its child's index.
pub open spec fn hook_paths_children(cs: Seq<(IR, GroupVars)>) -> Seq<Seq<usize>>
    decreases cs,
{
    if cs.len() == 0 {
        Seq::empty()
    } else {
        hook_paths_children(cs.drop_last()) + prefix_all(hook_paths(cs.last().0), (cs.len() - 1) as usize)
    }
}

/// Each path behind the index `k`.
pub open spec fn prefix_all(ps: Seq<Seq<usize>>, k: usize) -> Seq<Seq<usize>> {
    ps.map_values(|p: Seq<usize>| seq![k] + p)
}

/// Each path behind the path `pre`.
pub open spec fn under(ps: Seq<Seq<usize>>, pre: Seq<usize>) -> Seq<Seq<usize>> {
    ps.map_values(|p: Seq<usize>| pre + p)
}

/// The views of a list of paths.
pub open spec fn paths_view(v: Seq<Vec<usize>>) -> Seq<Seq<usize>> {
    v.map_values(|p: Vec<usize>| p@)
}

fn path_then(pre: &Vec<usize>, k: usize) -> (r: Vec<usize>)
    ensures
        r@ == pre@.push(k),
{
    let mut r: Vec<usize> = Vec::new();
    let mut i: usize = 0;
    while i < pre.len()
        invariant
            0 <= i <= pre@.len(),
            r@ == pre@.take(i as int),
        decreases pre@.len() - i,
    {
        r.push(pre[i]);
        proof {
            assert(pre@.take(i + 1) =~= pre@.take(i as int).push(pre@[i as int]));
        }
        i = i + 1;
    }
    assert(pre@.take(i as int) =~= pre@);
    r.push(k);
    r
}

proof fn lemma_under_prefix(ps: Seq<Seq<usize>>, pre: Seq<usize>, k: usize)
    ensures
        under(prefix_all(ps, k), pre) == under(ps, pre.push(k)),
{
    assert forall|i: int| 0 <= i < ps.len() implies #[trigger] under(prefix_all(ps, k), pre)[i] == under(ps, pre.push(k))[i] by {
        assert(pre + (seq![k] + ps[i]) =~= pre.push(k) + ps[i]);
    }
    assert(under(prefix_all(ps, k), pre) =~= under(ps, pre.push(k)));
}

proof fn lemma_under_concat(a: Seq<Seq<usize>>, b: Seq<Seq<usize>>, pre: Seq<usize>)
    ensures
        under(a + b, pre) == under(a, pre) + under(b, pre),
{
    assert(under(a + b, pre) =~= under(a, pre) + under(b, pre));
}

impl IR {
    /// Appends, behind `pre`, the paths of this tree's year-suffix hooks.
    fn collect_hooks(&self, pre: &Vec<usize>, out: &mut Vec<Vec<usize>>)
        ensures
            paths_view(final(out)@) == paths_view(old(out)@) + under(hook_paths(*self), pre@),
        decreases self,
    {
        match self {
            IR::YearSuffix(_) => {
                let mut q: Vec<usize> = Vec::new();
                let mut i: usize = 0;
                while i < pre.len()
                    invariant
                        0 <= i <= pre@.len(),
                        q@ == pre@.take(i as int),
                    decreases pre@.len() - i,
                {
                    q.push(pre[i]);
                    proof {
                        assert(pre@.take(i + 1) =~= pre@.take(i as int).push(pre@[i as int]));
                    }
                    i = i + 1;
                }
                assert(pre@.take(i as int) =~= pre@);
                out.push(q);
                proof {
                    assert(under(hook_paths(*self), pre@) =~= seq![pre@]);
                    assert(paths_view(out@) =~= paths_view(old(out)@) + seq![pre@]);
                }
            },
            IR::ConditionalDisamb(c) => {
                let p = path_then(pre, 0);
                c.ir.collect_hooks(&p, out);
                proof {
                    lemma_under_prefix(hook_paths(*c.ir), pre@, 0);
                }
            },
            IR::Sequence(seq) => seq.collect_hooks(pre, out),
            _ => {
                assert(paths_view(out@) =~= paths_view(old(out)@) + under(hook_paths(*self), pre@));
            },
        }
    }

    /// The paths of the year-suffix hooks of this tree, in pre-order.
    pub fn list_year_suffix_hooks(&self) -> (r: Vec<Vec<usize>>)
        ensures
            paths_view(r@) == hook_paths(*self),
    {
        let mut out: Vec<Vec<usize>> = Vec::new();
        let pre: Vec<usize> = Vec::new();
        self.collect_hooks(&pre, &mut out);
        proof {
            assert(under(hook_paths(*self), Seq::<usize>::empty()) =~= hook_paths(*self)) by {
                assert forall|i: int| 0 <= i < hook_paths(*self).len() implies Seq::<usize>::empty()
                    + #[trigger] hook_paths(*self)[i] == hook_paths(*self)[i] by {
                    assert(Seq::<usize>::empty() + hook_paths(*self)[i] =~= hook_paths(*self)[i]);
                }
            }
            assert(paths_view(Seq::<Vec<usize>>::empty()) =~= Seq::<Seq<usize>>::empty());
            assert(Seq::<Seq<usize>>::empty() + hook_paths(*self) =~= hook_paths(*self));
        }
        out
    }
}

impl IrSeq {
    /// Appends, behind `pre`, the paths of the children's year-suffix hooks.
    fn collect_hooks(&self, pre: &Vec<usize>, out: &mut Vec<Vec<usize>>)
        ensures
            paths_view(final(out)@) == paths_view(old(out)@) + under(hook_paths(IR::Sequence(*self)), pre@),
        decreases self,
    {
        let mut i: usize = 0;
        assert(self.contents@.take(0) =~= Seq::<(IR, GroupVars)>::empty());
        assert(paths_view(out@) =~= paths_view(old(out)@) + under(hook_paths_children(self.contents@.take(0)), pre@));
        while i < self.contents.len()
            invariant
                0 <= i <= self.contents@.len(),
                paths_view(out@) == paths_view(old(out)@) + under(hook_paths_children(self.contents@.take(i as int)), pre@),
            decreases self.contents@.len() - i,
        {
            proof {
                assert(decreases_to!(self => self.contents));
            }
            let p = path_then(pre, i);
            let ghost before = paths_view(out@);
            self.contents[i].0.collect_hooks(&p, out);
            proof {
                let cs = self.contents@.take(i + 1);
                assert(cs.drop_last() =~= self.contents@.take(i as int));
                lemma_under_prefix(hook_paths(self.contents@[i as int].0), pre@, i);
                lemma_under_concat(hook_paths_children(self.contents@.take(i as int)), prefix_all(hook_paths(self.contents@[i as int].0), i), pre@);
                assert(paths_view(out@) =~= paths_view(old(out)@) + under(hook_paths_children(cs), pre@));
            }
            i = i + 1;
        }
        assert(self.contents@.take(i as int) =~= self.contents@);
    }
}

/// The group variables that a child reports to its parent once recomputed: a
/// sequence its overall ones; a year suffix, a conditional or a name counter
/// the ones it holds; a rendered fragment or a name block none, so that its
/// entry stays.
pub open spec fn forced_gv(ir: IR) -> Option<GroupVars> {
    match ir {
        IR::Sequence(s) => overall_gv_spec(s),
        IR::YearSuffix(y) => Some(y.group_vars),
        IR::ConditionalDisamb(c) => Some(c.group_vars),
        IR::NameCounter(nc) => Some(nc.group_vars),
        _ => None,
    }
}

/// `b` is `a` with the group variables of every sequence's children
/// recomputed, bottom up.
pub open spec fn regrouped(a: IR, b: IR) -> bool
    decreases a,
{
    match a {
        IR::Sequence(sa) => match b {
            IR::Sequence(sb) => crate::transforms::same_seq_fields(sa, sb) && regrouped_children(
                sa.contents@,
                sb.contents@,
            ),
            _ => false,
        },
        _ => b == a,
    }
}

/// Each child recomputed, and its entry replaced by what it reports.
pub open spec fn regrouped_children(ca: Seq<(IR, GroupVars)>, cb: Seq<(IR, GroupVars)>) -> bool
    decreases ca,
{
    if ca.len() == 0 {
        cb.len() == 0
    } else {
        &&& cb.len() == ca.len()
        &&& regrouped_children(ca.drop_last(), cb.drop_last())
        &&& regrouped(ca.last().0, cb.last().0)
        &&& cb.last().1 == match forced_gv(cb.last().0) {
            Some(g) => g,
            None => ca.last().1,
        }
    }
}

impl IR {
    /// Recomputes the group variables that a sequence stores for its
    /// children, after the tree was edited.
    pub fn recompute_group_vars(&mut self)
        ensures
            regrouped(*old(self), *final(self)),
    {
        match self {
            IR::Sequence(seq) => seq.recompute_group_vars(),
            _ => {},
        }
    }

    /// Recomputes this node and returns the group variables it reports.
    pub fn force_gv(&mut self) -> (r: Option<GroupVars>)
        ensures
            regrouped(*old(self), *final(self)),
            r == forced_gv(*final(self)),
        decreases *old(self),
    {
        match self {
            IR::Rendered(_) => None,
            IR::Sequence(seq) => {
                seq.recompute_group_vars();
                seq.overall_group_vars()
            },
            IR::YearSuffix(ys) => Some(ys.group_vars),
            IR::ConditionalDisamb(c) => Some(c.group_vars),
            IR::Name(_) => None,
            IR::NameCounter(nc) => Some(nc.group_vars),
        }
    }
}

impl IrSeq {
    /// Recomputes the group variables stored for each child.
    pub fn recompute_group_vars(&mut self)
        ensures
            regrouped(IR::Sequence(*old(self)), IR::Sequence(*final(self))),
        decreases *old(self),
    {
        let ghost orig = self.contents@;
        let n = self.contents.len();
        let mut i: usize = 0;
        assert(regrouped_children(orig.take(0), self.contents@.take(0)));
        while i < n
            invariant
                n == orig.len(),
                self.contents@.len() == n,
                0 <= i <= n,
                orig == old(self).contents@,
                crate::transforms::same_seq_fields(*old(self), *self),
                regrouped_children(orig.take(i as int), self.contents@.take(i as int)),
                forall|j: int| i <= j < n ==> self.contents@[j] == orig[j],
            decreases n - i,
        {
            let ghost cur = self.contents@;
            let (mut child, gv) = self.contents.remove(i);
            proof {
                assert(child == orig[i as int].0);
                assert(decreases_to!(*old(self) => old(self).contents));
                assert(decreases_to!(*old(self) => child));
            }
            let forced = child.force_gv();
            let ngv = match forced {
                Some(g) => g,
                None => gv,
            };
            self.contents.insert(i, (child, ngv));
            proof {
                assert(self.contents@ =~= cur.update(i as int, (child, ngv)));
                assert(orig.take(i + 1).drop_last() =~= orig.take(i as int));
                assert(self.contents@.take(i + 1).drop_last() =~= cur.take(i as int));
                assert(cur.take(i as int) =~= self.contents@.take(i as int));
            }
            i = i + 1;
        }
        assert(orig.take(n as int) =~= orig);
        assert(self.contents@.take(n as int) =~= self.contents@);
    }
}

/// The year-suffix number of a tree: the first assigned suffix number among
/// its year-suffix hooks, in pre-order (conditionals and sequences are
/// entered, name blocks and counters are not).
pub open spec fn ys_num(ir: IR) -> Option<u32>
    decreases ir,
{
    match ir {
        IR::YearSuffix(y) => y.suffix_num,
        IR::ConditionalDisamb(c) => ys_num(*c.ir),
        IR::Sequence(s) => ys_num_children(s.contents@),
        _ => None,
    }
}

/// The first year-suffix number among children.
pub open spec fn ys_num_children(cs: Seq<(IR, GroupVars)>) -> Option<u32>
    decreases cs,
{
    if cs.len() == 0 {
        None
    } else {
        match ys_num_children(cs.drop_last()) {
            Some(n) => Some(n),
            None => ys_num(cs.last().0),
        }
    }
}

impl IR {
    /// The year-suffix number of this tree.
    pub fn year_suffix_num(&self) -> (r: Option<u32>)
        ensures
            r == ys_num(*self),
        decreases self,
    {
        match self {
            IR::YearSuffix(y) => y.suffix_num,
            IR::ConditionalDisamb(c) => c.ir.year_suffix_num(),
            IR::Sequence(seq) => seq.year_suffix_num(),
            _ => None,
        }
    }
}

impl IrSeq {
    /// The first year-suffix number among the children.
    pub fn year_suffix_num(&self) -> (r: Option<u32>)
        ensures
            r == ys_num(IR::Sequence(*self)),
        decreases self,
    {
        let mut i: usize = 0;
        assert(self.contents@.take(0) =~= Seq::<(IR, GroupVars)>::empty());
        while i < self.contents.len()
            invariant
                0 <= i <= self.contents@.len(),
                ys_num_children(self.contents@.take(i as int)) is None,
            decreases self.contents@.len() - i,
        {
            proof {
                assert(self.contents@.take(i + 1).drop_last() =~= self.contents@.take(i as int));
                assert(decreases_to!(self => self.contents));
            }
            let r = self.contents[i].0.year_suffix_num();
            if r.is_some() {
                proof {
                    lemma_ys_prefix(self.contents@, i + 1);
                }
                return r;
            }
            i = i + 1;
        }
        assert(self.contents@.take(i as int) =~= self.contents@);
        None
    }
}

proof fn lemma_ys_prefix(cs: Seq<(IR, GroupVars)>, m: int)
    requires
        0 <= m <= cs.len(),
        ys_num_children(cs.take(m)) is Some,
    ensures
        ys_num_children(cs) == ys_num_children(cs.take(m)),
    decreases cs.len(),
{
    if m < cs.len() {
        assert(cs.drop_last().take(m) =~= cs.take(m));
        lemma_ys_prefix(cs.drop_last(), m);
    } else {
        assert(cs.take(m) =~= cs);
    }
}

} // verus!
