use citeproc_disamb::edges::EdgeData;
use citeproc_disamb::ir::{
    Affixes, CiteEdgeData, ConditionalDisambIR, DisambPass, DisplayMode, GroupVars, IrNameCounter, IrSeq,
    LocalizedQuotes, TextCase, YearSuffix, YearSuffixHook, IR,
};
use citeproc_disamb::names::{
    DisambName, DisambNameData, DisambNameRatchet, NameIR, PersonDisambNameRatchet, RefNameIR,
};
use citeproc_disamb::style::{
    DateVariable, GivenNameDisambiguationRule, NameEl, NameForm, NameVariable, NumberVariable, PersonName,
    StandardVariable, Variable,
};

fn text(s: &str) -> IR {
    IR::Rendered(Some(CiteEdgeData::Output(s.to_string())))
}

fn seq(contents: Vec<(IR, GroupVars)>, delim: &str) -> IrSeq {
    IrSeq {
        contents,
        affixes: None,
        delimiter: delim.to_string(),
        display: None,
        quotes: None,
        dropped_gv: None,
        formatting: None,
        text_case: TextCase::AsIs,
    }
}

fn name_block(content: IR) -> NameIR {
    NameIR {
        variable: NameVariable::Author,
        max_name_count: 1,
        current_name_count: 1,
        bump_name_count: 0,
        gn_iter_index: 0,
        disamb_names: Vec::new(),
        ir: Box::new(content),
    }
}

fn outputs(edges: &[EdgeData]) -> String {
    let mut s = String::new();
    for e in edges {
        if let EdgeData::Output(t) = e {
            s.push_str(t);
        }
    }
    s
}

#[test]
fn flatten_applies_delimiter_quotes_and_affixes() {
    let mut s = seq(vec![(text("a"), GroupVars::Plain), (IR::Rendered(None), GroupVars::Plain), (text("b"), GroupVars::Plain)], ", ");
    s.quotes = Some(LocalizedQuotes { opening: "\u{201c}".to_string(), closing: "\u{201d}".to_string() });
    s.affixes = Some(Affixes { prefix: "(".to_string(), suffix: ")".to_string() });
    let ir = IR::Sequence(s);
    assert_eq!(ir.flatten(), Some("(\u{201c}a, b\u{201d})".to_string()));
}

#[test]
fn flatten_empty_sequence_is_none() {
    let ir = IR::Sequence(seq(vec![(IR::Rendered(None), GroupVars::Plain)], ", "));
    assert_eq!(ir.flatten(), None);
    assert!(IR::Sequence(seq(vec![], "")).is_empty());
    assert!(!ir.is_empty());
}

#[test]
fn group_with_missing_variables_renders_nothing() {
    let mut s = seq(vec![(text("Vol."), GroupVars::Plain), (IR::Rendered(None), GroupVars::Missing)], " ");
    s.dropped_gv = Some(GroupVars::Plain);
    assert_eq!(s.overall_group_vars(), Some(GroupVars::Plain));
    let ir = IR::Sequence(s);
    assert_eq!(ir.flatten(), None);
    assert!(ir.to_edge_stream().is_empty());
}

#[test]
fn group_with_important_variable_renders() {
    let mut s = seq(vec![(text("Vol."), GroupVars::Plain), (text("3"), GroupVars::Important), (IR::Rendered(None), GroupVars::Missing)], " ");
    s.dropped_gv = Some(GroupVars::Plain);
    assert_eq!(s.overall_group_vars(), Some(GroupVars::Important));
    assert_eq!(IR::Sequence(s).flatten(), Some("Vol. 3".to_string()));
}

#[test]
fn neighbour_table() {
    assert_eq!(GroupVars::Plain.neighbour(GroupVars::Important), GroupVars::Important);
    assert_eq!(GroupVars::Missing.neighbour(GroupVars::Plain), GroupVars::Missing);
    assert_eq!(GroupVars::OnlyEmpty.neighbour(GroupVars::Unresolved), GroupVars::Missing);
    assert_eq!(GroupVars::Unresolved.neighbour(GroupVars::Plain), GroupVars::Unresolved);
    assert_eq!(GroupVars::Plain.neighbour(GroupVars::Plain), GroupVars::Plain);
}

#[test]
fn edge_stream_text_matches_flatten() {
    let mut inner = seq(vec![(text("x"), GroupVars::Plain), (text("y"), GroupVars::Plain)], "-");
    inner.affixes = Some(Affixes { prefix: "[".to_string(), suffix: "]".to_string() });
    let ir = IR::Sequence(seq(
        vec![
            (IR::Name(name_block(text("Smith"))), GroupVars::Important),
            (IR::Sequence(inner), GroupVars::Plain),
            (IR::Rendered(None), GroupVars::Plain),
        ],
        ", ",
    ));
    let flat = ir.flatten().unwrap();
    assert_eq!(flat, "Smith, [x-y]");
    assert_eq!(outputs(&ir.to_edge_stream()), flat);
}

#[test]
fn edge_stream_uses_sentinels() {
    let ir = IR::Sequence(seq(
        vec![
            (text("Smith"), GroupVars::Plain),
            (IR::Rendered(Some(CiteEdgeData::Locator("12".to_string()))), GroupVars::Plain),
            (IR::Rendered(Some(CiteEdgeData::YearSuffix("a".to_string()))), GroupVars::Plain),
        ],
        " ",
    ));
    let edges = ir.to_edge_stream();
    assert_eq!(edges.len(), 5);
    assert!(matches!(&edges[0], EdgeData::Output(s) if s == "Smith"));
    assert!(matches!(&edges[1], EdgeData::Output(s) if s == " "));
    assert!(matches!(edges[2], EdgeData::Locator));
    assert!(matches!(edges[4], EdgeData::YearSuffix));
}

#[test]
fn name_counter_renders_its_count() {
    let mut a = name_block(text("A"));
    a.current_name_count = 2;
    let mut b = name_block(text("B"));
    b.current_name_count = 3;
    let nc = IrNameCounter { name_irs: vec![a, b], group_vars: GroupVars::Important };
    assert_eq!(nc.count(), 5);
    let (ir, gv) = nc.render_cite();
    assert_eq!(gv, GroupVars::Important);
    assert_eq!(ir.flatten(), Some("5".to_string()));
    let counter = IR::NameCounter(nc);
    assert!(!counter.is_empty());
    assert_eq!(counter.flatten(), Some("5".to_string()));
}

fn year_suffix(hook: YearSuffixHook, content: IR) -> IR {
    IR::YearSuffix(YearSuffix { hook, ir: Box::new(content), group_vars: GroupVars::Unresolved, suffix_num: None })
}

#[test]
fn year_suffix_hooks_in_preorder() {
    let ir = IR::Sequence(seq(
        vec![
            (year_suffix(YearSuffixHook::Plain, IR::Rendered(None)), GroupVars::Unresolved),
            (IR::Name(name_block(year_suffix(YearSuffixHook::Plain, IR::Rendered(None)))), GroupVars::Plain),
            (
                IR::ConditionalDisamb(ConditionalDisambIR {
                    ir: Box::new(IR::Sequence(seq(vec![(text("x"), GroupVars::Plain), (year_suffix(YearSuffixHook::Explicit, IR::Rendered(None)), GroupVars::Unresolved)], ""))),
                    group_vars: GroupVars::Plain,
                    done: false,
                }),
                GroupVars::Plain,
            ),
        ],
        "",
    ));
    assert_eq!(ir.list_year_suffix_hooks(), vec![vec![0], vec![2, 0, 1]]);
    let (hook, gv) = IR::year_suffix(YearSuffixHook::Plain);
    assert_eq!(gv, GroupVars::Unresolved);
    assert_eq!(hook.list_year_suffix_hooks(), vec![Vec::<usize>::new()]);
}

#[test]
fn recompute_group_vars_refolds_children() {
    let mut inner = seq(vec![(text("x"), GroupVars::Important)], "");
    inner.dropped_gv = Some(GroupVars::Plain);
    let mut ir = IR::Sequence(seq(
        vec![
            (IR::Sequence(inner), GroupVars::Missing),
            (year_suffix(YearSuffixHook::Plain, text("a")), GroupVars::Missing),
            (text("t"), GroupVars::Missing),
        ],
        "",
    ));
    ir.recompute_group_vars();
    match &ir {
        IR::Sequence(s) => {
            assert_eq!(s.contents[0].1, GroupVars::Important);
            assert_eq!(s.contents[1].1, GroupVars::Unresolved);
            assert_eq!(s.contents[2].1, GroupVars::Missing);
        }
        _ => panic!("not a sequence"),
    }
}

#[test]
fn split_first_field_redistributes_affixes() {
    let mut s = seq(vec![(text("1."), GroupVars::Plain), (text("Smith"), GroupVars::Important), (text("2000"), GroupVars::Important)], " ");
    s.affixes = Some(Affixes { prefix: "<".to_string(), suffix: ">".to_string() });
    let mut ir = IR::Sequence(s);
    ir.split_first_field();
    match &ir {
        IR::Sequence(outer) => {
            assert!(outer.affixes.is_none());
            assert_eq!(outer.delimiter, " ");
            assert_eq!(outer.contents.len(), 2);
            match (&outer.contents[0].0, &outer.contents[1].0) {
                (IR::Sequence(left), IR::Sequence(right)) => {
                    assert_eq!(left.display, Some(DisplayMode::LeftMargin));
                    assert_eq!(right.display, Some(DisplayMode::RightInline));
                    assert_eq!(left.affixes.as_ref().unwrap().prefix, "<");
                    assert_eq!(left.affixes.as_ref().unwrap().suffix, "");
                    assert_eq!(right.affixes.as_ref().unwrap().suffix, ">");
                    assert_eq!(left.contents.len(), 1);
                    assert_eq!(right.contents.len(), 2);
                }
                _ => panic!("not split"),
            }
            assert_eq!(outer.contents[1].1, GroupVars::Important);
        }
        _ => panic!("not a sequence"),
    }
    // the split-off parts take no delimiter of their own
    assert_eq!(ir.flatten(), Some("<1. Smith2000>".to_string()));
    let mut single = IR::Sequence(seq(vec![(text("only"), GroupVars::Plain)], ""));
    single.split_first_field();
    assert_eq!(single.flatten(), Some("only".to_string()));
}

#[test]
fn suppress_year_with_explicit_suffix() {
    let mut ir = IR::Sequence(seq(
        vec![(
            IR::Sequence(seq(vec![(text("2000"), GroupVars::Important), (year_suffix(YearSuffixHook::Explicit, text("a")), GroupVars::Unresolved)], "")),
            GroupVars::Important,
        )],
        "",
    ));
    assert!(ir.has_explicit_year_suffix());
    ir.suppress_year();
    assert_eq!(ir.flatten(), Some("a".to_string()));
}

#[test]
fn suppress_year_with_plain_suffix() {
    let mut ir = IR::Sequence(seq(
        vec![(text("2000"), GroupVars::Important), (year_suffix(YearSuffixHook::Plain, text("b")), GroupVars::Important)],
        "",
    ));
    assert!(!ir.has_explicit_year_suffix());
    assert!(ir.suppress_first_year(false));
    assert_eq!(ir.flatten(), Some("b".to_string()));
}

#[test]
fn suppress_year_leaves_year_without_suffix() {
    let mut ir = IR::Sequence(seq(
        vec![(text("2000"), GroupVars::Important), (year_suffix(YearSuffixHook::Plain, IR::Rendered(None)), GroupVars::Important)],
        "",
    ));
    ir.suppress_year();
    assert_eq!(ir.flatten(), Some("2000".to_string()));
}

#[test]
fn suppress_names_blanks_first_block_only() {
    let mut ir = IR::Sequence(seq(
        vec![
            (text("see"), GroupVars::Plain),
            (IR::Name(name_block(text("Smith"))), GroupVars::Important),
            (IR::Name(name_block(text("Jones"))), GroupVars::Important),
        ],
        " ",
    ));
    assert_eq!(ir.first_name_block_output(), Some(Some("Smith".to_string())));
    ir.suppress_names();
    assert_eq!(ir.first_name_block_output(), Some(None));
    assert_eq!(ir.flatten(), Some("see Jones".to_string()));
    let mut plain = text("x");
    plain.suppress_names();
    assert_eq!(plain.first_name_block_output(), None);
    assert_eq!(plain.flatten(), Some("x".to_string()));
}

#[test]
fn collapse_to_cnum_reads_numbers() {
    let cnum = |s: &str| IR::Rendered(Some(CiteEdgeData::CitationNumber(s.to_string())));
    assert_eq!(cnum("12").collapse_to_cnum(), Some(12));
    assert_eq!(cnum("+7").collapse_to_cnum(), Some(7));
    assert_eq!(cnum("4294967295").collapse_to_cnum(), Some(4294967295));
    assert_eq!(cnum("4294967296").collapse_to_cnum(), None);
    assert_eq!(cnum("1a").collapse_to_cnum(), None);
    assert_eq!(cnum("").collapse_to_cnum(), None);
    assert_eq!(IR::Sequence(seq(vec![(cnum("3"), GroupVars::Important)], "")).collapse_to_cnum(), Some(3));
    assert_eq!(IR::Sequence(seq(vec![(cnum("3"), GroupVars::Important), (text("x"), GroupVars::Plain)], "")).collapse_to_cnum(), None);
    assert_eq!(text("3").collapse_to_cnum(), None);
}

#[test]
fn edge_data_from_variables() {
    assert!(matches!(CiteEdgeData::from_number_variable(NumberVariable::Locator, true, "p.".to_string()), CiteEdgeData::LocatorLabel(s) if s == "p."));
    assert!(matches!(CiteEdgeData::from_number_variable(NumberVariable::Page, false, "5".to_string()), CiteEdgeData::Output(_)));
    assert!(matches!(CiteEdgeData::from_standard_variable(StandardVariable::Number(NumberVariable::CitationNumber), false, "1".to_string()), CiteEdgeData::CitationNumber(_)));
    assert!(matches!(CiteEdgeData::from_standard_variable(StandardVariable::Ordinary(Variable::YearSuffix), false, "a".to_string()), CiteEdgeData::YearSuffix(_)));
    assert!(matches!(CiteEdgeData::from_ordinary_variable(Variable::Title, "T".to_string()), CiteEdgeData::Output(_)));
    assert!(matches!(CiteEdgeData::from_date_variable(DateVariable::Accessed, "x".to_string()), CiteEdgeData::Accessed(_)));
    assert!(matches!(CiteEdgeData::from_date_variable(DateVariable::Issued, "2000".to_string()), CiteEdgeData::Output(_)));
    assert!(matches!(CiteEdgeData::Frnn("3".to_string()).to_edge_data(), EdgeData::Frnn));
    assert_eq!(CiteEdgeData::Term("and".to_string()).inner(), "and");
}

#[test]
fn default_tree_is_empty() {
    let ir = IR::default();
    assert!(ir.is_empty());
    assert_eq!(ir.flatten(), None);
}

fn person_data(id: &str) -> DisambNameData {
    DisambNameData {
        ref_id: id.to_string(),
        var: NameVariable::Author,
        el: NameEl { form: Some(NameForm::Short), initialize: Some(true), initialize_with: Some(".".to_string()) },
        value: PersonName {
            family: Some("Smith".to_string()),
            given: Some("John".to_string()),
            non_dropping_particle: None,
            dropping_particle: None,
            suffix: None,
            literal: None,
        },
        primary: true,
    }
}

#[test]
fn crank_bumps_on_add_names_only() {
    let mut nir = name_block(text("Smith"));
    assert!(!nir.crank(None));
    assert!(!nir.crank(Some(DisambPass::Conditionals)));
    assert!(!nir.crank(Some(DisambPass::AddGivenName(GivenNameDisambiguationRule::ByCite))));
    assert_eq!(nir.bump_name_count, 0);
    assert!(nir.crank(Some(DisambPass::AddNames)));
    assert_eq!(nir.bump_name_count, 1);
}

#[test]
fn ref_name_ir_keeps_person_ids() {
    let mut nir = name_block(text("Smith"));
    nir.disamb_names = vec![
        DisambNameRatchet::Literal("WHO".to_string()),
        DisambNameRatchet::Person(PersonDisambNameRatchet::new(GivenNameDisambiguationRule::AllNames, DisambName(4), person_data("a"))),
        DisambNameRatchet::Person(PersonDisambNameRatchet::new(GivenNameDisambiguationRule::AllNames, DisambName(9), person_data("b"))),
    ];
    let r = RefNameIR::from_name_ir(&nir);
    assert_eq!(r.variable, NameVariable::Author);
    assert_eq!(r.disamb_name_ids, vec![DisambName(4), DisambName(9)]);
}

#[test]
fn person_ratchet_starts_fresh() {
    let mut r = PersonDisambNameRatchet::new(GivenNameDisambiguationRule::AllNamesWithInitials, DisambName(1), person_data("a"));
    assert_eq!(r.id, DisambName(1));
    assert_eq!(r.iter.next(), Some(citeproc_disamb::names::NameDisambPass::WithFormLong));
    assert_eq!(r.iter.next(), None);
}

#[test]
fn text_case_applies_after_affixes() {
    let mut s = seq(vec![(text("Smith"), GroupVars::Plain), (text("et al"), GroupVars::Plain)], " ");
    s.affixes = Some(Affixes { prefix: "(".to_string(), suffix: "x)".to_string() });
    s.text_case = TextCase::Uppercase;
    assert_eq!(IR::Sequence(s).flatten(), Some("(SMITH ET ALX)".to_string()));
    let mut l = seq(vec![(text("ABC"), GroupVars::Plain)], "");
    l.text_case = TextCase::Lowercase;
    assert_eq!(IR::Sequence(l).flatten(), Some("abc".to_string()));
}

#[test]
fn year_suffix_hook_is_one_sentinel_edge() {
    let with = IR::Sequence(seq(
        vec![(text("2000"), GroupVars::Important), (year_suffix(YearSuffixHook::Plain, text("a")), GroupVars::Important)],
        "",
    ));
    let edges = with.to_edge_stream();
    assert_eq!(edges.len(), 2);
    assert!(matches!(&edges[0], EdgeData::Output(s) if s == "2000"));
    assert!(matches!(edges[1], EdgeData::YearSuffix));
    let without = IR::Sequence(seq(
        vec![(text("2000"), GroupVars::Important), (year_suffix(YearSuffixHook::Plain, IR::Rendered(None)), GroupVars::Important)],
        "",
    ));
    assert_eq!(without.to_edge_stream().len(), 1);
}

#[test]
fn suppress_year_inside_conditional_counts_as_found() {
    let mut ir = IR::Sequence(seq(
        vec![
            (
                IR::ConditionalDisamb(ConditionalDisambIR {
                    ir: Box::new(IR::Sequence(seq(
                        vec![(text("2000"), GroupVars::Important), (year_suffix(YearSuffixHook::Plain, text("a")), GroupVars::Important)],
                        "",
                    ))),
                    group_vars: GroupVars::Important,
                    done: false,
                }),
                GroupVars::Important,
            ),
            (IR::Sequence(seq(
                vec![(text("1999"), GroupVars::Important), (year_suffix(YearSuffixHook::Plain, text("b")), GroupVars::Important)],
                "",
            )), GroupVars::Important),
        ],
        " ",
    ));
    assert!(ir.suppress_first_year(false));
    assert_eq!(ir.flatten(), Some("a 1999b".to_string()));
}

#[test]
fn edge_stream_applies_text_case() {
    let mut s = seq(vec![(text("Smith"), GroupVars::Plain), (IR::Rendered(Some(CiteEdgeData::Locator("p. 3".to_string()))), GroupVars::Plain)], ", ");
    s.text_case = TextCase::Uppercase;
    let edges = IR::Sequence(s).to_edge_stream();
    assert_eq!(edges.len(), 3);
    assert!(matches!(&edges[0], EdgeData::Output(t) if t == "SMITH"));
    assert!(matches!(&edges[1], EdgeData::Output(t) if t == ", "));
    assert!(matches!(edges[2], EdgeData::Locator));
}
