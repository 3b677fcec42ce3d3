use citeproc_disamb::edges::{Edge, EdgeData, EdgeInterner};
use citeproc_disamb::names::{DisambNameData, NameDisambPass};
use citeproc_disamb::ir::GroupVars;
use citeproc_disamb::nfa::{add_expanded_name_to_graph, names_ref_ir, NameToken, Nfa, NfaEdge};
use citeproc_disamb::style::{GivenNameDisambiguationRule, NameEl, NameForm, NameVariable, PersonName};

#[test]
fn nfa_reads_tokens_and_epsilons() {
    let mut nfa = Nfa::new();
    let s = nfa.add_node();
    let b = nfa.add_node();
    let c = nfa.add_node();
    nfa.mark_start(s);
    nfa.add_edge(s, b, NfaEdge::Epsilon);
    nfa.add_edge(b, c, NfaEdge::Token(Edge(7)));
    nfa.mark_accept(c);
    assert!(nfa.accepts(&[Edge(7)]));
    assert!(!nfa.accepts(&[Edge(8)]));
    assert!(!nfa.accepts(&[]));
    assert!(!nfa.accepts(&[Edge(7), Edge(7)]));
}

#[test]
fn nfa_with_several_starts_is_a_union() {
    let mut nfa = Nfa::new();
    let s1 = nfa.add_node();
    let s2 = nfa.add_node();
    let end = nfa.add_node();
    nfa.mark_start(s1);
    nfa.mark_start(s2);
    nfa.add_edge(s1, end, NfaEdge::Token(Edge(1)));
    nfa.add_edge(s2, end, NfaEdge::Token(Edge(2)));
    nfa.mark_accept(end);
    assert!(nfa.accepts(&[Edge(1)]));
    assert!(nfa.accepts(&[Edge(2)]));
    assert!(!nfa.accepts(&[Edge(3)]));
    let empty = Nfa::new();
    assert!(!empty.accepts(&[]));
}

#[test]
fn expanded_name_graph_accepts_each_variant() {
    let d = DisambNameData {
        ref_id: "a".to_string(),
        var: NameVariable::Author,
        el: NameEl { form: Some(NameForm::Short), initialize: Some(true), initialize_with: Some(".".to_string()) },
        value: PersonName {
            family: Some("Smith".to_string()),
            given: Some("John".to_string()),
            non_dropping_particle: None,
            dropping_particle: None,
            suffix: None,
            literal: None,
        },
        primary: true,
    };
    let mut interner = EdgeInterner::new();
    let mut nfa = Nfa::new();
    let spot = nfa.add_node();
    nfa.mark_start(spot);
    let next = add_expanded_name_to_graph(&mut nfa, d.clone(), spot, GivenNameDisambiguationRule::AllNames, &mut interner);
    assert_eq!(next, 1);
    nfa.mark_accept(next);
    let mut v = d.clone();
    let e0 = v.single_name_edge(&mut interner);
    v.apply_pass(NameDisambPass::WithFormLong);
    let e1 = v.single_name_edge(&mut interner);
    v.apply_pass(NameDisambPass::WithInitializeFalse);
    let e2 = v.single_name_edge(&mut interner);
    assert_eq!(interner.len(), 3);
    assert!(nfa.accepts(&[e0]));
    assert!(nfa.accepts(&[e1]));
    assert!(nfa.accepts(&[e2]));
    assert!(!nfa.accepts(&[e0, e1]));
}

fn smith() -> DisambNameData {
    DisambNameData {
        ref_id: "a".to_string(),
        var: NameVariable::Author,
        el: NameEl { form: Some(NameForm::Short), initialize: Some(true), initialize_with: Some(".".to_string()) },
        value: PersonName {
            family: Some("Smith".to_string()),
            given: Some("John".to_string()),
            non_dropping_particle: None,
            dropping_particle: None,
            suffix: None,
            literal: None,
        },
        primary: true,
    }
}

#[test]
fn names_ref_ir_builds_one_run_per_growing_level() {
    let mut interner = EdgeInterner::new();
    let and = interner.edge(EdgeData::Output(" and ".to_string()));
    let jones = interner.edge(EdgeData::Output("Jones".to_string()));
    let etal = interner.edge(EdgeData::Output(" et al.".to_string()));
    let runs = vec![
        vec![NameToken::Person(smith()), NameToken::Literal(etal)],
        vec![NameToken::Person(smith()), NameToken::Literal(and), NameToken::Literal(jones)],
        vec![NameToken::Person(smith())],
    ];
    let (nfa, gv) = names_ref_ir(&runs, GivenNameDisambiguationRule::AllNames, &mut interner);
    assert_eq!(gv, GroupVars::Important);
    let nfa = nfa.unwrap();
    assert_eq!(nfa.accepting.len(), 2);
    let e0 = smith().single_name_edge(&mut interner);
    let mut long = smith();
    long.apply_pass(NameDisambPass::WithFormLong);
    let e1 = long.single_name_edge(&mut interner);
    assert!(nfa.accepts(&[e0, etal]));
    assert!(nfa.accepts(&[e1, etal]));
    assert!(nfa.accepts(&[e0, and, jones]));
    assert!(!nfa.accepts(&[e0]));
    assert!(!nfa.accepts(&[]));
}

#[test]
fn names_ref_ir_without_names_is_only_empty() {
    let mut interner = EdgeInterner::new();
    let (nfa, gv) = names_ref_ir(&vec![vec![]], GivenNameDisambiguationRule::AllNames, &mut interner);
    assert!(nfa.is_none());
    assert_eq!(gv, GroupVars::OnlyEmpty);
    let (nfa, gv) = names_ref_ir(&vec![], GivenNameDisambiguationRule::AllNames, &mut interner);
    assert!(nfa.is_none());
    assert_eq!(gv, GroupVars::OnlyEmpty);
}
