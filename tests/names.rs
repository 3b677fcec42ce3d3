use citeproc_disamb::edges::{EdgeData, EdgeInterner};
use citeproc_disamb::names::{
    disambiguated_person_names, DisambName, DisambNameData, NameDisambPass, NameVariantMatcher,
    SingleNameDisambIter, SingleNameDisambMethod,
};
use citeproc_disamb::render::render_person_name;
use citeproc_disamb::style::{GivenNameDisambiguationRule, NameEl, NameForm, NameVariable, PersonName};

fn root_default() -> NameEl {
    NameEl {
        form: None,
        initialize: None,
        initialize_with: None,
    }
}

fn passes(name: &NameEl, rule: GivenNameDisambiguationRule, primary: bool) -> Vec<NameDisambPass> {
    let method = SingleNameDisambMethod::from_rule(rule, primary);
    let mut iter = SingleNameDisambIter::new(method, name);
    let mut out = Vec::new();
    while let Some(p) = iter.next() {
        out.push(p);
    }
    out
}

#[test]
fn test_name_disamb_iter() {
    let mut name = root_default();
    name.form = Some(NameForm::Long); // default
    name.initialize = Some(true); // default
    assert_eq!(passes(&name, GivenNameDisambiguationRule::AllNames, true), vec![]);

    name.form = Some(NameForm::Short);
    assert_eq!(
        passes(&name, GivenNameDisambiguationRule::AllNames, true),
        vec![NameDisambPass::WithFormLong]
    );

    name.form = Some(NameForm::Short);
    assert_eq!(
        passes(&name, GivenNameDisambiguationRule::PrimaryName, true),
        vec![NameDisambPass::WithFormLong]
    );
    assert_eq!(passes(&name, GivenNameDisambiguationRule::PrimaryName, false), vec![]);
    name.initialize_with = Some(".".to_string());
    assert_eq!(
        passes(&name, GivenNameDisambiguationRule::AllNames, true),
        vec![NameDisambPass::WithFormLong, NameDisambPass::WithInitializeFalse]
    );
    assert_eq!(
        passes(&name, GivenNameDisambiguationRule::AllNamesWithInitials, true),
        vec![NameDisambPass::WithFormLong]
    );
}

fn short_initialized() -> NameEl {
    NameEl {
        form: Some(NameForm::Short),
        initialize: Some(true),
        initialize_with: Some(".".to_string()),
    }
}

#[test]
fn scenario_all_names_primary_short() {
    assert_eq!(
        passes(&short_initialized(), GivenNameDisambiguationRule::AllNames, true),
        vec![NameDisambPass::WithFormLong, NameDisambPass::WithInitializeFalse]
    );
}

#[test]
fn scenario_primary_name_non_primary() {
    assert_eq!(passes(&short_initialized(), GivenNameDisambiguationRule::PrimaryName, false), vec![]);
}

#[test]
fn scenario_all_names_with_initials() {
    assert_eq!(
        passes(&short_initialized(), GivenNameDisambiguationRule::AllNamesWithInitials, true),
        vec![NameDisambPass::WithFormLong]
    );
}

#[test]
fn iterator_long_form_initialized_gives_given_name_only() {
    let mut el = short_initialized();
    el.form = Some(NameForm::Long);
    assert_eq!(
        passes(&el, GivenNameDisambiguationRule::ByCite, false),
        vec![NameDisambPass::WithInitializeFalse]
    );
    assert_eq!(passes(&el, GivenNameDisambiguationRule::PrimaryNameWithInitials, true), vec![]);
}

#[test]
fn iterator_is_finite_and_stays_exhausted() {
    let method = SingleNameDisambMethod::from_rule(GivenNameDisambiguationRule::AllNames, true);
    let mut iter = SingleNameDisambIter::new(method, &short_initialized());
    assert_eq!(iter.next(), Some(NameDisambPass::WithFormLong));
    assert_eq!(iter.next(), Some(NameDisambPass::WithInitializeFalse));
    assert_eq!(iter.next(), None);
    assert_eq!(iter.next(), None);
}

#[test]
fn from_rule_table() {
    assert_eq!(SingleNameDisambMethod::from_rule(GivenNameDisambiguationRule::ByCite, false), SingleNameDisambMethod::AddInitialsThenGivenName);
    assert_eq!(SingleNameDisambMethod::from_rule(GivenNameDisambiguationRule::AllNamesWithInitials, false), SingleNameDisambMethod::AddInitials);
    assert_eq!(SingleNameDisambMethod::from_rule(GivenNameDisambiguationRule::PrimaryNameWithInitials, true), SingleNameDisambMethod::AddInitials);
    assert_eq!(SingleNameDisambMethod::from_rule(GivenNameDisambiguationRule::PrimaryNameWithInitials, false), SingleNameDisambMethod::NoExpansion);
}

fn person(given: &str, family: &str) -> PersonName {
    PersonName {
        family: Some(family.to_string()),
        given: Some(given.to_string()),
        non_dropping_particle: None,
        dropping_particle: None,
        suffix: None,
        literal: None,
    }
}

fn data(ref_id: &str, given: &str, family: &str) -> DisambNameData {
    DisambNameData {
        ref_id: ref_id.to_string(),
        var: NameVariable::Author,
        el: short_initialized(),
        value: person(given, family),
        primary: true,
    }
}

#[test]
fn apply_pass_twice_is_once() {
    let mut d = data("a", "John", "Smith");
    d.apply_pass(NameDisambPass::WithInitializeFalse);
    let once = d.el.clone();
    d.apply_pass(NameDisambPass::WithInitializeFalse);
    assert_eq!(d.el.initialize, once.initialize);
    assert_eq!(d.el.form, once.form);
    d.apply_pass(NameDisambPass::WithFormLong);
    d.apply_pass(NameDisambPass::WithFormLong);
    assert_eq!(d.el.form, Some(NameForm::Long));
}

#[test]
fn render_forms() {
    let d = data("a", "John Paul", "Smith");
    assert_eq!(d.single_name(), "Smith");
    let mut long = d.clone();
    long.apply_pass(NameDisambPass::WithFormLong);
    assert_eq!(long.single_name(), "J.P. Smith");
    long.apply_pass(NameDisambPass::WithInitializeFalse);
    assert_eq!(long.single_name(), "John Paul Smith");
}

#[test]
fn render_particles_and_literal() {
    let el = NameEl {
        form: Some(NameForm::Long),
        initialize: Some(false),
        initialize_with: None,
    };
    let mut p = person("Ludwig", "Beethoven");
    p.non_dropping_particle = Some("van".to_string());
    assert_eq!(render_person_name(&el, &p), "Ludwig van Beethoven");
    p.literal = Some("World Health Organization".to_string());
    assert_eq!(render_person_name(&el, &p), "World Health Organization");
}

#[test]
fn render_deterministic_edges() {
    let mut it = EdgeInterner::new();
    let d = data("a", "John", "Smith");
    let e1 = d.single_name_edge(&mut it);
    let e2 = d.clone().single_name_edge(&mut it);
    assert_eq!(e1, e2);
    assert_eq!(it.len(), 1);
}

#[test]
fn interner_dedups_and_distinguishes() {
    let mut it = EdgeInterner::new();
    let a = it.edge(EdgeData::Output("x".to_string()));
    let b = it.edge(EdgeData::YearSuffix);
    let c = it.edge(EdgeData::Output("x".to_string()));
    assert_eq!(a, c);
    assert_ne!(a, b);
    assert!(matches!(it.lookup(b), EdgeData::YearSuffix));
}

#[test]
fn matcher_accepts_every_variant() {
    let table = vec![data("a", "John", "Smith")];
    let mut it = EdgeInterner::new();
    let m = NameVariantMatcher::from_disamb_name(&table, DisambName(0), GivenNameDisambiguationRule::AllNames, &mut it);
    assert_eq!(it.len(), 3);
    let mut d = table[0].clone();
    assert!(m.accepts(d.single_name_edge(&mut it)));
    d.apply_pass(NameDisambPass::WithFormLong);
    assert!(m.accepts(d.single_name_edge(&mut it)));
    d.apply_pass(NameDisambPass::WithInitializeFalse);
    assert!(m.accepts(d.single_name_edge(&mut it)));
    let other = data("b", "Jane", "Doe");
    assert!(!m.accepts(other.single_name_edge(&mut it)));
}

#[test]
fn global_disambiguation_expands_minimally() {
    // Smith J. vs Smith J.: the short forms clash, the initials clash too,
    // the given names differ.
    let table = vec![data("a", "John", "Smith"), data("b", "Jane", "Smith"), data("c", "Ann", "Jones")];
    let mut it = EdgeInterner::new();
    let r = disambiguated_person_names(&table, GivenNameDisambiguationRule::AllNames, true, &mut it);
    assert_eq!(r.len(), 3);
    assert_eq!(r[&0].single_name(), "John Smith");
    assert_eq!(r[&1].single_name(), "Jane Smith");
    assert_eq!(r[&2].single_name(), "Jones");
}

#[test]
fn global_disambiguation_resets_when_nothing_helps() {
    let table = vec![data("a", "John", "Smith"), data("b", "John", "Smith")];
    let mut it = EdgeInterner::new();
    let r = disambiguated_person_names(&table, GivenNameDisambiguationRule::AllNames, true, &mut it);
    assert_eq!(r[&0].el.form, Some(NameForm::Short));
    assert_eq!(r[&0].el.initialize, Some(true));
    assert_eq!(r[&1].single_name(), "Smith");
}

#[test]
fn global_disambiguation_is_off_by_cite() {
    let table = vec![data("a", "John", "Smith"), data("b", "Jane", "Smith")];
    let mut it = EdgeInterner::new();
    let r = disambiguated_person_names(&table, GivenNameDisambiguationRule::ByCite, true, &mut it);
    assert!(r.is_empty());
    let r = disambiguated_person_names(&table, GivenNameDisambiguationRule::AllNames, false, &mut it);
    assert!(r.is_empty());
}

#[test]
fn lookup_reads_table() {
    let table = vec![data("a", "John", "Smith"), data("b", "Jane", "Doe")];
    assert_eq!(DisambName(1).lookup(&table).ref_id, "b");
}

#[test]
fn render_long_form_keeps_suffix() {
    let el = NameEl { form: Some(NameForm::Long), initialize: Some(false), initialize_with: None };
    let mut p = person("John", "Smith");
    p.suffix = Some("Jr.".to_string());
    assert_eq!(render_person_name(&el, &p), "John Smith Jr.");
    let short = NameEl { form: Some(NameForm::Short), initialize: Some(false), initialize_with: None };
    assert_eq!(render_person_name(&short, &p), "Smith");
}
