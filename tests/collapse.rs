use citeproc_disamb::collapse::{group_and_collapse, Cite, Collapse, Unnamed3};
use citeproc_disamb::ir::{CiteEdgeData, GroupVars, IrSeq, TextCase, IR};
use citeproc_disamb::names::NameIR;
use citeproc_disamb::ranges::{CnumIx, RangePiece};
use citeproc_disamb::style::NameVariable;

fn text(s: &str) -> IR {
    IR::Rendered(Some(CiteEdgeData::Output(s.to_string())))
}

fn cite_ir(name: &str, year: &str) -> IR {
    let block = NameIR {
        variable: NameVariable::Author,
        max_name_count: 1,
        current_name_count: 1,
        bump_name_count: 0,
        gn_iter_index: 0,
        disamb_names: Vec::new(),
        ir: Box::new(text(name)),
    };
    IR::Sequence(IrSeq {
        contents: vec![(IR::Name(block), GroupVars::Important), (text(year), GroupVars::Important)],
        affixes: None,
        delimiter: " ".to_string(),
        display: None,
        quotes: None,
        dropped_gv: None,
        formatting: None,
        text_case: TextCase::AsIs,
    })
}

fn cite(id: &str) -> Cite {
    Cite { ref_id: id.to_string(), prefix: None, suffix: None }
}

fn flat(u: &Unnamed3) -> Option<String> {
    u.gen4.flatten()
}

#[test]
fn suppress_names_collapsing_by_year() {
    let mut cites = vec![
        Unnamed3::new(cite("a"), None, cite_ir("Smith", "2000")),
        Unnamed3::new(cite("b"), None, cite_ir("Smith", "2001")),
        Unnamed3::new(cite("c"), None, cite_ir("Smith", "2002")),
    ];
    group_and_collapse(Some(Collapse::Year), &mut cites);
    assert!(cites[0].is_first);
    assert!(!cites[0].should_collapse);
    assert!(cites[1].should_collapse && cites[2].should_collapse);
    assert_eq!(flat(&cites[0]), Some("Smith 2000".to_string()));
    assert_eq!(flat(&cites[1]), Some("2001".to_string()));
    assert_eq!(flat(&cites[2]), Some("2002".to_string()));
    assert_eq!(cites[1].gen4.first_name_block_output(), Some(None));
}

#[test]
fn grouping_leaves_non_adjacent_cites_apart() {
    let mut cites = vec![
        Unnamed3::new(cite("a"), None, cite_ir("Smith", "2000")),
        Unnamed3::new(cite("b"), None, cite_ir("Jones", "1999")),
        Unnamed3::new(cite("c"), None, cite_ir("Smith", "2005")),
    ];
    group_and_collapse(Some(Collapse::Year), &mut cites);
    let ids: Vec<&str> = cites.iter().map(|u| u.cite.ref_id.as_str()).collect();
    assert_eq!(ids, vec!["a", "b", "c"]);
    assert!(cites.iter().all(|u| !u.is_first && !u.should_collapse));
    assert_eq!(flat(&cites[2]), Some("Smith 2005".to_string()));
}

#[test]
fn affixes_keep_cites_apart() {
    let mut b = cite("b");
    b.prefix = Some("see".to_string());
    let mut cites = vec![
        Unnamed3::new(cite("a"), None, cite_ir("Smith", "2000")),
        Unnamed3::new(b, None, cite_ir("Smith", "2001")),
    ];
    group_and_collapse(Some(Collapse::Year), &mut cites);
    assert!(!cites[0].is_first && !cites[1].should_collapse);
    assert_eq!(flat(&cites[1]), Some("Smith 2001".to_string()));
}

#[test]
fn empty_affixes_are_no_barrier() {
    let mut b = cite("b");
    b.suffix = Some(String::new());
    assert!(!b.has_affix());
    let mut cites = vec![
        Unnamed3::new(cite("a"), None, cite_ir("Smith", "2000")),
        Unnamed3::new(b, None, cite_ir("Smith", "2001")),
    ];
    group_and_collapse(None, &mut cites);
    assert!(cites[0].is_first && cites[1].should_collapse);
}

#[test]
fn citation_numbers_collapse_into_ranges() {
    let nums = [1u32, 2, 3, 5, 6, 9];
    let mut cites: Vec<Unnamed3> = nums
        .iter()
        .map(|&n| Unnamed3::new(cite(&n.to_string()), Some(n), text(&n.to_string())))
        .collect();
    group_and_collapse(Some(Collapse::CitationNumber), &mut cites);
    let c = |cnum: u32, ix: usize| CnumIx { cnum, ix };
    assert_eq!(
        cites[0].collapsed_ranges,
        vec![
            RangePiece::Range(c(1, 0), c(3, 2)),
            RangePiece::Range(c(5, 3), c(6, 4)),
            RangePiece::Single(c(9, 5))
        ]
    );
    assert!(!cites[0].vanished);
    assert!(cites[1..].iter().all(|u| u.vanished));
}

#[test]
fn year_suffix_collapse_suppresses_year_too() {
    let suffixed = |name: &str, year: &str, sfx: &str| {
        let mut ir = cite_ir(name, year);
        if let IR::Sequence(s) = &mut ir {
            let year_part = s.contents.pop().unwrap();
            s.contents.push((
                IR::Sequence(IrSeq {
                    contents: vec![
                        year_part,
                        (
                            IR::YearSuffix(citeproc_disamb::ir::YearSuffix {
                                hook: citeproc_disamb::ir::YearSuffixHook::Plain,
                                ir: Box::new(IR::Rendered(Some(CiteEdgeData::YearSuffix(sfx.to_string())))),
                                group_vars: GroupVars::Important,
                                suffix_num: Some(1),
                            }),
                            GroupVars::Important,
                        ),
                    ],
                    affixes: None,
                    delimiter: String::new(),
                    display: None,
                    quotes: None,
                    dropped_gv: None,
                    formatting: None,
                    text_case: TextCase::AsIs,
                }),
                GroupVars::Important,
            ));
        }
        ir
    };
    let mut cites = vec![
        Unnamed3::new(cite("a"), None, suffixed("Smith", "2000", "a")),
        Unnamed3::new(cite("b"), None, suffixed("Smith", "2000", "b")),
    ];
    group_and_collapse(Some(Collapse::YearSuffix), &mut cites);
    assert_eq!(flat(&cites[0]), Some("Smith 2000a".to_string()));
    assert_eq!(flat(&cites[1]), Some("b".to_string()));
}

#[test]
fn adjacent_pairs_each_form_a_group() {
    let mut cites = vec![
        Unnamed3::new(cite("a1"), None, cite_ir("A", "2000")),
        Unnamed3::new(cite("a2"), None, cite_ir("A", "2001")),
        Unnamed3::new(cite("b1"), None, cite_ir("B", "2000")),
        Unnamed3::new(cite("b2"), None, cite_ir("B", "2001")),
        Unnamed3::new(cite("a3"), None, cite_ir("A", "2002")),
    ];
    group_and_collapse(Some(Collapse::Year), &mut cites);
    let ids: Vec<&str> = cites.iter().map(|u| u.cite.ref_id.as_str()).collect();
    assert_eq!(ids, vec!["a1", "a2", "b1", "b2", "a3"]);
    let flags: Vec<(bool, bool)> = cites.iter().map(|u| (u.is_first, u.should_collapse)).collect();
    assert_eq!(flags, vec![(true, false), (false, true), (true, false), (false, true), (false, false)]);
    assert_eq!(flat(&cites[2]), Some("B 2000".to_string()));
    assert_eq!(flat(&cites[3]), Some("2001".to_string()));
    assert_eq!(flat(&cites[4]), Some("A 2002".to_string()));
}

fn with_suffix(name: &str, num: u32) -> IR {
    let mut ir = cite_ir(name, "2000");
    if let IR::Sequence(s) = &mut ir {
        s.contents.push((
            IR::YearSuffix(citeproc_disamb::ir::YearSuffix {
                hook: citeproc_disamb::ir::YearSuffixHook::Plain,
                ir: Box::new(IR::Rendered(Some(CiteEdgeData::YearSuffix(num.to_string())))),
                group_vars: GroupVars::Important,
                suffix_num: Some(num),
            }),
            GroupVars::Important,
        ));
    }
    ir
}

#[test]
fn ranged_year_suffixes_collapse_into_ranges() {
    let mut cites = vec![
        Unnamed3::new(cite("a"), None, with_suffix("Smith", 1)),
        Unnamed3::new(cite("b"), None, with_suffix("Smith", 2)),
        Unnamed3::new(cite("c"), None, with_suffix("Smith", 3)),
        Unnamed3::new(cite("d"), None, with_suffix("Smith", 5)),
    ];
    group_and_collapse(Some(Collapse::YearSuffixRanged), &mut cites);
    let c = |cnum: u32, ix: usize| CnumIx { cnum, ix };
    assert_eq!(
        cites[0].collapsed_year_suffixes,
        vec![RangePiece::Range(c(1, 0), c(3, 2)), RangePiece::Single(c(5, 3))]
    );
    assert!(cites[1].collapsed_year_suffixes.is_empty());
    assert_eq!(cites[1].gen4.first_name_block_output(), Some(None));
}
