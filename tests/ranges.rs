use citeproc_disamb::ranges::{collapse_ranges, CnumIx, RangePiece};

fn s(cnum: u32) -> CnumIx {
    CnumIx {
        cnum,
        ix: cnum as usize,
    }
}

#[test]
fn range_append() {
    let mut range = RangePiece::Single(CnumIx { cnum: 1, ix: 1 });
    let emit = range.attempt_append(CnumIx { cnum: 2, ix: 2 });
    assert_eq!(
        (range, emit),
        (
            RangePiece::Range(CnumIx { cnum: 1, ix: 1 }, CnumIx { cnum: 2, ix: 2 }),
            None
        )
    );
    let mut range = RangePiece::Single(CnumIx { cnum: 1, ix: 1 });
    let emit = range.attempt_append(CnumIx { cnum: 3, ix: 2 });
    assert_eq!(
        (range, emit),
        (
            RangePiece::Single(CnumIx { cnum: 3, ix: 2 }),
            Some(RangePiece::Single(CnumIx { cnum: 1, ix: 1 }))
        )
    );
}

#[test]
fn range_collapse() {
    assert_eq!(
        collapse_ranges(&[s(1), s(2), s(3)]),
        vec![RangePiece::Range(s(1), s(3))]
    );
    assert_eq!(
        collapse_ranges(&[s(1), s(2), CnumIx { cnum: 4, ix: 3 }]),
        vec![
            RangePiece::Range(s(1), s(2)),
            RangePiece::Single(CnumIx { cnum: 4, ix: 3 })
        ]
    );
}

#[test]
fn range_collapse_empty() {
    assert_eq!(collapse_ranges(&[]), vec![]);
}

#[test]
fn range_collapse_mixed_runs() {
    assert_eq!(
        collapse_ranges(&[s(1), s(2), s(3), s(5), s(6), s(9)]),
        vec![
            RangePiece::Range(s(1), s(3)),
            RangePiece::Range(s(5), s(6)),
            RangePiece::Single(s(9))
        ]
    );
}

#[test]
fn range_append_extends_range() {
    let mut range = RangePiece::Range(s(4), s(5));
    let emit = range.attempt_append(s(6));
    assert_eq!((range, emit), (RangePiece::Range(s(4), s(6)), None));
}

#[test]
fn range_append_does_not_wrap_at_max() {
    let top = CnumIx { cnum: u32::MAX, ix: 0 };
    let zero = CnumIx { cnum: 0, ix: 1 };
    let mut range = RangePiece::Single(top);
    let emit = range.attempt_append(zero);
    assert_eq!((range, emit), (RangePiece::Single(zero), Some(RangePiece::Single(top))));
}

#[test]
fn range_collapse_equal_numbers_do_not_join() {
    assert_eq!(
        collapse_ranges(&[s(2), s(2)]),
        vec![RangePiece::Single(s(2)), RangePiece::Single(s(2))]
    );
}
