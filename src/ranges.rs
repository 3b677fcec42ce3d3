//! Compression of citation numbers (or year-suffix numbers) into ranges.
use vstd::prelude::*;

verus! {

/// A citation number together with the position of the cite that carries it.
#[derive(Debug, PartialEq, Eq, Structural, Copy, Clone)]
pub struct CnumIx {
    pub cnum: u32,
    pub ix: usize,
}

/// One piece of a compressed list of numbers.
#[derive(Debug, PartialEq, Eq, Structural, Copy, Clone)]
pub enum RangePiece {
    /// If the length of the range is only two, it should be rendered with a comma anyway
    Range(CnumIx, CnumIx),
    Single(CnumIx),
}

/// The number that a piece ends with.
pub open spec fn piece_end(p: RangePiece) -> CnumIx {
    match p {
        RangePiece::Range(_, end) => end,
        RangePiece::Single(one) => one,
    }
}

/// The number that a piece starts with.
pub open spec fn piece_start(p: RangePiece) -> CnumIx {
    match p {
        RangePiece::Range(start, _) => start,
        RangePiece::Single(one) => one,
    }
}

/// `nxt` directly follows `prv` in the integers.
pub open spec fn follows(prv: CnumIx, nxt: CnumIx) -> bool {
    prv.cnum as int + 1 == nxt.cnum as int
}

/// The piece `p` extended so that it ends with `nxt`.
pub open spec fn extend_piece(p: RangePiece, nxt: CnumIx) -> RangePiece {
    RangePiece::Range(piece_start(p), nxt)
}

/// The pieces of `s`: each maximal run of consecutive numbers becomes one piece,
/// a run of one number a `Single`.
pub open spec fn collapse_spec(s: Seq<CnumIx>) -> Seq<RangePiece>
    decreases s.len(),
{
    if s.len() == 0 {
        Seq::empty()
    } else {
        let rest = collapse_spec(s.drop_last());
        let x = s.last();
        if rest.len() > 0 && follows(piece_end(rest.last()), x) {
            rest.update(rest.len() - 1, extend_piece(rest.last(), x))
        } else {
            rest.push(RangePiece::Single(x))
        }
    }
}

impl RangePiece {
    /// Tries to extend this piece with `nxt`. When `nxt` does not follow the
    /// piece's last number, the piece becomes `Single(nxt)` and the previous
    /// piece is returned, to be emitted.
    pub fn attempt_append(&mut self, nxt: CnumIx) -> (emit: Option<RangePiece>)
        ensures
            follows(piece_end(*old(self)), nxt) ==> {
                &&& emit.is_none()
                &&& *final(self) == extend_piece(*old(self), nxt)
            },
            !follows(piece_end(*old(self)), nxt) ==> {
                &&& emit == Some(*old(self))
                &&& *final(self) == RangePiece::Single(nxt)
            },
    {
        let end = match self {
            RangePiece::Range(_, end) => *end,
            RangePiece::Single(one) => *one,
        };
        if end.cnum < u32::MAX && end.cnum + 1 == nxt.cnum {
            let start = match self {
                RangePiece::Range(start, _) => *start,
                RangePiece::Single(one) => *one,
            };
            *self = RangePiece::Range(start, nxt);
            None
        } else {
            let prev = *self;
            *self = RangePiece::Single(nxt);
            Some(prev)
        }
    }
}

/// Compresses a list of numbers: consecutive integers collapse into
/// `Range(lo, hi)`, and a number that does not follow its predecessor starts a
/// new piece.
pub fn collapse_ranges(nums: &[CnumIx]) -> (pieces: Vec<RangePiece>)
    ensures
        pieces@ == collapse_spec(nums@),
{
    let mut pieces: Vec<RangePiece> = Vec::new();
    if nums.len() == 0 {
        return pieces;
    }
    let mut wip = RangePiece::Single(nums[0]);
    let mut i: usize = 1;
    proof {
        assert(nums@.subrange(0, 1).drop_last() =~= Seq::<CnumIx>::empty());
        assert(collapse_spec(Seq::<CnumIx>::empty()) == Seq::<RangePiece>::empty());
        assert(collapse_spec(nums@.subrange(0, 1)) =~= pieces@.push(wip));
    }
    while i < nums.len()
        invariant
            1 <= i <= nums@.len(),
            collapse_spec(nums@.subrange(0, i as int)) == pieces@.push(wip),
        decreases nums@.len() - i,
    {
        let num = nums[i];
        proof {
            assert(nums@.subrange(0, i + 1).drop_last() =~= nums@.subrange(0, i as int));
        }
        let emit = wip.attempt_append(num);
        match emit {
            Some(e) => {
                pieces.push(e);
            },
            None => {},
        }
        proof {
            assert(collapse_spec(nums@.subrange(0, i + 1)) =~= pieces@.push(wip));
        }
        i = i + 1;
    }
    proof {
        assert(nums@.subrange(0, nums@.len() as int) =~= nums@);
    }
    pieces.push(wip);
    pieces
}

} // verus!
