//! Cite grouping and collapsing: adjacent cites that share their first name
//! block are grouped, then citation numbers collapse into ranges, or the names
//! (and years) of grouped cites are suppressed.
use vstd::prelude::*;
use crate::ir::{flat, ys_num, IR};
use crate::ranges::{collapse_ranges, collapse_spec, CnumIx, RangePiece};
use crate::transforms::{explicit_ys, first_name_block_spec, names_suppressed, year_suppressed};

verus! {

/// How a style collapses groups of cites.
#[derive(Debug, PartialEq, Eq, Structural, Copy, Clone)]
pub enum Collapse {
    CitationNumber,
    Year,
    YearSuffix,
    YearSuffixRanged,
}

/// The parts of a cite that grouping reads: its reference and the affixes the
/// user gave it.
#[derive(Debug, Clone)]
pub struct Cite {
    pub ref_id: String,
    pub prefix: Option<String>,
    pub suffix: Option<String>,
}

/// The optional text is present and not empty.
pub open spec fn nonempty(s: Option<String>) -> bool {
    s is Some && s->0@.len() > 0
}

impl Cite {
    /// The cite has a prefix of its own.
    pub fn has_prefix(&self) -> (r: bool)
        ensures
            r == nonempty(self.prefix),
    {
        match &self.prefix {
            Some(p) => p.as_str().unicode_len() > 0,
            None => false,
        }
    }

    /// The cite has a suffix of its own.
    pub fn has_suffix(&self) -> (r: bool)
        ensures
            r == nonempty(self.suffix),
    {
        match &self.suffix {
            Some(s) => s.as_str().unicode_len() > 0,
            None => false,
        }
    }

    /// The cite has a prefix or a suffix of its own.
    pub fn has_affix(&self) -> (r: bool)
        ensures
            r == (nonempty(self.prefix) || nonempty(self.suffix)),
    {
        self.has_prefix() || self.has_suffix()
    }
}

/// One cite of a cluster on its way through grouping and collapsing.
#[derive(Debug)]
pub struct Unnamed3 {
    pub cite: Cite,
    pub cnum: Option<u32>,
    pub gen4: IR,
    /// First of a group of cites with the same name
    pub is_first: bool,
    /// Subsequent in a group of cites with the same name
    pub should_collapse: bool,
    /// First of a group of cites with the same year, all with suffixes
    /// (same name implied)
    pub first_of_ys: bool,
    /// Subsequent in a group of cites with the same year, all with suffixes
    /// (same name implied)
    pub collapse_ys: bool,
    /// Ranges of year suffixes (not alphabetic, in its base u32 form)
    pub collapsed_year_suffixes: Vec<RangePiece>,
    /// Ranges of citation numbers
    pub collapsed_ranges: Vec<RangePiece>,
    /// Tagging removed cites is cheaper than memmoving the rest of the Vec
    pub vanished: bool,
}

impl Unnamed3 {
    /// A cite that grouping has not touched yet.
    pub fn new(cite: Cite, cnum: Option<u32>, gen4: IR) -> (r: Self)
        ensures
            r.cite == cite,
            r.cnum == cnum,
            r.gen4 == gen4,
            !r.is_first && !r.should_collapse && !r.first_of_ys && !r.collapse_ys && !r.vanished,
            r.collapsed_year_suffixes@.len() == 0,
            r.collapsed_ranges@.len() == 0,
    {
        Unnamed3 {
            cite,
            gen4,
            cnum,
            is_first: false,
            should_collapse: false,
            first_of_ys: false,
            collapse_ys: false,
            collapsed_year_suffixes: Vec::new(),
            collapsed_ranges: Vec::new(),
            vanished: false,
        }
    }
}

/// The text of a cite's first name block, which groups it.
pub open spec fn key_of(u: Unnamed3) -> Option<Seq<char>> {
    match first_name_block_spec(u.gen4) {
        Some(n) => flat(*n.ir),
        None => None,
    }
}

/// The cite at `i` leads a group that reaches on to `p`: it is first of its
/// group, and every cite after it up to `p` collapses into it.
pub open spec fn run_reaches(cs: Seq<Unnamed3>, i: int, p: int) -> bool {
    &&& 0 <= i < p < cs.len()
    &&& cs[i].is_first
    &&& forall|m: int| i < m <= p ==> (#[trigger] cs[m]).should_collapse
}

/// The cite at `p` follows a group's first cite, in an unbroken run.
pub open spec fn in_run(cs: Seq<Unnamed3>, p: int) -> bool {
    exists|i: int| run_reaches(cs, i, p)
}

/// Some cite before `k` leads a run that reaches `p`.
pub open spec fn in_run_before(cs: Seq<Unnamed3>, p: int, k: int) -> bool {
    exists|i: int| i < k && run_reaches(cs, i, p)
}

/// Two cites agree on everything but their tree.
pub open spec fn same_but_gen(a: Unnamed3, b: Unnamed3) -> bool {
    &&& a.cite == b.cite
    &&& a.cnum == b.cnum
    &&& a.is_first == b.is_first
    &&& a.should_collapse == b.should_collapse
    &&& a.first_of_ys == b.first_of_ys
    &&& a.collapse_ys == b.collapse_ys
    &&& a.collapsed_year_suffixes == b.collapsed_year_suffixes
    &&& a.collapsed_ranges == b.collapsed_ranges
    &&& a.vanished == b.vanished
}

/// Two cites agree on everything but whether they vanished and their ranges.
pub open spec fn same_but_ranges(a: Unnamed3, b: Unnamed3) -> bool {
    &&& a.cite == b.cite
    &&& a.cnum == b.cnum
    &&& a.gen4 == b.gen4
    &&& a.is_first == b.is_first
    &&& a.should_collapse == b.should_collapse
    &&& a.first_of_ys == b.first_of_ys
    &&& a.collapse_ys == b.collapse_ys
    &&& a.collapsed_year_suffixes == b.collapsed_year_suffixes
}

/// Tree `b` is tree `a` with its first name block suppressed, and then, where
/// `also_year` holds, its first year.
pub open spec fn gen_collapsed(a: IR, b: IR, also_year: bool) -> bool {
    if also_year {
        exists|mid: IR| names_suppressed(a, mid) && year_suppressed(mid, b, explicit_ys(mid))
    } else {
        names_suppressed(a, b)
    }
}

/// `b` is `a` with the names (and, where `also_year` holds, the first year)
/// of every cite that follows the first of its group suppressed.
pub open spec fn years_collapsed(a: Seq<Unnamed3>, b: Seq<Unnamed3>, also_year: bool) -> bool {
    &&& b.len() == a.len()
    &&& forall|p: int|
        0 <= p < a.len() ==> {
            &&& same_but_gen(a[p], #[trigger] b[p])
            &&& in_run(a, p) ==> gen_collapsed(a[p].gen4, b[p].gen4, also_year)
            &&& !in_run(a, p) ==> b[p].gen4 == a[p].gen4
        }
}

/// `b` is `a` with the citation numbers of each group collapsed into ranges,
/// held by the group's first cite, and the cites that follow it vanished.
pub open spec fn cnums_collapsed(a: Seq<Unnamed3>, b: Seq<Unnamed3>) -> bool {
    &&& b.len() == a.len()
    &&& forall|p: int|
        0 <= p < a.len() ==> {
            &&& same_but_ranges(a[p], #[trigger] b[p])
            &&& b[p].vanished == (a[p].vanished || in_run(a, p))
            &&& b[p].collapsed_ranges@ == if a[p].is_first {
                collapse_spec(cnums_in(a, p, stop_from(a, p + 1)))
            } else {
                a[p].collapsed_ranges@
            }
        }
}

/// Suppresses the names (and, where `also_year` holds, the first year) of every
/// cite that follows the first of its group.
pub fn collapse_years(cites: &mut Vec<Unnamed3>, also_year: bool)
    ensures
        years_collapsed(old(cites)@, final(cites)@, also_year),
{
    let ghost orig = cites@;
    let n = cites.len();
    let mut ix: usize = 0;
    while ix < n
        invariant
            n == orig.len(),
            cites@.len() == n,
            0 <= ix <= n,
            orig == old(cites)@,
            forall|p: int| 0 <= p < n ==> same_but_gen(orig[p], #[trigger] cites@[p]),
            forall|p: int| 0 <= p < ix && in_run(orig, p) ==> gen_collapsed(orig[p].gen4, (#[trigger] cites@[p]).gen4, also_year),
            forall|p: int| 0 <= p < n && !(p < ix && in_run(orig, p)) ==> (#[trigger] cites@[p]).gen4 == orig[p].gen4,
            ix < n ==> !in_run(orig, ix as int),
        decreases n - ix,
    {
        if cites[ix].is_first {
            let mut j: usize = ix + 1;
            while j < n && cites[j].should_collapse
                invariant
                    n == orig.len(),
                    cites@.len() == n,
                    ix < j <= n,
                    orig == old(cites)@,
                    orig[ix as int].is_first,
                    !in_run(orig, ix as int),
                    forall|m: int| ix < m < j ==> (#[trigger] orig[m]).should_collapse,
                    forall|p: int| 0 <= p < n ==> same_but_gen(orig[p], #[trigger] cites@[p]),
                    forall|p: int| 0 <= p < ix && in_run(orig, p) ==> gen_collapsed(orig[p].gen4, (#[trigger] cites@[p]).gen4, also_year),
                    forall|p: int| ix < p < j ==> in_run(orig, p) && gen_collapsed(orig[p].gen4, (#[trigger] cites@[p]).gen4, also_year),
                    forall|p: int| 0 <= p < n && !(p < ix && in_run(orig, p)) && !(ix < p < j) ==> (#[trigger] cites@[p]).gen4 == orig[p].gen4,
                decreases n - j,
            {
                let ghost cur = cites@;
                let mut u = cites.remove(j);
                let ghost g0 = u.gen4;
                u.gen4.suppress_names();
                let ghost g1 = u.gen4;
                if also_year {
                    u.gen4.suppress_year();
                }
                cites.insert(j, u);
                proof {
                    assert(cites@ =~= cur.update(j as int, u));
                    assert(g0 == orig[j as int].gen4);
                    assert(run_reaches(orig, ix as int, j as int));
                    if also_year {
                        assert(names_suppressed(g0, g1) && year_suppressed(g1, u.gen4, explicit_ys(g1)));
                    }
                    assert(gen_collapsed(orig[j as int].gen4, cites@[j as int].gen4, also_year));
                }
                j = j + 1;
            }
            proof {
                if j < n {
                    assert(!orig[j as int].should_collapse);
                    assert forall|i: int| !#[trigger] run_reaches(orig, i, j as int) by {}
                }
            }
            ix = j;
        } else {
            proof {
                if ix + 1 < n {
                    assert forall|i: int| !#[trigger] run_reaches(orig, i, ix + 1) by {
                        if run_reaches(orig, i, ix + 1) && i < ix {
                            assert(run_reaches(orig, i, ix as int));
                        }
                    }
                }
            }
            ix = ix + 1;
        }
    }
}

/// The first index from `j` on that does not collapse into its predecessor.
pub open spec fn stop_from(cs: Seq<Unnamed3>, j: int) -> int
    decreases cs.len() - j,
{
    if j >= cs.len() || j < 0 || !cs[j].should_collapse {
        j
    } else {
        stop_from(cs, j + 1)
    }
}

/// The citation numbers of the cites from `a` up to `b`, with their positions.
pub open spec fn cnums_in(cs: Seq<Unnamed3>, a: int, b: int) -> Seq<CnumIx>
    decreases b - a,
{
    if b <= a {
        Seq::empty()
    } else {
        cnums_in(cs, a, b - 1) + match cs[b - 1].cnum {
            Some(c) => seq![CnumIx { cnum: c, ix: (b - 1) as usize }],
            None => Seq::empty(),
        }
    }
}

proof fn lemma_stop_from(cs: Seq<Unnamed3>, j: int, k: int)
    requires
        0 <= j <= k <= cs.len(),
        forall|m: int| j <= m < k ==> (#[trigger] cs[m]).should_collapse,
        k == cs.len() || !cs[k].should_collapse,
    ensures
        stop_from(cs, j) == k,
    decreases k - j,
{
    if j < k {
        lemma_stop_from(cs, j + 1, k);
    }
}

/// Collapses the citation numbers of each group into ranges, held by the
/// group's first cite; the cites that follow it vanish.
pub fn collapse_cnums(cites: &mut Vec<Unnamed3>)
    ensures
        cnums_collapsed(old(cites)@, final(cites)@),
{
    let ghost orig = cites@;
    let n = cites.len();
    let mut ix: usize = 0;
    while ix < n
        invariant
            n == orig.len(),
            cites@.len() == n,
            0 <= ix <= n,
            orig == old(cites)@,
            forall|p: int| 0 <= p < n ==> same_but_ranges(orig[p], #[trigger] cites@[p]),
            forall|p: int| 0 <= p < n ==> (#[trigger] cites@[p]).vanished == (orig[p].vanished || in_run_before(orig, p, ix as int)),
            forall|p: int| 0 <= p < n ==> (#[trigger] cites@[p]).collapsed_ranges@ == if orig[p].is_first && p < ix {
                collapse_spec(cnums_in(orig, p, stop_from(orig, p + 1)))
            } else {
                orig[p].collapsed_ranges@
            },
        decreases n - ix,
    {
        if cites[ix].is_first {
            let mut cnums: Vec<CnumIx> = Vec::new();
            match cites[ix].cnum {
                Some(c) => {
                    cnums.push(CnumIx { cnum: c, ix });
                },
                None => {},
            }
            proof {
                assert(cnums_in(orig, ix as int, ix as int) =~= Seq::<CnumIx>::empty());
                assert(cnums@ =~= cnums_in(orig, ix as int, ix + 1));
            }
            let mut j: usize = ix + 1;
            while j < n && cites[j].should_collapse
                invariant
                    n == orig.len(),
                    cites@.len() == n,
                    ix < j <= n,
                    orig == old(cites)@,
                    orig[ix as int].is_first,
                    forall|m: int| ix < m < j ==> (#[trigger] orig[m]).should_collapse,
                    cnums@ == cnums_in(orig, ix as int, j as int),
                    forall|p: int| 0 <= p < n ==> same_but_ranges(orig[p], #[trigger] cites@[p]),
                    forall|p: int| 0 <= p < n ==> (#[trigger] cites@[p]).vanished == (orig[p].vanished || in_run_before(orig, p, ix as int) || (ix < p < j)),
                    forall|p: int| 0 <= p < n ==> (#[trigger] cites@[p]).collapsed_ranges@ == if orig[p].is_first && p < ix {
                        collapse_spec(cnums_in(orig, p, stop_from(orig, p + 1)))
                    } else {
                        orig[p].collapsed_ranges@
                    },
                decreases n - j,
            {
                match cites[j].cnum {
                    Some(c) => {
                        cnums.push(CnumIx { cnum: c, ix: j });
                    },
                    None => {},
                }
                proof {
                    assert(cnums@ =~= cnums_in(orig, ix as int, j + 1));
                }
                let ghost cur = cites@;
                let mut u = cites.remove(j);
                u.vanished = true;
                cites.insert(j, u);
                proof {
                    assert(cites@ =~= cur.update(j as int, u));
                }
                j = j + 1;
            }
            proof {
                lemma_stop_from(orig, ix + 1, j as int);
            }
            let ranges = collapse_ranges(cnums.as_slice());
            let ghost cur = cites@;
            let mut u = cites.remove(ix);
            u.collapsed_ranges = ranges;
            cites.insert(ix, u);
            proof {
                assert(cites@ =~= cur.update(ix as int, u));
                assert forall|p: int| 0 <= p < n implies (#[trigger] cites@[p]).vanished == (orig[p].vanished || in_run_before(orig, p, ix + 1)) by {
                    if run_reaches(orig, ix as int, p) {
                        assert(ix < p);
                        if p >= j {
                            assert(orig[j as int].should_collapse);
                        }
                    }
                    if ix < p < j {
                        assert(run_reaches(orig, ix as int, p));
                    }
                    if in_run_before(orig, p, ix + 1) && !in_run_before(orig, p, ix as int) {
                        assert(run_reaches(orig, ix as int, p));
                    }
                }
            }
        } else {
            proof {
                assert forall|p: int| 0 <= p < n implies (#[trigger] cites@[p]).vanished == (orig[p].vanished || in_run_before(orig, p, ix + 1)) by {
                    if in_run_before(orig, p, ix + 1) && !in_run_before(orig, p, ix as int) {
                        assert(run_reaches(orig, ix as int, p));
                    }
                }
            }
        }
        ix = ix + 1;
    }
    proof {
        assert forall|p: int| 0 <= p < n implies (#[trigger] cites@[p]).vanished == (orig[p].vanished || in_run(orig, p)) by {
            if in_run(orig, p) {
                let i = choose|i: int| run_reaches(orig, i, p);
                assert(i < n);
            }
        }
    }
}

/// A cite with its grouping flags raised where `first` and `coll` say.
pub open spec fn with_flags(u: Unnamed3, first: bool, coll: bool) -> Unnamed3 {
    Unnamed3 { is_first: u.is_first || first, should_collapse: u.should_collapse || coll, ..u }
}

/// The input cite `q` has a prefix of its own.
pub open spec fn pre_of(orig: Seq<Unnamed3>, q: int) -> bool {
    0 <= q < orig.len() && nonempty(orig[q].cite.prefix)
}

/// The input cite `q` has a suffix of its own.
pub open spec fn suf_of(orig: Seq<Unnamed3>, q: int) -> bool {
    0 <= q < orig.len() && nonempty(orig[q].cite.suffix)
}

/// The cite at `i` joins the cite before it: both have a first name block
/// that renders, the two render the same, and no affix of their own stands
/// between them (the earlier one's suffix, the later one's prefix or suffix).
pub open spec fn joins(cs: Seq<Unnamed3>, i: int) -> bool {
    &&& 1 <= i < cs.len()
    &&& key_of(cs[i]) is Some
    &&& key_of(cs[i]) == key_of(cs[i - 1])
    &&& !suf_of(cs, i - 1)
    &&& !pre_of(cs, i)
    &&& !suf_of(cs, i)
}

/// The cite at `i` starts a run of at least two adjacent cites that join.
pub open spec fn starts_run(cs: Seq<Unnamed3>, i: int) -> bool {
    !joins(cs, i) && joins(cs, i + 1)
}

/// The cites after grouping, in the order given: each maximal run of adjacent
/// cites that join has its first cite marked first of the group and the rest
/// marked to collapse into it; no cite moves.
pub open spec fn grouped(orig: Seq<Unnamed3>) -> Seq<Unnamed3> {
    Seq::new(orig.len(), |p: int| with_flags(orig[p], starts_run(orig, p), joins(orig, p)))
}

fn set_first(cites: &mut Vec<Unnamed3>, i: usize)
    requires
        i < old(cites)@.len(),
    ensures
        final(cites)@ == old(cites)@.update(i as int, Unnamed3 { is_first: true, ..old(cites)@[i as int] }),
{
    let mut u = cites.remove(i);
    u.is_first = true;
    cites.insert(i, u);
    assert(cites@ =~= old(cites)@.update(i as int, Unnamed3 { is_first: true, ..old(cites)@[i as int] }));
}

fn set_collapse(cites: &mut Vec<Unnamed3>, i: usize)
    requires
        i < old(cites)@.len(),
    ensures
        final(cites)@ == old(cites)@.update(i as int, Unnamed3 { should_collapse: true, ..old(cites)@[i as int] }),
{
    let mut u = cites.remove(i);
    u.should_collapse = true;
    cites.insert(i, u);
    assert(cites@ =~= old(cites)@.update(i as int, Unnamed3 { should_collapse: true, ..old(cites)@[i as int] }));
}

/// Groups adjacent cites that share the text of their first name block.
pub fn group_by_name(cites: &mut Vec<Unnamed3>)
    ensures
        final(cites)@ == grouped(old(cites)@),
{
    let ghost orig = cites@;
    let n = cites.len();
    // the first name block's text of each cite
    let mut keys: Vec<Option<String>> = Vec::new();
    let mut i: usize = 0;
    while i < n
        invariant
            n == orig.len(),
            orig == cites@,
            0 <= i <= n,
            keys@.len() == i,
            forall|q: int| 0 <= q < i ==> crate::style::opt_view(#[trigger] keys@[q]) == key_of(orig[q]),
        decreases n - i,
    {
        let k = match cites[i].gen4.first_name_block_output() {
            Some(Some(s)) => Some(s),
            _ => None,
        };
        keys.push(k);
        i = i + 1;
    }
    // whether each cite joins the one before it
    let mut join: Vec<bool> = Vec::new();
    let mut i: usize = 0;
    while i < n
        invariant
            n == orig.len(),
            orig == cites@,
            keys@.len() == n,
            forall|q: int| 0 <= q < n ==> crate::style::opt_view(#[trigger] keys@[q]) == key_of(orig[q]),
            0 <= i <= n,
            join@.len() == i,
            forall|q: int| 0 <= q < i ==> #[trigger] join@[q] == joins(orig, q),
        decreases n - i,
    {
        let mut j = false;
        if i >= 1 {
            let same = match (&keys[i], &keys[i - 1]) {
                (Some(a), Some(b)) => *a == *b,
                _ => false,
            };
            proof {
                assert(crate::style::opt_view(keys@[i as int]) == key_of(orig[i as int]));
                assert(crate::style::opt_view(keys@[i - 1]) == key_of(orig[i - 1]));
            }
            j = same && !cites[i - 1].cite.has_suffix() && !cites[i].cite.has_prefix()
                && !cites[i].cite.has_suffix();
        }
        join.push(j);
        i = i + 1;
    }
    let mut p: usize = 0;
    while p < n
        invariant
            n == orig.len(),
            cites@.len() == n,
            join@.len() == n,
            forall|q: int| 0 <= q < n ==> #[trigger] join@[q] == joins(orig, q),
            0 <= p <= n,
            forall|q: int| 0 <= q < p ==> #[trigger] cites@[q] == grouped(orig)[q],
            forall|q: int| p <= q < n ==> #[trigger] cites@[q] == orig[q],
        decreases n - p,
    {
        let first = !join[p] && p + 1 < n && join[p + 1];
        let ghost c0 = cites@;
        if first {
            set_first(cites, p);
        }
        if join[p] {
            set_collapse(cites, p);
        }
        proof {
            assert(first == starts_run(orig, p as int));
            assert(cites@[p as int] == with_flags(orig[p as int], starts_run(orig, p as int), joins(orig, p as int)));
            assert forall|q: int| 0 <= q < n && q != p implies #[trigger] cites@[q] == c0[q] by {}
        }
        p = p + 1;
    }
    assert(cites@ =~= grouped(orig));
}

/// The year-suffix numbers of the cites from `a` up to `b`, with their positions.
pub open spec fn ys_in(cs: Seq<Unnamed3>, a: int, b: int) -> Seq<CnumIx>
    decreases b - a,
{
    if b <= a {
        Seq::empty()
    } else {
        ys_in(cs, a, b - 1) + match ys_num(cs[b - 1].gen4) {
            Some(c) => seq![CnumIx { cnum: c, ix: (b - 1) as usize }],
            None => Seq::empty(),
        }
    }
}

/// Two cites agree on everything but their year-suffix ranges.
pub open spec fn same_but_ys(a: Unnamed3, b: Unnamed3) -> bool {
    &&& a.cite == b.cite
    &&& a.cnum == b.cnum
    &&& a.gen4 == b.gen4
    &&& a.is_first == b.is_first
    &&& a.should_collapse == b.should_collapse
    &&& a.first_of_ys == b.first_of_ys
    &&& a.collapse_ys == b.collapse_ys
    &&& a.collapsed_ranges == b.collapsed_ranges
    &&& a.vanished == b.vanished
}

/// `b` is `a` with the year-suffix numbers of each group collapsed into
/// ranges, held by the group's first cite.
pub open spec fn ys_collapsed(a: Seq<Unnamed3>, b: Seq<Unnamed3>) -> bool {
    &&& b.len() == a.len()
    &&& forall|p: int|
        0 <= p < a.len() ==> {
            &&& same_but_ys(a[p], #[trigger] b[p])
            &&& b[p].collapsed_year_suffixes@ == if a[p].is_first {
                collapse_spec(ys_in(a, p, stop_from(a, p + 1)))
            } else {
                a[p].collapsed_year_suffixes@
            }
        }
}

/// Collapses the year-suffix numbers of each group into ranges, held by the
/// group's first cite.
pub fn collapse_year_suffixes(cites: &mut Vec<Unnamed3>)
    ensures
        ys_collapsed(old(cites)@, final(cites)@),
{
    let ghost orig = cites@;
    let n = cites.len();
    let mut ix: usize = 0;
    while ix < n
        invariant
            n == orig.len(),
            cites@.len() == n,
            0 <= ix <= n,
            orig == old(cites)@,
            forall|p: int| 0 <= p < n ==> same_but_ys(orig[p], #[trigger] cites@[p]),
            forall|p: int| 0 <= p < n ==> (#[trigger] cites@[p]).collapsed_year_suffixes@ == if orig[p].is_first && p < ix {
                collapse_spec(ys_in(orig, p, stop_from(orig, p + 1)))
            } else {
                orig[p].collapsed_year_suffixes@
            },
        decreases n - ix,
    {
        if cites[ix].is_first {
            let mut nums: Vec<CnumIx> = Vec::new();
            match cites[ix].gen4.year_suffix_num() {
                Some(c) => {
                    nums.push(CnumIx { cnum: c, ix });
                },
                None => {},
            }
            proof {
                assert(ys_in(orig, ix as int, ix as int) =~= Seq::<CnumIx>::empty());
                assert(nums@ =~= ys_in(orig, ix as int, ix + 1));
            }
            let mut j: usize = ix + 1;
            while j < n && cites[j].should_collapse
                invariant
                    n == orig.len(),
                    cites@.len() == n,
                    ix < j <= n,
                    orig == old(cites)@,
                    orig[ix as int].is_first,
                    forall|m: int| ix < m < j ==> (#[trigger] orig[m]).should_collapse,
                    nums@ == ys_in(orig, ix as int, j as int),
                    forall|p: int| 0 <= p < n ==> same_but_ys(orig[p], #[trigger] cites@[p]),
                decreases n - j,
            {
                match cites[j].gen4.year_suffix_num() {
                    Some(c) => {
                        nums.push(CnumIx { cnum: c, ix: j });
                    },
                    None => {},
                }
                proof {
                    assert(nums@ =~= ys_in(orig, ix as int, j + 1));
                }
                j = j + 1;
            }
            proof {
                lemma_stop_from(orig, ix + 1, j as int);
            }
            let ranges = collapse_ranges(nums.as_slice());
            let ghost cur = cites@;
            let mut u = cites.remove(ix);
            u.collapsed_year_suffixes = ranges;
            cites.insert(ix, u);
            proof {
                assert(cites@ =~= cur.update(ix as int, u));
            }
        }
        ix = ix + 1;
    }
}

/// Every cite collapses into the first: the first is first of the one group,
/// all others follow it.
pub open spec fn all_marked(g: Seq<Unnamed3>) -> Seq<Unnamed3> {
    Seq::new(
        g.len(),
        |p: int|
            if p == 0 {
                Unnamed3 { is_first: true, ..g[0] }
            } else {
                Unnamed3 { should_collapse: true, ..g[p] }
            },
    )
}

/// Groups adjacent cites with the same first name block, then collapses them
/// as the style says: citation numbers into ranges (every cite joins one
/// group), or the names, and for the year-suffix settings the first years, of
/// the cites that follow the first of their group.
pub fn group_and_collapse(collapse: Option<Collapse>, cites: &mut Vec<Unnamed3>)
    ensures
        match collapse {
            None => final(cites)@ == grouped(old(cites)@),
            Some(Collapse::CitationNumber) => cnums_collapsed(all_marked(grouped(old(cites)@)), final(cites)@),
            Some(Collapse::Year) => years_collapsed(grouped(old(cites)@), final(cites)@, false),
            Some(Collapse::YearSuffix) => years_collapsed(grouped(old(cites)@), final(cites)@, true),
            Some(Collapse::YearSuffixRanged) => exists|mid: Seq<Unnamed3>|
                ys_collapsed(grouped(old(cites)@), mid) && years_collapsed(mid, final(cites)@, true),
        },
{
    // First, group cites with the same name
    group_by_name(cites);
    let ghost g = cites@;
    match collapse {
        Some(Collapse::CitationNumber) => {
            let n = cites.len();
            let mut i: usize = 0;
            while i < n
                invariant
                    n == g.len(),
                    cites@.len() == n,
                    0 <= i <= n,
                    forall|p: int| 0 <= p < i ==> #[trigger] cites@[p] == all_marked(g)[p],
                    forall|p: int| i <= p < n ==> #[trigger] cites@[p] == g[p],
                decreases n - i,
            {
                if i == 0 {
                    set_first(cites, i);
                } else {
                    set_collapse(cites, i);
                }
                i = i + 1;
            }
            assert(cites@ =~= all_marked(g));
            collapse_cnums(cites);
        },
        Some(Collapse::Year) => collapse_years(cites, false),
        Some(Collapse::YearSuffix) => collapse_years(cites, true),
        Some(Collapse::YearSuffixRanged) => {
            collapse_year_suffixes(cites);
            let ghost mid = cites@;
            collapse_years(cites, true);
            assert(ys_collapsed(g, mid) && years_collapsed(mid, cites@, true));
        },
        None => {},
    }
}

} // verus!
