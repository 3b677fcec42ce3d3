//! Edits of a cite's tree that cite grouping and collapsing make: splitting
//! off the first field, suppressing the first name block or the first year,
//! and reading a citation number.
use vstd::prelude::*;
use crate::ir::{flat, empty_spec, Affixes, CiteEdgeData, DisplayMode, GroupVars, IrSeq, TextCase, YearSuffixHook, IR};
use crate::names::NameIR;

verus! {

/// The first name block of a tree, in pre-order; conditionals and sequences
/// are searched, other nodes hold none.
pub open spec fn first_name_block_spec(ir: IR) -> Option<NameIR>
    decreases ir,
{
    match ir {
        IR::Name(n) => Some(n),
        IR::ConditionalDisamb(c) => first_name_block_spec(*c.ir),
        IR::Sequence(s) => fnb_children(s.contents@),
        _ => None,
    }
}

/// The first name block among children.
pub open spec fn fnb_children(cs: Seq<(IR, GroupVars)>) -> Option<NameIR>
    decreases cs,
{
    if cs.len() == 0 {
        None
    } else {
        match fnb_children(cs.drop_last()) {
            Some(n) => Some(n),
            None => first_name_block_spec(cs.last().0),
        }
    }
}

/// The index of the first child that holds a name block; `cs.len()` where none does.
pub open spec fn fnb_index(cs: Seq<(IR, GroupVars)>) -> int
    decreases cs.len(),
{
    if cs.len() == 0 {
        0
    } else if fnb_children(cs.drop_last()) is Some {
        fnb_index(cs.drop_last())
    } else if first_name_block_spec(cs.last().0) is Some {
        cs.len() - 1
    } else {
        cs.len() as int
    }
}

proof fn lemma_fnb_index(cs: Seq<(IR, GroupVars)>)
    ensures
        0 <= fnb_index(cs) <= cs.len(),
        fnb_index(cs) < cs.len() ==> fnb_children(cs) == first_name_block_spec(cs[fnb_index(cs)].0)
            && first_name_block_spec(cs[fnb_index(cs)].0) is Some,
        fnb_index(cs) == cs.len() ==> fnb_children(cs) is None,
        forall|j: int| 0 <= j < fnb_index(cs) ==> (#[trigger] first_name_block_spec(cs[j].0)) is None,
    decreases cs.len(),
{
    if cs.len() > 0 {
        lemma_fnb_index(cs.drop_last());
        assert forall|j: int| 0 <= j < fnb_index(cs) implies (#[trigger] first_name_block_spec(cs[j].0)) is None by {
            if j < cs.len() - 1 {
                assert(cs.drop_last()[j] == cs[j]);
            }
        }
    }
}

/// `b` is `a` with its first name block's content replaced by `Rendered(None)`.
pub open spec fn names_suppressed(a: IR, b: IR) -> bool
    decreases a,
{
    match a {
        IR::Name(na) => match b {
            IR::Name(nb) => *nb.ir == IR::Rendered(None) && same_name_fields(na, nb),
            _ => false,
        },
        IR::ConditionalDisamb(ca) => match b {
            IR::ConditionalDisamb(cb) => ca.group_vars == cb.group_vars && ca.done == cb.done
                && names_suppressed(*ca.ir, *cb.ir),
            _ => false,
        },
        IR::Sequence(sa) => match b {
            IR::Sequence(sb) => same_seq_fields(sa, sb) && names_suppressed_children(sa.contents@, sb.contents@, fnb_index(sa.contents@)),
            _ => false,
        },
        _ => b == a,
    }
}

/// The children `cb` are `ca` with the `k`-th child's first name block suppressed.
pub open spec fn names_suppressed_children(ca: Seq<(IR, GroupVars)>, cb: Seq<(IR, GroupVars)>, k: int) -> bool
    decreases ca,
{
    &&& ca.len() == cb.len()
    &&& forall|j: int| 0 <= j < ca.len() && j != k ==> cb[j] == ca[j]
    &&& 0 <= k < ca.len() ==> cb[k].1 == ca[k].1 && names_suppressed(ca[k].0, cb[k].0)
}

/// Two name blocks agree on everything but their rendered content.
pub open spec fn same_name_fields(a: NameIR, b: NameIR) -> bool {
    &&& a.variable == b.variable
    &&& a.max_name_count == b.max_name_count
    &&& a.current_name_count == b.current_name_count
    &&& a.bump_name_count == b.bump_name_count
    &&& a.gn_iter_index == b.gn_iter_index
    &&& a.disamb_names == b.disamb_names
}

/// Two sequences agree on everything but their children.
pub open spec fn same_seq_fields(a: IrSeq, b: IrSeq) -> bool {
    &&& a.affixes == b.affixes
    &&& a.delimiter == b.delimiter
    &&& a.display == b.display
    &&& a.quotes == b.quotes
    &&& a.dropped_gv == b.dropped_gv
    &&& a.formatting == b.formatting
    &&& a.text_case == b.text_case
}

/// After suppressing names, the first name block is still where it was, and
/// its content is `Rendered(None)`, so it flattens to nothing.
pub proof fn lemma_names_suppressed_block(a: IR, b: IR)
    requires
        names_suppressed(a, b),
        first_name_block_spec(a) is Some,
    ensures
        first_name_block_spec(b) is Some,
        *first_name_block_spec(b)->0.ir == IR::Rendered(None),
        flat(*first_name_block_spec(b)->0.ir) is None,
    decreases a,
{
    match a {
        IR::ConditionalDisamb(ca) => {
            if let IR::ConditionalDisamb(cb) = b {
                lemma_names_suppressed_block(*ca.ir, *cb.ir);
            }
        },
        IR::Sequence(sa) => {
            if let IR::Sequence(sb) = b {
                let ca = sa.contents@;
                let cb = sb.contents@;
                let k = fnb_index(ca);
                lemma_fnb_index(ca);
                lemma_fnb_index(cb);
                assert(k < ca.len());
                assert(names_suppressed_children(ca, cb, k));
                assert(cb.len() == ca.len());
                assert(names_suppressed(ca[k].0, cb[k].0));
                lemma_names_suppressed_block(ca[k].0, cb[k].0);
                assert forall|j: int| 0 <= j < k implies (#[trigger] first_name_block_spec(cb[j].0)) is None by {
                    assert(cb[j] == ca[j]);
                }
                lemma_fnb_first(cb, k);
            }
        },
        _ => {},
    }
}

proof fn lemma_fnb_first(cs: Seq<(IR, GroupVars)>, k: int)
    requires
        0 <= k < cs.len(),
        first_name_block_spec(cs[k].0) is Some,
        forall|j: int| 0 <= j < k ==> (#[trigger] first_name_block_spec(cs[j].0)) is None,
    ensures
        fnb_children(cs) == first_name_block_spec(cs[k].0),
    decreases cs.len(),
{
    if k < cs.len() - 1 {
        lemma_fnb_first(cs.drop_last(), k);
    } else {
        lemma_fnb_none(cs.drop_last());
    }
}

proof fn lemma_fnb_none(cs: Seq<(IR, GroupVars)>)
    requires
        forall|j: int| 0 <= j < cs.len() ==> (#[trigger] first_name_block_spec(cs[j].0)) is None,
    ensures
        fnb_children(cs) is None,
    decreases cs.len(),
{
    if cs.len() > 0 {
        assert(first_name_block_spec(cs[cs.len() - 1].0) is None);
        lemma_fnb_none(cs.drop_last());
    }
}

impl IR {
    /// Whether this tree holds a name block.
    pub fn has_name_block(&self) -> (r: bool)
        ensures
            r == (first_name_block_spec(*self) is Some),
        decreases self,
    {
        match self {
            IR::Name(n) => {
                assert(first_name_block_spec(*self) == Some(*n));
                true
            },
            IR::ConditionalDisamb(c) => c.ir.has_name_block(),
            IR::Sequence(s) => {
                proof {
                    lemma_fnb_index(s.contents@);
                }
                s.first_name_child() < s.contents.len()
            },
            _ => false,
        }
    }

    /// The flattened text of the first name block, if there is one.
    pub fn first_name_block_output(&self) -> (r: Option<Option<String>>)
        ensures
            match first_name_block_spec(*self) {
                Some(n) => r is Some && crate::style::opt_view(r->0) == flat(*n.ir),
                None => r is None,
            },
        decreases self,
    {
        match self {
            IR::Name(n) => Some(n.ir.flatten()),
            IR::ConditionalDisamb(c) => c.ir.first_name_block_output(),
            IR::Sequence(s) => {
                let k = s.first_name_child();
                proof {
                    lemma_fnb_index(s.contents@);
                }
                if k < s.contents.len() {
                    proof {
                        assert(decreases_to!(self => s.contents));
                    }
                    s.contents[k].0.first_name_block_output()
                } else {
                    None
                }
            },
            _ => None,
        }
    }

    /// Replaces the content of the first name block with `Rendered(None)`.
    pub fn suppress_names(&mut self)
        ensures
            names_suppressed(*old(self), *final(self)),
        decreases *old(self),
    {
        match self {
            IR::Name(n) => {
                n.ir = Box::new(IR::Rendered(None));
            },
            IR::ConditionalDisamb(c) => {
                c.ir.suppress_names();
            },
            IR::Sequence(s) => {
                let k = s.first_name_child();
                proof {
                    lemma_fnb_index(s.contents@);
                }
                let ghost before = s.contents@;
                if k < s.contents.len() {
                    let (mut child, gv) = s.contents.remove(k);
                    proof {
                        assert(before[k as int] == (child, gv));
                        assert(decreases_to!(*old(self) => child));
                    }
                    let ghost child0 = child;
                    child.suppress_names();
                    s.contents.insert(k, (child, gv));
                    proof {
                        assert(s.contents@ =~= before.update(k as int, (child, gv)));
                        assert(names_suppressed(child0, child));
                        assert(names_suppressed_children(before, s.contents@, k as int));
                    }
                } else {
                    assert(names_suppressed_children(before, s.contents@, k as int));
                }
            },
            _ => {},
        }
    }
}

impl IrSeq {
    /// The index of the first child that holds a name block, or the number of
    /// children where none does.
    pub fn first_name_child(&self) -> (k: usize)
        ensures
            k == fnb_index(self.contents@),
        decreases self,
    {
        let mut i: usize = 0;
        proof {
            lemma_fnb_index(self.contents@);
        }
        while i < self.contents.len()
            invariant
                0 <= i <= self.contents@.len(),
                i <= fnb_index(self.contents@),
                0 <= fnb_index(self.contents@) <= self.contents@.len(),
                forall|j: int| 0 <= j < fnb_index(self.contents@) ==> (#[trigger] first_name_block_spec(self.contents@[j].0)) is None,
                fnb_index(self.contents@) < self.contents@.len() ==> first_name_block_spec(self.contents@[fnb_index(self.contents@)].0) is Some,
            decreases self.contents@.len() - i,
        {
            proof {
                assert(decreases_to!(self => self.contents));
            }
            if self.contents[i].0.has_name_block() {
                return i;
            }
            i = i + 1;
        }
        i
    }
}

/// The tree holds a year-suffix hook of the explicit kind whose content is not
/// empty (searching conditionals and sequences).
pub open spec fn explicit_ys(ir: IR) -> bool
    decreases ir,
{
    match ir {
        IR::YearSuffix(y) => y.hook == YearSuffixHook::Explicit && !empty_spec(*y.ir),
        IR::ConditionalDisamb(c) => explicit_ys(*c.ir),
        IR::Sequence(s) => explicit_children(s.contents@),
        _ => false,
    }
}

/// Some child holds an explicit year suffix.
pub open spec fn explicit_children(cs: Seq<(IR, GroupVars)>) -> bool
    decreases cs,
{
    if cs.len() == 0 {
        false
    } else {
        explicit_children(cs.drop_last()) || explicit_ys(cs.last().0)
    }
}

/// A sequence of two whose second child is a year suffix that stands ready:
/// unresolved where the suffix is explicit, or important and not empty where it
/// is not. Its first child (the year) is then suppressed.
pub open spec fn pair_hit(s: IrSeq, has_explicit: bool) -> bool {
    &&& s.contents@.len() == 2
    &&& match s.contents@[1].0 {
        IR::YearSuffix(ys) => (s.contents@[1].1 == GroupVars::Unresolved && has_explicit) || (
        s.contents@[1].1 == GroupVars::Important && !has_explicit && !empty_spec(*ys.ir)),
        _ => false,
    }
}

/// Whether suppressing the first year finds one in this tree.
pub open spec fn sfy_result(ir: IR, has_explicit: bool) -> bool
    decreases ir,
{
    match ir {
        IR::ConditionalDisamb(c) => sfy_result(*c.ir, has_explicit),
        IR::Sequence(s) => pair_hit(s, has_explicit) || sfy_children(s.contents@, has_explicit),
        _ => false,
    }
}

/// Whether some child finds a year to suppress.
pub open spec fn sfy_children(cs: Seq<(IR, GroupVars)>, has_explicit: bool) -> bool
    decreases cs,
{
    if cs.len() == 0 {
        false
    } else {
        sfy_children(cs.drop_last(), has_explicit) || sfy_result(cs.last().0, has_explicit)
    }
}

/// The index of the first child that finds a year; `cs.len()` where none does.
pub open spec fn sfy_index(cs: Seq<(IR, GroupVars)>, has_explicit: bool) -> int
    decreases cs.len(),
{
    if cs.len() == 0 {
        0
    } else if sfy_children(cs.drop_last(), has_explicit) {
        sfy_index(cs.drop_last(), has_explicit)
    } else if sfy_result(cs.last().0, has_explicit) {
        cs.len() - 1
    } else {
        cs.len() as int
    }
}

proof fn lemma_sfy_index(cs: Seq<(IR, GroupVars)>, he: bool)
    ensures
        0 <= sfy_index(cs, he) <= cs.len(),
        sfy_index(cs, he) < cs.len() ==> sfy_result(cs[sfy_index(cs, he)].0, he) && sfy_children(cs, he),
        sfy_index(cs, he) == cs.len() ==> !sfy_children(cs, he),
        forall|j: int| 0 <= j < sfy_index(cs, he) ==> !(#[trigger] sfy_result(cs[j].0, he)),
    decreases cs.len(),
{
    if cs.len() > 0 {
        lemma_sfy_index(cs.drop_last(), he);
        assert forall|j: int| 0 <= j < sfy_index(cs, he) implies !(#[trigger] sfy_result(cs[j].0, he)) by {
            if j < cs.len() - 1 {
                assert(cs.drop_last()[j] == cs[j]);
            }
        }
    }
}

/// `b` is `a` after suppressing its first year: in a ready pair the year
/// becomes `Rendered(None)`; otherwise each child up to the first that finds a
/// year is searched (and edited) in turn, and the rest stay as they were.
pub open spec fn year_suppressed(a: IR, b: IR, he: bool) -> bool
    decreases a,
{
    match a {
        IR::ConditionalDisamb(ca) => match b {
            IR::ConditionalDisamb(cb) => ca.group_vars == cb.group_vars && ca.done == cb.done
                && year_suppressed(*ca.ir, *cb.ir, he),
            _ => false,
        },
        IR::Sequence(sa) => match b {
            IR::Sequence(sb) => same_seq_fields(sa, sb) && if pair_hit(sa, he) {
                &&& sb.contents@.len() == 2
                &&& sb.contents@[0] == (IR::Rendered(None), sa.contents@[0].1)
                &&& sb.contents@[1] == sa.contents@[1]
            } else {
                year_children(sa.contents@, sb.contents@, sfy_index(sa.contents@, he), he)
            },
            _ => false,
        },
        _ => b == a,
    }
}

/// Children up to index `k` are searched and edited, the rest kept.
pub open spec fn year_children(ca: Seq<(IR, GroupVars)>, cb: Seq<(IR, GroupVars)>, k: int, he: bool) -> bool
    decreases ca,
{
    &&& ca.len() == cb.len()
    &&& forall|j: int| 0 <= j < ca.len() && j > k ==> cb[j] == ca[j]
    &&& forall|j: int|
        0 <= j < ca.len() && j <= k ==> cb[j].1 == ca[j].1 && year_suppressed(ca[j].0, cb[j].0, he)
}

impl IR {
    /// Whether this tree holds a non-empty explicit year suffix.
    pub fn has_explicit_year_suffix(&self) -> (r: bool)
        ensures
            r == explicit_ys(*self),
        decreases self,
    {
        match self {
            IR::YearSuffix(y) => {
                match y.hook {
                    YearSuffixHook::Explicit => !y.ir.is_empty(),
                    YearSuffixHook::Plain => false,
                }
            },
            IR::ConditionalDisamb(c) => c.ir.has_explicit_year_suffix(),
            IR::Sequence(seq) => seq.has_explicit_year_suffix(),
            _ => false,
        }
    }

    /// Suppresses the first year that stands before a ready year suffix;
    /// returns whether one was found.
    pub fn suppress_first_year(&mut self, has_explicit: bool) -> (found: bool)
        ensures
            found == sfy_result(*old(self), has_explicit),
            year_suppressed(*old(self), *final(self), has_explicit),
        decreases *old(self),
    {
        match self {
            IR::ConditionalDisamb(c) => c.ir.suppress_first_year(has_explicit),
            IR::Sequence(seq) => seq.suppress_first_year(has_explicit),
            _ => false,
        }
    }

    /// Suppresses the first year, where a year suffix stands ready after it.
    pub fn suppress_year(&mut self)
        ensures
            year_suppressed(*old(self), *final(self), explicit_ys(*old(self))),
    {
        let has_explicit = self.has_explicit_year_suffix();
        self.suppress_first_year(has_explicit);
    }
}

impl IrSeq {
    /// Whether some child holds a non-empty explicit year suffix.
    pub fn has_explicit_year_suffix(&self) -> (r: bool)
        ensures
            r == explicit_ys(IR::Sequence(*self)),
        decreases self,
    {
        let mut i: usize = 0;
        assert(self.contents@.take(0) =~= Seq::<(IR, GroupVars)>::empty());
        while i < self.contents.len()
            invariant
                0 <= i <= self.contents@.len(),
                !explicit_children(self.contents@.take(i as int)),
            decreases self.contents@.len() - i,
        {
            proof {
                assert(self.contents@.take(i + 1).drop_last() =~= self.contents@.take(i as int));
                assert(decreases_to!(self => self.contents));
            }
            if self.contents[i].0.has_explicit_year_suffix() {
                proof {
                    lemma_explicit_prefix(self.contents@, i + 1);
                }
                return true;
            }
            i = i + 1;
        }
        assert(self.contents@.take(i as int) =~= self.contents@);
        false
    }

    /// Suppresses the first year of this sequence: in a ready pair the year
    /// itself, otherwise the first that a child finds.
    pub fn suppress_first_year(&mut self, has_explicit: bool) -> (found: bool)
        ensures
            found == sfy_result(IR::Sequence(*old(self)), has_explicit),
            year_suppressed(IR::Sequence(*old(self)), IR::Sequence(*final(self)), has_explicit),
        decreases *old(self),
    {
        let ghost before = self.contents@;
        let mut hit = false;
        if self.contents.len() == 2 {
            hit = match &self.contents[1].0 {
                IR::YearSuffix(ys) => {
                    (self.contents[1].1 == GroupVars::Unresolved && has_explicit) || (self.contents[1].1
                        == GroupVars::Important && !has_explicit && !ys.ir.is_empty())
                },
                _ => false,
            };
        }
        assert(hit == pair_hit(*old(self), has_explicit));
        if hit {
            let (_, gv0) = self.contents.remove(0);
            assert(gv0 == before[0].1);
            let blank = IR::Rendered(None);
            self.contents.insert(0, (blank, gv0));
            proof {
                assert(self.contents@[0] == (blank, gv0));
                assert(self.contents@[1] == before[1]);
            }
            return true;
        }
        proof {
            lemma_sfy_index(before, has_explicit);
        }
        let ghost k = sfy_index(before, has_explicit);
        let mut i: usize = 0;
        let n = self.contents.len();
        while i < n
            invariant
                n == before.len(),
                self.contents@.len() == n,
                0 <= i <= n,
                i <= k,
                k == sfy_index(before, has_explicit),
                0 <= k <= n,
                same_seq_fields(*old(self), *self),
                forall|j: int| 0 <= j < n && j >= i ==> self.contents@[j] == before[j],
                forall|j: int|
                    0 <= j < i ==> self.contents@[j].1 == before[j].1 && year_suppressed(
                        before[j].0,
                        self.contents@[j].0,
                        has_explicit,
                    ),
                forall|j: int| 0 <= j < k ==> !(#[trigger] sfy_result(before[j].0, has_explicit)),
                k < n ==> sfy_result(before[k].0, has_explicit),
                k < n ==> sfy_children(before, has_explicit),
                k == n ==> !sfy_children(before, has_explicit),
                before == old(self).contents@,
                !pair_hit(*old(self), has_explicit),
            decreases n - i,
        {
            let ghost cur = self.contents@;
            let (mut child, gv) = self.contents.remove(i);
            proof {
                assert(child == before[i as int].0);
                assert(decreases_to!(*old(self) => old(self).contents));
                assert(decreases_to!(*old(self) => child));
            }
            let r = child.suppress_first_year(has_explicit);
            self.contents.insert(i, (child, gv));
            proof {
                assert(self.contents@ =~= cur.update(i as int, (child, gv)));
            }
            if r {
                proof {
                    assert(i == k);
                    assert(year_children(before, self.contents@, k, has_explicit));
                }
                return true;
            }
            i = i + 1;
        }
        proof {
            assert(year_children(before, self.contents@, k, has_explicit));
        }
        false
    }
}

proof fn lemma_explicit_prefix(cs: Seq<(IR, GroupVars)>, m: int)
    requires
        0 <= m <= cs.len(),
        explicit_children(cs.take(m)),
    ensures
        explicit_children(cs),
    decreases cs.len(),
{
    if m < cs.len() {
        assert(cs.drop_last().take(m) =~= cs.take(m));
        lemma_explicit_prefix(cs.drop_last(), m);
    } else {
        assert(cs.take(m) =~= cs);
    }
}

/// `b` is `a` with its first field split off: a sequence of more than one
/// child becomes a sequence of two, a left-margin sequence holding the first
/// child and the original prefix, and a right-inline sequence holding the rest
/// and the original suffix; the outer sequence keeps the delimiter and quotes.
/// Any other tree stays as it is.
pub open spec fn first_field_split(a: IR, b: IR) -> bool {
    match a {
        IR::Sequence(sa) => if sa.contents@.len() > 1 {
            match b {
                IR::Sequence(sb) => {
                    &&& sb.display is None
                    &&& sb.affixes is None
                    &&& sb.delimiter == sa.delimiter
                    &&& sb.dropped_gv is None
                    &&& sb.quotes == sa.quotes
                    &&& sb.formatting == sa.formatting
                    &&& sb.text_case == sa.text_case
                    &&& sb.contents@.len() == 2
                    &&& sb.contents@[0].1 == sa.contents@[0].1
                    &&& sb.contents@[1].1 == GroupVars::Important
                    &&& match sb.contents@[0].0 {
                        IR::Sequence(left) => {
                            &&& left.contents@ == seq![sa.contents@[0]]
                            &&& left.display == Some(DisplayMode::LeftMargin)
                            &&& left.delimiter@.len() == 0
                            &&& left.quotes is None
                            &&& left.dropped_gv is None
                            &&& left.formatting is None
                            &&& left.text_case == TextCase::AsIs
                            &&& match sa.affixes {
                                Some(af) => left.affixes is Some && left.affixes->0.prefix == af.prefix
                                    && left.affixes->0.suffix@.len() == 0,
                                None => left.affixes is None,
                            }
                        },
                        _ => false,
                    }
                    &&& match sb.contents@[1].0 {
                        IR::Sequence(right) => {
                            &&& right.contents@ == sa.contents@.drop_first()
                            &&& right.display == Some(DisplayMode::RightInline)
                            &&& right.delimiter@.len() == 0
                            &&& right.quotes is None
                            &&& right.dropped_gv is None
                            &&& right.formatting is None
                            &&& right.text_case == TextCase::AsIs
                            &&& match sa.affixes {
                                Some(af) => right.affixes is Some && right.affixes->0.suffix == af.suffix
                                    && right.affixes->0.prefix@.len() == 0,
                                None => right.affixes is None,
                            }
                        },
                        _ => false,
                    }
                },
                _ => false,
            }
        } else {
            b == a
        },
        _ => b == a,
    }
}

impl IR {
    /// Splits the first field off a sequence, for second-field alignment.
    pub fn split_first_field(&mut self)
        ensures
            first_field_split(*old(self), *final(self)),
    {
        let split = match self {
            IR::Sequence(seq) => seq.contents.len() > 1,
            _ => false,
        };
        if !split {
            return;
        }
        let mut me = IR::Rendered(None);
        std::mem::swap(self, &mut me);
        match me {
            IR::Sequence(mut seq) => {
                let ghost orig = seq;
                let (first, gv) = seq.contents.remove(0);
                proof {
                    assert(seq.contents@ =~= orig.contents@.drop_first());
                }
                let (afpre, afsuf) = match &seq.affixes {
                    Some(mine) => (
                        Some(Affixes { prefix: mine.prefix.clone(), suffix: String::new() }),
                        Some(Affixes { prefix: String::new(), suffix: mine.suffix.clone() }),
                    ),
                    None => (None, None),
                };
                let left = IrSeq {
                    contents: vec![(first, gv)],
                    affixes: afpre,
                    delimiter: String::new(),
                    display: Some(DisplayMode::LeftMargin),
                    quotes: None,
                    dropped_gv: None,
                    formatting: None,
                    text_case: TextCase::AsIs,
                };
                let right = IrSeq {
                    contents: seq.contents,
                    affixes: afsuf,
                    delimiter: String::new(),
                    display: Some(DisplayMode::RightInline),
                    quotes: None,
                    dropped_gv: None,
                    formatting: None,
                    text_case: TextCase::AsIs,
                };
                *self = IR::Sequence(IrSeq {
                    contents: vec![(IR::Sequence(left), gv), (IR::Sequence(right), GroupVars::Important)],
                    affixes: None,
                    delimiter: seq.delimiter,
                    display: None,
                    quotes: seq.quotes,
                    dropped_gv: None,
                    formatting: seq.formatting,
                    text_case: seq.text_case,
                });
                proof {
                    assert(left.contents@ =~= seq![orig.contents@[0]]);
                }
            },
            _ => {},
        }
    }
}

/// The value of a string of decimal digits.
pub open spec fn digits_value(s: Seq<char>) -> nat
    decreases s.len(),
{
    if s.len() == 0 {
        0
    } else {
        digits_value(s.drop_last()) * 10 + ((s.last() as int) - ('0' as int)) as nat
    }
}

/// Every character is a decimal digit.
pub open spec fn all_digits(s: Seq<char>) -> bool {
    forall|i: int| 0 <= i < s.len() ==> '0' <= #[trigger] s[i] <= '9'
}

/// A number in decimal, with an optional leading `+`, that fits `u32`.
pub open spec fn parse_u32_spec(s: Seq<char>) -> Option<u32> {
    let d = if s.len() > 0 && s[0] == '+' {
        s.drop_first()
    } else {
        s
    };
    if d.len() > 0 && all_digits(d) && digits_value(d) <= u32::MAX {
        Some(digits_value(d) as u32)
    } else {
        None
    }
}

proof fn lemma_digits_value_grows(s: Seq<char>, m: int)
    requires
        0 <= m <= s.len(),
        all_digits(s),
    ensures
        digits_value(s.take(m)) <= digits_value(s),
    decreases s.len(),
{
    if m < s.len() {
        assert(s.drop_last().take(m) =~= s.take(m));
        lemma_digits_value_grows(s.drop_last(), m);
        assert(s.drop_last()[0] == s[0] || s.drop_last().len() == 0);
        assert(all_digits(s.drop_last())) by {
            assert forall|i: int| 0 <= i < s.drop_last().len() implies '0' <= #[trigger] s.drop_last()[i] <= '9' by {
                assert(s.drop_last()[i] == s[i]);
            }
        }
    } else {
        assert(s.take(m) =~= s);
    }
}

/// Reads a citation number written in decimal.
pub fn parse_u32(s: &str) -> (r: Option<u32>)
    ensures
        r == parse_u32_spec(s@),
{
    let n = s.unicode_len();
    let mut i: usize = 0;
    if n > 0 && s.get_char(0) == '+' {
        i = 1;
    }
    let start = i;
    let ghost d = if s@.len() > 0 && s@[0] == '+' { s@.drop_first() } else { s@ };
    if start == n {
        assert(d.len() == 0);
        return None;
    }
    let mut v: u32 = 0;
    while i < n
        invariant
            n == s@.len(),
            start <= i <= n,
            start == 0 || start == 1,
            d == s@.subrange(start as int, n as int),
            d == (if s@.len() > 0 && s@[0] == '+' { s@.drop_first() } else { s@ }),
            all_digits(d.take(i - start)),
            v == digits_value(d.take(i - start)),
        decreases n - i,
    {
        let c = s.get_char(i);
        let ghost pre = d.take(i - start);
        let ghost next = d.take(i - start + 1);
        proof {
            assert(next.drop_last() =~= pre);
            assert(next.last() == c);
        }
        if c < '0' || c > '9' {
            proof {
                assert(d[i - start] == c);
                assert(!('0' <= d[i - start] <= '9'));
                assert(!all_digits(d));
                assert(parse_u32_spec(s@) is None);
            }
            return None;
        }
        let dv = (c as u32) - ('0' as u32);
        if v > (u32::MAX - dv) / 10 {
            proof {
                assert(digits_value(next) > u32::MAX) by (nonlinear_arith)
                    requires
                        digits_value(next) == v * 10 + dv,
                        v > (u32::MAX - dv) / 10,
                        dv <= 9;
                assert(all_digits(next)) by {
                    assert forall|j: int| 0 <= j < next.len() implies '0' <= #[trigger] next[j] <= '9' by {
                        if j < next.len() - 1 {
                            assert(next[j] == pre[j]);
                        }
                    }
                }
                if all_digits(d) {
                    lemma_digits_value_grows(d, i - start + 1);
                    assert(digits_value(d) > u32::MAX);
                }
                assert(parse_u32_spec(s@) is None);
            }
            return None;
        }
        proof {
            assert(v * 10 + dv <= u32::MAX) by (nonlinear_arith)
                requires
                    v <= (u32::MAX - dv) / 10,
                    dv <= 9;
        }
        v = v * 10 + dv;
        proof {
            assert(all_digits(next)) by {
                assert forall|j: int| 0 <= j < next.len() implies '0' <= #[trigger] next[j] <= '9' by {
                    if j < next.len() - 1 {
                        assert(next[j] == pre[j]);
                    }
                }
            }
        }
        i = i + 1;
    }
    assert(d.take(i - start) =~= d);
    Some(v)
}

/// The citation number that a tree stands for: a rendered citation number,
/// alone in its sequence or conditional.
pub open spec fn cnum_spec(ir: IR) -> Option<u32>
    decreases ir,
{
    match ir {
        IR::Rendered(Some(CiteEdgeData::CitationNumber(b))) => parse_u32_spec(b@),
        IR::ConditionalDisamb(c) => cnum_spec(*c.ir),
        IR::Sequence(s) => if s.contents@.len() != 1 {
            None
        } else {
            cnum_spec(s.contents@[0].0)
        },
        _ => None,
    }
}

impl IR {
    /// The citation number that this tree stands for, if it is nothing else.
    pub fn collapse_to_cnum(&self) -> (r: Option<u32>)
        ensures
            r == cnum_spec(*self),
        decreases self,
    {
        match self {
            IR::Rendered(Some(CiteEdgeData::CitationNumber(build))) => parse_u32(build.as_str()),
            IR::ConditionalDisamb(c) => c.ir.collapse_to_cnum(),
            IR::Sequence(seq) => seq.collapse_to_cnum(),
            _ => None,
        }
    }
}

impl IrSeq {
    /// The citation number of a sequence's only child.
    pub fn collapse_to_cnum(&self) -> (r: Option<u32>)
        ensures
            r == cnum_spec(IR::Sequence(*self)),
        decreases self,
    {
        if self.contents.len() != 1 {
            None
        } else {
            proof {
                assert(decreases_to!(self => self.contents));
            }
            self.contents[0].0.collapse_to_cnum()
        }
    }
}

} // verus!
