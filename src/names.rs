//! Name expansion: the passes that widen one person name's rendering, the
//! iterator that yields them in their canonical order, the per-name variant
//! matcher, and global name disambiguation.
use vstd::prelude::*;
use crate::style::{GivenNameDisambiguationRule, NameEl, NameForm, NameVariable, PersonName};
use crate::edges::{lemma_edges_determine_payloads, Edge, EdgeData, EdgeInterner, EdgePayload};
use fnv::FnvHashMap;
use crate::render::{render_name, render_person_name};
use smallvec::SmallVec;
use crate::ir::{DisambPass, IR};

verus! {

/// One step that changes one axis of a name's rendering.
#[derive(Debug, PartialEq, Eq, Structural, Copy, Clone)]
pub enum NameDisambPass {
    WithFormLong,
    WithInitializeFalse,
}

/// The name element after one pass.
pub open spec fn applied(el: NameEl, pass: NameDisambPass) -> NameEl {
    match pass {
        NameDisambPass::WithFormLong => NameEl { form: Some(NameForm::Long), ..el },
        NameDisambPass::WithInitializeFalse => NameEl { initialize: Some(false), ..el },
    }
}

/// The name element after a sequence of passes, applied first to last.
pub open spec fn applied_all(el: NameEl, passes: Seq<NameDisambPass>) -> NameEl
    decreases passes.len(),
{
    if passes.len() == 0 {
        el
    } else {
        applied(applied_all(el, passes.drop_last()), passes.last())
    }
}

/// Applying a pass twice gives the element that applying it once gives, and
/// two passes give the same element in either order.
pub proof fn lemma_pass_idempotent(el: NameEl, a: NameDisambPass, b: NameDisambPass)
    ensures
        applied(applied(el, a), a) == applied(el, a),
        applied(applied(el, a), b) == applied(applied(el, b), a),
{
}

/// How far one name may be expanded, from the style's rule and whether the
/// name is the first of its name block.
#[derive(Debug, PartialEq, Eq, Structural, Copy, Clone)]
pub enum SingleNameDisambMethod {
    NoExpansion,
    AddInitials,
    AddInitialsThenGivenName,
}

/// The method for a rule and a primary flag.
pub open spec fn method_for(rule: GivenNameDisambiguationRule, is_primary: bool) -> SingleNameDisambMethod {
    match rule {
        GivenNameDisambiguationRule::ByCite => SingleNameDisambMethod::AddInitialsThenGivenName,
        GivenNameDisambiguationRule::AllNames => SingleNameDisambMethod::AddInitialsThenGivenName,
        GivenNameDisambiguationRule::AllNamesWithInitials => SingleNameDisambMethod::AddInitials,
        GivenNameDisambiguationRule::PrimaryName => if is_primary {
            SingleNameDisambMethod::AddInitialsThenGivenName
        } else {
            SingleNameDisambMethod::NoExpansion
        },
        GivenNameDisambiguationRule::PrimaryNameWithInitials => if is_primary {
            SingleNameDisambMethod::AddInitials
        } else {
            SingleNameDisambMethod::NoExpansion
        },
    }
}

impl SingleNameDisambMethod {
    /// `is_primary` refers to whether this is the first name to be rendered in a Names element.
    pub fn from_rule(rule: GivenNameDisambiguationRule, is_primary: bool) -> (m: Self)
        ensures
            m == method_for(rule, is_primary),
    {
        match rule {
            GivenNameDisambiguationRule::ByCite | GivenNameDisambiguationRule::AllNames => {
                SingleNameDisambMethod::AddInitialsThenGivenName
            },
            GivenNameDisambiguationRule::AllNamesWithInitials => SingleNameDisambMethod::AddInitials,
            GivenNameDisambiguationRule::PrimaryName => {
                if is_primary {
                    SingleNameDisambMethod::AddInitialsThenGivenName
                } else {
                    SingleNameDisambMethod::NoExpansion
                }
            },
            GivenNameDisambiguationRule::PrimaryNameWithInitials => {
                if is_primary {
                    SingleNameDisambMethod::AddInitials
                } else {
                    SingleNameDisambMethod::NoExpansion
                }
            },
        }
    }
}

/// How far the iterator has expanded its name.
#[derive(Debug, PartialEq, Eq, Structural, Copy, Clone)]
pub enum NameDisambState {
    Original,
    AddedInitials,
    AddedGivenName,
}

/// The position of a state in the order in which the iterator moves.
pub open spec fn state_rank(s: NameDisambState) -> nat {
    match s {
        NameDisambState::Original => 0,
        NameDisambState::AddedInitials => 1,
        NameDisambState::AddedGivenName => 2,
    }
}

/// The passes, in order, that a fresh iterator yields for a method, whether
/// initials are rendered with a delimiter, and the name's form.
pub open spec fn passes_for(method: SingleNameDisambMethod, initialize_with: bool, form: NameForm) -> Seq<NameDisambPass> {
    match method {
        SingleNameDisambMethod::NoExpansion => Seq::empty(),
        SingleNameDisambMethod::AddInitials => if initialize_with && form == NameForm::Short {
            seq![NameDisambPass::WithFormLong]
        } else {
            Seq::empty()
        },
        SingleNameDisambMethod::AddInitialsThenGivenName => if initialize_with {
            if form == NameForm::Short {
                seq![NameDisambPass::WithFormLong, NameDisambPass::WithInitializeFalse]
            } else {
                seq![NameDisambPass::WithInitializeFalse]
            }
        } else if form == NameForm::Short {
            seq![NameDisambPass::WithFormLong]
        } else {
            Seq::empty()
        },
    }
}

/// Whether a name element renders given names as initials with a delimiter.
pub open spec fn initializes_with(el: NameEl) -> bool {
    el.initialize_with.is_some() && el.initialize == Some(true)
}

/// The form a name element renders, long where it names none.
pub open spec fn form_of(el: NameEl) -> NameForm {
    match el.form {
        Some(f) => f,
        None => NameForm::Long,
    }
}

/// A finite, non-restartable sequence of expansion passes for one name.
#[derive(Debug, PartialEq, Eq, Structural, Copy, Clone)]
pub struct SingleNameDisambIter {
    /// If this is NoExpansion, the iterator won't produce anything.
    method: SingleNameDisambMethod,
    /// Whether initials are rendered with a delimiter.
    initialize_with: bool,
    name_form: NameForm,
    state: NameDisambState,
}

impl SingleNameDisambIter {
    pub closed spec fn spec_method(self) -> SingleNameDisambMethod {
        self.method
    }

    pub closed spec fn spec_initialize_with(self) -> bool {
        self.initialize_with
    }

    pub closed spec fn spec_form(self) -> NameForm {
        self.name_form
    }

    pub closed spec fn spec_state(self) -> NameDisambState {
        self.state
    }

    /// This iterator moved to state `s`.
    pub closed spec fn with_state(self, s: NameDisambState) -> Self {
        SingleNameDisambIter { state: s, ..self }
    }

    /// The iterator stands in a state that its method can reach.
    pub closed spec fn wf(self) -> bool {
        &&& !(self.method == SingleNameDisambMethod::AddInitials && self.initialize_with
            && self.state == NameDisambState::AddedGivenName)
        &&& !(self.method == SingleNameDisambMethod::AddInitialsThenGivenName && !self.initialize_with
            && self.state == NameDisambState::AddedInitials)
        &&& !(self.method == SingleNameDisambMethod::AddInitials && self.initialize_with
            && self.name_form != NameForm::Short && self.state == NameDisambState::AddedInitials)
        &&& !(self.method == SingleNameDisambMethod::AddInitialsThenGivenName && self.initialize_with
            && self.name_form != NameForm::Short && self.state == NameDisambState::AddedInitials)
        &&& !(self.method == SingleNameDisambMethod::NoExpansion && self.state != NameDisambState::Original)
        &&& !(self.method == SingleNameDisambMethod::AddInitials && !self.initialize_with
            && self.state != NameDisambState::Original)
    }

    /// The passes that this iterator has yet to yield.
    pub closed spec fn remaining(self) -> Seq<NameDisambPass> {
        let all = passes_for(self.method, self.initialize_with, self.name_form);
        let done: int = match self.state {
            NameDisambState::Original => 0,
            NameDisambState::AddedInitials => 1,
            NameDisambState::AddedGivenName => all.len() as int,
        };
        all.subrange(done, all.len() as int)
    }

    /// One step of the state machine: the pass yielded, if any, and the next state.
    pub closed spec fn step(self) -> (Option<NameDisambPass>, NameDisambState) {
        match self.method {
            SingleNameDisambMethod::NoExpansion => (None, self.state),
            SingleNameDisambMethod::AddInitials => if self.initialize_with && self.state
                == NameDisambState::Original && self.name_form == NameForm::Short {
                (Some(NameDisambPass::WithFormLong), NameDisambState::AddedInitials)
            } else {
                (None, self.state)
            },
            SingleNameDisambMethod::AddInitialsThenGivenName => if self.initialize_with {
                match self.state {
                    NameDisambState::Original => if self.name_form == NameForm::Short {
                        (Some(NameDisambPass::WithFormLong), NameDisambState::AddedInitials)
                    } else {
                        (Some(NameDisambPass::WithInitializeFalse), NameDisambState::AddedGivenName)
                    },
                    NameDisambState::AddedInitials => (
                        Some(NameDisambPass::WithInitializeFalse),
                        NameDisambState::AddedGivenName,
                    ),
                    NameDisambState::AddedGivenName => (None, self.state),
                }
            } else {
                match self.state {
                    NameDisambState::Original => if self.name_form == NameForm::Short {
                        (Some(NameDisambPass::WithFormLong), NameDisambState::AddedGivenName)
                    } else {
                        (None, NameDisambState::AddedGivenName)
                    },
                    _ => (None, self.state),
                }
            },
        }
    }

    /// A fresh iterator for `method` over the name element `name_el`.
    pub fn new(method: SingleNameDisambMethod, name_el: &NameEl) -> (it: Self)
        ensures
            it.wf(),
            it.spec_method() == method,
            it.spec_initialize_with() == initializes_with(*name_el),
            it.spec_form() == form_of(*name_el),
            it.spec_state() == NameDisambState::Original,
            it.remaining() == passes_for(method, initializes_with(*name_el), form_of(*name_el)),
    {
        let initialize = match name_el.initialize {
            Some(b) => b,
            None => false,
        };
        let it = SingleNameDisambIter {
            method,
            initialize_with: name_el.initialize_with.is_some() && initialize,
            name_form: match name_el.form {
                Some(f) => f,
                None => NameForm::Long,
            },
            state: NameDisambState::Original,
        };
        proof {
            let all = passes_for(it.method, it.initialize_with, it.name_form);
            assert(all.subrange(0, all.len() as int) =~= all);
        }
        it
    }

    /// The next pass, if any; advances the state as `step` says.
    pub fn next(&mut self) -> (r: Option<NameDisambPass>)
        requires
            old(self).wf(),
        ensures
            final(self).wf(),
            r == old(self).step().0,
            *final(self) == old(self).with_state(old(self).step().1),
            r == (if old(self).remaining().len() > 0 {
                Some(old(self).remaining()[0])
            } else {
                None::<NameDisambPass>
            }),
            final(self).remaining() == (if old(self).remaining().len() > 0 {
                old(self).remaining().drop_first()
            } else {
                old(self).remaining()
            }),
    {
        proof {
            let all = passes_for(self.method, self.initialize_with, self.name_form);
            assert(all.subrange(1, all.len() as int) =~= all.drop_first());
            if all.len() == 2 {
                assert(all.subrange(1, 2).drop_first() =~= all.subrange(2, 2));
            }
            assert(all.subrange(all.len() as int, all.len() as int) =~= Seq::<NameDisambPass>::empty());
            assert(all.subrange(0, all.len() as int) =~= all);
        }
        match self.method {
            SingleNameDisambMethod::NoExpansion => None,
            SingleNameDisambMethod::AddInitials => {
                if self.initialize_with {
                    match self.state {
                        NameDisambState::Original => {
                            if self.name_form == NameForm::Short {
                                self.state = NameDisambState::AddedInitials;
                                Some(NameDisambPass::WithFormLong)
                            } else {
                                None
                            }
                        },
                        _ => None,
                    }
                } else {
                    None
                }
            },
            SingleNameDisambMethod::AddInitialsThenGivenName => {
                if self.initialize_with {
                    match self.state {
                        NameDisambState::Original => {
                            if self.name_form == NameForm::Short {
                                self.state = NameDisambState::AddedInitials;
                                Some(NameDisambPass::WithFormLong)
                            } else {
                                self.state = NameDisambState::AddedGivenName;
                                Some(NameDisambPass::WithInitializeFalse)
                            }
                        },
                        NameDisambState::AddedInitials => {
                            self.state = NameDisambState::AddedGivenName;
                            Some(NameDisambPass::WithInitializeFalse)
                        },
                        NameDisambState::AddedGivenName => None,
                    }
                } else {
                    match self.state {
                        NameDisambState::Original => {
                            self.state = NameDisambState::AddedGivenName;
                            if self.name_form == NameForm::Short {
                                Some(NameDisambPass::WithFormLong)
                            } else {
                                None
                            }
                        },
                        _ => None,
                    }
                }
            },
        }
    }
}

/// The iterator is finite: it yields at most two passes, each pass that it
/// yields moves it to a later state (so no state is visited twice), and once
/// it has yielded nothing it yields nothing again.
pub proof fn lemma_disamb_iter_finite(it: SingleNameDisambIter)
    requires
        it.wf(),
    ensures
        it.remaining().len() <= 2,
        it.step().0.is_some() ==> state_rank(it.step().1) > state_rank(it.spec_state()),
        it.step().0.is_none() ==> it.remaining().len() == 0,
        it.step().0.is_none() ==> it.with_state(it.step().1).step().0.is_none(),
{
}


/// An interned handle of one person name of one reference, as seen by the
/// query layer: an index into its table of name data.
#[derive(Debug, PartialEq, Eq, Structural, Copy, Clone, Hash)]
pub struct DisambName(pub u32);

/// One person name of one reference, with the name element that renders it;
/// expansion passes edit the element.
#[derive(Debug, Clone)]
pub struct DisambNameData {
    pub ref_id: String,
    pub var: NameVariable,
    pub el: NameEl,
    pub value: PersonName,
    pub primary: bool,
}

impl DisambName {
    /// The data that this handle stands for in `table`.
    pub fn lookup(&self, table: &[DisambNameData]) -> (d: DisambNameData)
        requires
            (self.0 as int) < table@.len(),
        ensures
            d == table@[self.0 as int],
    {
        table[self.0 as usize].duplicate()
    }
}

/// The passes that a fresh iterator yields for a name under a rule.
pub open spec fn passes_of(d: DisambNameData, rule: GivenNameDisambiguationRule) -> Seq<NameDisambPass> {
    passes_for(method_for(rule, d.primary), initializes_with(d.el), form_of(d.el))
}

/// The name after the first `k` passes that the rule allows it.
pub open spec fn expanded(d: DisambNameData, rule: GivenNameDisambiguationRule, k: int) -> DisambNameData {
    DisambNameData { el: applied_all(d.el, passes_of(d, rule).take(k)), ..d }
}

/// The renderings of a name: unexpanded, then after each allowed pass.
pub open spec fn variant_texts(d: DisambNameData, rule: GivenNameDisambiguationRule) -> Seq<Seq<char>> {
    Seq::new(
        (passes_of(d, rule).len() + 1) as nat,
        |k: int| render_name(expanded(d, rule, k).el, d.value),
    )
}

/// `e` is an edge of `payloads` that stands for the output `text`.
pub open spec fn edge_of_text(payloads: Seq<EdgePayload>, e: u32, text: Seq<char>) -> bool {
    &&& (e as int) < payloads.len()
    &&& payloads[e as int] == EdgePayload::Output(text)
}

/// `new` keeps every payload of `old` at its place.
pub open spec fn extends(old: Seq<EdgePayload>, new: Seq<EdgePayload>) -> bool {
    &&& old.len() <= new.len()
    &&& new.subrange(0, old.len() as int) == old
}

impl DisambNameData {
    /// A copy of this data, equal to it.
    pub fn duplicate(&self) -> (r: DisambNameData)
        ensures
            r == *self,
    {
        DisambNameData {
            ref_id: self.ref_id.clone(),
            var: self.var,
            el: self.el.duplicate(),
            value: self.value.duplicate(),
            primary: self.primary,
        }
    }

    /// Applies one expansion pass to the name element.
    pub fn apply_pass(&mut self, pass: NameDisambPass)
        ensures
            *final(self) == (DisambNameData { el: applied(old(self).el, pass), ..*old(self) }),
    {
        match pass {
            NameDisambPass::WithFormLong => self.el.form = Some(NameForm::Long),
            NameDisambPass::WithInitializeFalse => self.el.initialize = Some(false),
        }
    }

    /// The rendering of this name under its element.
    pub fn single_name(&self) -> (r: String)
        ensures
            r@ == render_name(self.el, self.value),
    {
        render_person_name(&self.el, &self.value)
    }

    /// The edge of this name's rendering; used directly for global name
    /// disambiguation.
    pub fn single_name_edge(&self, interner: &mut EdgeInterner) -> (e: Edge)
        requires
            old(interner).wf(),
            old(interner).view_payloads().len() < u32::MAX,
        ensures
            final(interner).wf(),
            extends(old(interner).view_payloads(), final(interner).view_payloads()),
            final(interner).view_payloads().len() <= old(interner).view_payloads().len() + 1,
            edge_of_text(final(interner).view_payloads(), e.0, render_name(self.el, self.value)),
    {
        let o = self.single_name();
        let e = interner.edge(EdgeData::Output(o));
        proof {
            assert(final(interner).view_payloads().subrange(0, old(interner).view_payloads().len() as int)
                =~= old(interner).view_payloads());
        }
        e
    }

    /// The expansion iterator for this name under `rule`.
    pub fn disamb_iter(&self, rule: GivenNameDisambiguationRule) -> (it: SingleNameDisambIter)
        ensures
            it.wf(),
            it.spec_method() == method_for(rule, self.primary),
            it.spec_initialize_with() == initializes_with(self.el),
            it.spec_form() == form_of(self.el),
            it.spec_state() == NameDisambState::Original,
            it.remaining() == passes_of(*self, rule),
    {
        let method = SingleNameDisambMethod::from_rule(rule, self.primary);
        SingleNameDisambIter::new(method, &self.el)
    }
}

/// At most two passes, so at most three variants.
pub(crate) proof fn lemma_passes_len(d: DisambNameData, rule: GivenNameDisambiguationRule)
    ensures
        passes_of(d, rule).len() <= 2,
{
}

/// One more pass from the list extends the expansion by one.
pub(crate) proof fn lemma_expanded_step(d: DisambNameData, rule: GivenNameDisambiguationRule, k: int)
    requires
        0 <= k < passes_of(d, rule).len(),
    ensures
        expanded(d, rule, k + 1) == (DisambNameData {
            el: applied(expanded(d, rule, k).el, passes_of(d, rule)[k]),
            ..d
        }),
{
    let ps = passes_of(d, rule);
    assert(ps.take(k + 1).drop_last() =~= ps.take(k));
}

/// Up to three edge numbers, held inline in a `smallvec::SmallVec`.
#[verifier::external_body]
pub struct EdgeList {
    items: SmallVec<[u32; 3]>,
}

/// What an edge list holds, in order.
pub uninterp spec fn edge_list_items(v: EdgeList) -> Seq<u32>;

/// Relies on `SmallVec::new`: a vector with no items.
#[verifier::external_body]
fn small_new() -> (v: EdgeList)
    ensures
        edge_list_items(v) == Seq::<u32>::empty(),
{
    EdgeList { items: SmallVec::new() }
}

/// Relies on `SmallVec::push`: the item is appended after the others.
#[verifier::external_body]
fn small_push(v: &mut EdgeList, item: u32)
    requires
        edge_list_items(*old(v)).len() < usize::MAX,
    ensures
        edge_list_items(*final(v)) == edge_list_items(*old(v)).push(item),
{
    v.items.push(item)
}

/// Relies on `SmallVec::as_slice`: the items, in order.
#[verifier::external_body]
fn small_slice(v: &EdgeList) -> (s: &[u32])
    ensures
        s@ == edge_list_items(*v),
{
    v.items.as_slice()
}

/// The edges one reference's name could render as under every expansion that
/// the rule allows it.
pub struct NameVariantMatcher(EdgeList);

impl NameVariantMatcher {
    /// The edge numbers of the variants, unexpanded first.
    pub closed spec fn edges(&self) -> Seq<u32> {
        edge_list_items(self.0)
    }

    /// The matcher holds, in order, the edges of the variant renderings of `d`.
    pub open spec fn matches_variants(
        &self,
        payloads: Seq<EdgePayload>,
        d: DisambNameData,
        rule: GivenNameDisambiguationRule,
    ) -> bool {
        &&& self.edges().len() == variant_texts(d, rule).len()
        &&& forall|k: int|
            0 <= k < self.edges().len() ==> #[trigger] edge_of_text(
                payloads,
                self.edges()[k],
                variant_texts(d, rule)[k],
            )
    }

    /// Whether `edge` is one of this matcher's variants.
    pub fn accepts(&self, edge: Edge) -> (r: bool)
        ensures
            r == self.edges().contains(edge.0),
    {
        let items = small_slice(&self.0);
        let mut i: usize = 0;
        while i < items.len()
            invariant
                items@ == self.edges(),
                0 <= i <= items@.len(),
                forall|k: int| 0 <= k < i ==> items@[k] != edge.0,
            decreases items@.len() - i,
        {
            if items[i] == edge.0 {
                return true;
            }
            i = i + 1;
        }
        false
    }

    /// The edge of the variant after `k` passes.
    pub fn edge_at(&self, k: usize) -> (e: Edge)
        requires
            k < self.edges().len(),
        ensures
            e.0 == self.edges()[k as int],
    {
        let items = small_slice(&self.0);
        Edge(items[k])
    }

    /// Builds the matcher of `dn`: its unexpanded edge, then the edge after
    /// each pass that `rule` allows it.
    pub fn from_disamb_name(
        table: &[DisambNameData],
        dn: DisambName,
        rule: GivenNameDisambiguationRule,
        interner: &mut EdgeInterner,
    ) -> (m: Self)
        requires
            (dn.0 as int) < table@.len(),
            old(interner).wf(),
            old(interner).view_payloads().len() + 3 < u32::MAX,
        ensures
            final(interner).wf(),
            extends(old(interner).view_payloads(), final(interner).view_payloads()),
            final(interner).view_payloads().len() <= old(interner).view_payloads().len() + 3,
            m.matches_variants(final(interner).view_payloads(), table@[dn.0 as int], rule),
    {
        let ghost d0 = table@[dn.0 as int];
        let ghost ps = passes_of(d0, rule);
        let ghost start = old(interner).view_payloads();
        proof {
            lemma_passes_len(d0, rule);
            assert(ps.take(0) =~= Seq::<NameDisambPass>::empty());
        }
        let mut data = dn.lookup(table);
        let mut iter = data.disamb_iter(rule);
        let mut edges = small_new();
        let edge = data.single_name_edge(interner);
        small_push(&mut edges, edge.0);
        let mut k: usize = 0;
        proof {
            assert(ps.subrange(0, ps.len() as int) =~= ps);
        }
        loop
            invariant
                0 <= k <= ps.len(),
                ps == passes_of(d0, rule),
                ps.len() <= 2,
                start.len() + 3 < u32::MAX,
                iter.wf(),
                iter.remaining() == ps.subrange(k as int, ps.len() as int),
                data == expanded(d0, rule, k as int),
                edge_list_items(edges).len() == k + 1,
                interner.wf(),
                extends(start, interner.view_payloads()),
                interner.view_payloads().len() <= start.len() + k + 1,
                forall|j: int|
                    0 <= j <= k ==> #[trigger] edge_of_text(
                        interner.view_payloads(),
                        edge_list_items(edges)[j],
                        variant_texts(d0, rule)[j],
                    ),
            ensures
                k == ps.len(),
                edge_list_items(edges).len() == k + 1,
                interner.wf(),
                extends(start, interner.view_payloads()),
                interner.view_payloads().len() <= start.len() + 3,
                forall|j: int|
                    0 <= j <= k ==> #[trigger] edge_of_text(
                        interner.view_payloads(),
                        edge_list_items(edges)[j],
                        variant_texts(d0, rule)[j],
                    ),
            decreases ps.len() - k,
        {
            let ghost before = interner.view_payloads();
            let ghost items_before = edge_list_items(edges);
            match iter.next() {
                Some(pass) => {
                    proof {
                        assert(k < ps.len());
                        assert(ps.subrange(k as int, ps.len() as int)[0] == ps[k as int]);
                        lemma_expanded_step(d0, rule, k as int);
                        assert(ps.subrange(k as int, ps.len() as int).drop_first()
                            =~= ps.subrange(k + 1, ps.len() as int));
                    }
                    data.apply_pass(pass);
                    let edge = data.single_name_edge(interner);
                    small_push(&mut edges, edge.0);
                    k = k + 1;
                    proof {
                        assert forall|j: int| 0 <= j <= k implies #[trigger] edge_of_text(
                            interner.view_payloads(),
                            edge_list_items(edges)[j],
                            variant_texts(d0, rule)[j],
                        ) by {
                            if j < k {
                                assert(edge_of_text(before, items_before[j], variant_texts(d0, rule)[j]));
                                assert(interner.view_payloads()[items_before[j] as int]
                                    == interner.view_payloads().subrange(0, before.len() as int)[items_before[j] as int]);
                            }
                        }
                        assert(interner.view_payloads().subrange(0, start.len() as int)
                            =~= before.subrange(0, start.len() as int));
                    }
                },
                None => {
                    break;
                },
            }
        }
        let m = NameVariantMatcher(edges);
        proof {
            assert forall|j: int| 0 <= j < m.edges().len() implies #[trigger] edge_of_text(
                interner.view_payloads(),
                m.edges()[j],
                variant_texts(d0, rule)[j],
            ) by {
                assert(edge_of_text(interner.view_payloads(), edge_list_items(edges)[j], variant_texts(d0, rule)[j]));
            }
        }
        m
    }
}

/// How many of the lists `ms` hold `x`.
pub open spec fn accept_count<A>(ms: Seq<Seq<A>>, x: A) -> nat
    decreases ms.len(),
{
    if ms.len() == 0 {
        0
    } else {
        accept_count(ms.drop_last(), x) + if ms.last().contains(x) {
            1nat
        } else {
            0nat
        }
    }
}

/// The variant renderings of every name of `table`.
pub open spec fn all_variant_texts(table: Seq<DisambNameData>, rule: GivenNameDisambiguationRule) -> Seq<Seq<Seq<char>>> {
    Seq::new(table.len(), |j: int| variant_texts(table[j], rule))
}

/// The rendering `t` is ambiguous: more than one name of `table` could render as it.
pub open spec fn ambiguous_text(table: Seq<DisambNameData>, rule: GivenNameDisambiguationRule, t: Seq<char>) -> bool {
    accept_count(all_variant_texts(table, rule), t) > 1
}

/// From the `k`-th variant on, the first whose rendering is not ambiguous;
/// 0 where none is.
pub open spec fn first_clear(
    table: Seq<DisambNameData>,
    rule: GivenNameDisambiguationRule,
    own: Seq<Seq<char>>,
    k: int,
) -> int
    decreases own.len() - k,
{
    if k < 0 || k >= own.len() {
        0
    } else if !ambiguous_text(table, rule, own[k]) {
        k
    } else {
        first_clear(table, rule, own, k + 1)
    }
}

/// How many passes global disambiguation gives name `i` of `table`: the fewest
/// after which its rendering is unambiguous, or none at all where even the
/// last expansion is ambiguous.
pub open spec fn chosen_steps(table: Seq<DisambNameData>, rule: GivenNameDisambiguationRule, i: int) -> int {
    first_clear(table, rule, variant_texts(table[i], rule), 0)
}

/// The result of global name disambiguation for name `i` of `table`.
pub open spec fn disambiguated(table: Seq<DisambNameData>, rule: GivenNameDisambiguationRule, i: int) -> DisambNameData {
    expanded(table[i], rule, chosen_steps(table, rule, i))
}

proof fn lemma_accept_count_prefix<A>(ms: Seq<Seq<A>>, x: A, m: int)
    requires
        0 <= m <= ms.len(),
    ensures
        accept_count(ms.take(m), x) <= accept_count(ms, x),
    decreases ms.len(),
{
    if m < ms.len() {
        assert(ms.drop_last().take(m) =~= ms.take(m));
        lemma_accept_count_prefix(ms.drop_last(), x, m);
    } else {
        assert(ms.take(m) =~= ms);
    }
}

proof fn lemma_accept_count_same<A, B>(ma: Seq<Seq<A>>, a: A, mb: Seq<Seq<B>>, b: B)
    requires
        ma.len() == mb.len(),
        forall|j: int| 0 <= j < ma.len() ==> (#[trigger] ma[j]).contains(a) == mb[j].contains(b),
    ensures
        accept_count(ma, a) == accept_count(mb, b),
    decreases ma.len(),
{
    if ma.len() > 0 {
        lemma_accept_count_same(ma.drop_last(), a, mb.drop_last(), b);
    }
}

/// A matcher of name `d` holds edge `e`, standing for `t`, exactly where `t` is
/// one of `d`'s variant renderings.
proof fn lemma_matcher_holds_text(
    interner: EdgeInterner,
    m: NameVariantMatcher,
    d: DisambNameData,
    rule: GivenNameDisambiguationRule,
    e: u32,
    t: Seq<char>,
)
    requires
        interner.wf(),
        m.matches_variants(interner.view_payloads(), d, rule),
        edge_of_text(interner.view_payloads(), e, t),
    ensures
        m.edges().contains(e) == variant_texts(d, rule).contains(t),
{
    let p = interner.view_payloads();
    if m.edges().contains(e) {
        let k = choose|k: int| 0 <= k < m.edges().len() && m.edges()[k] == e;
        assert(edge_of_text(p, m.edges()[k], variant_texts(d, rule)[k]));
        assert(variant_texts(d, rule)[k] == t);
    }
    if variant_texts(d, rule).contains(t) {
        let k = choose|k: int| 0 <= k < variant_texts(d, rule).len() && variant_texts(d, rule)[k] == t;
        assert(edge_of_text(p, m.edges()[k], variant_texts(d, rule)[k]));
        lemma_edges_determine_payloads(interner, Edge(m.edges()[k]), Edge(e));
        assert(m.edges()[k] == e);
    }
}

/// The edge lists of a sequence of matchers.
pub open spec fn matcher_edges(ms: Seq<NameVariantMatcher>) -> Seq<Seq<u32>> {
    Seq::new(ms.len(), |j: int| ms[j].edges())
}

/// Whether more than one matcher accepts `edge` (counting stops at two).
fn is_ambiguous(matchers: &Vec<NameVariantMatcher>, edge: Edge) -> (r: bool)
    ensures
        r == (accept_count(matcher_edges(matchers@), edge.0) > 1),
{
    let ghost all = matcher_edges(matchers@);
    let mut n: usize = 0;
    let mut i: usize = 0;
    proof {
        assert(all.take(0) =~= Seq::<Seq<u32>>::empty());
    }
    while i < matchers.len()
        invariant
            all == matcher_edges(matchers@),
            0 <= i <= matchers@.len(),
            n == accept_count(all.take(i as int), edge.0),
            n <= 1,
        decreases matchers@.len() - i,
    {
        let acc = matchers[i].accepts(edge);
        proof {
            assert(all.take(i + 1).drop_last() =~= all.take(i as int));
            assert(all.take(i + 1).last() == matchers@[i as int].edges());
        }
        if acc {
            n = n + 1;
        }
        i = i + 1;
        if n > 1 {
            proof {
                lemma_accept_count_prefix(all, edge.0, i as int);
            }
            return true;
        }
    }
    proof {
        assert(all.take(i as int) =~= all);
    }
    false
}

/// The hasher of the `fnv` crate, as an opaque type.
#[verifier::external_type_specification]
#[verifier::external_body]
pub struct ExFnvHasher(fnv::FnvHasher);

/// std's builder of default-constructed hashers, as an opaque type.
#[verifier::external_type_specification]
#[verifier::external_body]
#[verifier::reject_recursive_types(H)]
pub struct ExBuildHasherDefault<H>(std::hash::BuildHasherDefault<H>);

/// Relies on `HashMap::insert` (here with the `fnv` hasher): afterwards the
/// key maps to the value, and every other key is as it was.
#[verifier::external_body]
fn fnv_insert(m: &mut FnvHashMap<u32, DisambNameData>, k: u32, v: DisambNameData)
    ensures
        final(m)@ == old(m)@.insert(k, v),
{
    m.insert(k, v);
}

/// Global name disambiguation: for every name of `table`, the fewest passes
/// after which its rendering is accepted by no other name's matcher, or its
/// original data where no number of passes suffices. Returns the names, keyed
/// by their index in `table`, with the passes applied. Where the style does not
/// add given names, or adds them by cite, nothing is done here.
pub fn disambiguated_person_names(
    table: &[DisambNameData],
    rule: GivenNameDisambiguationRule,
    add_givenname: bool,
    interner: &mut EdgeInterner,
) -> (r: FnvHashMap<u32, DisambNameData>)
    requires
        old(interner).wf(),
        table@.len() < u32::MAX,
        old(interner).view_payloads().len() + 3 * table@.len() + 3 < u32::MAX,
    ensures
        final(interner).wf(),
        extends(old(interner).view_payloads(), final(interner).view_payloads()),
        !add_givenname || rule == GivenNameDisambiguationRule::ByCite ==> r@ == Map::<
            u32,
            DisambNameData,
        >::empty(),
        add_givenname && rule != GivenNameDisambiguationRule::ByCite ==> r@ == Map::new(
            |k: u32| (k as int) < table@.len(),
            |k: u32| disambiguated(table@, rule, k as int),
        ),
{
    let mut results: FnvHashMap<u32, DisambNameData> = FnvHashMap::default();
    if !add_givenname || rule == GivenNameDisambiguationRule::ByCite {
        proof {
            assert(final(interner).view_payloads().subrange(0, old(interner).view_payloads().len() as int)
                =~= old(interner).view_payloads());
        }
        return results;
    }
    let ghost start = interner.view_payloads();
    let ghost texts = all_variant_texts(table@, rule);
    let n = table.len();
    let mut matchers: Vec<NameVariantMatcher> = Vec::new();
    let mut i: usize = 0;
    proof {
        assert(start.subrange(0, start.len() as int) =~= start);
    }
    // preamble: build all the names
    while i < n
        invariant
            n == table@.len(),
            n < u32::MAX,
            0 <= i <= n,
            start == old(interner).view_payloads(),
            start.len() + 3 * n + 3 < u32::MAX,
            interner.wf(),
            extends(start, interner.view_payloads()),
            interner.view_payloads().len() <= start.len() + 3 * i,
            matchers@.len() == i,
            forall|j: int|
                0 <= j < i ==> (#[trigger] matchers@[j]).matches_variants(
                    interner.view_payloads(),
                    table@[j],
                    rule,
                ),
        decreases n - i,
    {
        let ghost before = interner.view_payloads();
        let m = NameVariantMatcher::from_disamb_name(table, DisambName(i as u32), rule, interner);
        proof {
            let after = interner.view_payloads();
            assert forall|j: int| 0 <= j < i implies (#[trigger] matchers@[j]).matches_variants(
                after,
                table@[j],
                rule,
            ) by {
                let mj = matchers@[j];
                assert forall|k: int| 0 <= k < mj.edges().len() implies #[trigger] edge_of_text(
                    after,
                    mj.edges()[k],
                    variant_texts(table@[j], rule)[k],
                ) by {
                    assert(edge_of_text(before, mj.edges()[k], variant_texts(table@[j], rule)[k]));
                    assert(after.subrange(0, before.len() as int)[mj.edges()[k] as int]
                        == after[mj.edges()[k] as int]);
                }
            }
            assert(after.subrange(0, start.len() as int) =~= before.subrange(0, start.len() as int));
        }
        matchers.push(m);
        i = i + 1;
    }
    let ghost payloads = interner.view_payloads();
    let ghost all = matcher_edges(matchers@);
    let mut i: usize = 0;
    proof {
        assert(results@ =~= Map::new(
            |k: u32| (k as int) < 0,
            |k: u32| disambiguated(table@, rule, k as int),
        ));
    }
    while i < n
        invariant
            n == table@.len(),
            n < u32::MAX,
            0 <= i <= n,
            interner.wf(),
            payloads == interner.view_payloads(),
            all == matcher_edges(matchers@),
            matchers@.len() == n,
            add_givenname && rule != GivenNameDisambiguationRule::ByCite,
            forall|j: int|
                0 <= j < n ==> (#[trigger] matchers@[j]).matches_variants(payloads, table@[j], rule),
            results@ == Map::new(
                |k: u32| (k as int) < i,
                |k: u32| disambiguated(table@, rule, k as int),
            ),
        decreases n - i,
    {
        let dn_id = DisambName(i as u32);
        let mut dn = dn_id.lookup(table);
        let ghost d0 = dn;
        let ghost own = variant_texts(d0, rule);
        let ghost ps = passes_of(d0, rule);
        let mut iter = dn.disamb_iter(rule);
        // The matcher of this name already holds the edge of each expansion.
        let mut k: usize = 0;
        let mut edge = matchers[i].edge_at(0);
        proof {
            lemma_passes_len(d0, rule);
            assert(ps.take(0) =~= Seq::<NameDisambPass>::empty());
            assert(ps.subrange(0, ps.len() as int) =~= ps);
        }
        loop
            invariant_except_break
                dn == expanded(d0, rule, k as int),
            invariant
                0 <= k <= ps.len(),
                ps == passes_of(d0, rule),
                own == variant_texts(d0, rule),
                d0 == table@[i as int],
                i < n,
                n == table@.len(),
                iter.wf(),
                iter.remaining() == ps.subrange(k as int, ps.len() as int),
                dn_id == DisambName(i as u32),
                i < u32::MAX,
                edge.0 == matchers@[i as int].edges()[k as int],
                interner.wf(),
                payloads == interner.view_payloads(),
                all == matcher_edges(matchers@),
                matchers@.len() == n,
                forall|j: int|
                    0 <= j < n ==> (#[trigger] matchers@[j]).matches_variants(payloads, table@[j], rule),
                first_clear(table@, rule, own, 0) == first_clear(table@, rule, own, k as int),
            ensures
                dn == disambiguated(table@, rule, i as int),
            decreases ps.len() - k,
        {
            let amb = is_ambiguous(&matchers, edge);
            proof {
                let t = own[k as int];
                assert(edge_of_text(payloads, matchers@[i as int].edges()[k as int], own[k as int]));
                assert forall|j: int| 0 <= j < all.len() implies (#[trigger] all[j]).contains(edge.0)
                    == texts_at(table@, rule, j).contains(t) by {
                    lemma_matcher_holds_text(*interner, matchers@[j], table@[j], rule, edge.0, t);
                }
                lemma_accept_count_same(all, edge.0, all_variant_texts(table@, rule), t);
                assert(amb == ambiguous_text(table@, rule, t));
            }
            if !amb {
                break;
            }
            match iter.next() {
                Some(pass) => {
                    proof {
                        assert(k < ps.len());
                        assert(ps.subrange(k as int, ps.len() as int)[0] == ps[k as int]);
                        lemma_expanded_step(d0, rule, k as int);
                        assert(ps.subrange(k as int, ps.len() as int).drop_first()
                            =~= ps.subrange(k + 1, ps.len() as int));
                    }
                    dn.apply_pass(pass);
                    k = k + 1;
                    edge = matchers[i].edge_at(k);
                },
                None => {
                    // failed, so we must reset
                    proof {
                        assert(k == ps.len());
                    }
                    dn = dn_id.lookup(table);
                    proof {
                        assert(ps.take(0) =~= Seq::<NameDisambPass>::empty());
                        assert(expanded(d0, rule, 0) == d0);
                        assert(own.len() == ps.len() + 1);
                        assert(ambiguous_text(table@, rule, own[k as int]));
                        assert(first_clear(table@, rule, own, k + 1) == 0);
                        assert(first_clear(table@, rule, own, k as int) == 0);
                    }
                    break;
                },
            }
        }
        fnv_insert(&mut results, i as u32, dn);
        i = i + 1;
        proof {
            assert(results@ =~= Map::new(
                |k: u32| (k as int) < i,
                |k: u32| disambiguated(table@, rule, k as int),
            ));
        }
    }
    proof {
        assert(payloads.subrange(0, old(interner).view_payloads().len() as int) =~= old(interner).view_payloads()) by {
            assert(extends(old(interner).view_payloads(), payloads));
        }
    }
    results
}

/// The variant renderings of name `j` of `table`.
pub open spec fn texts_at(table: Seq<DisambNameData>, rule: GivenNameDisambiguationRule, j: int) -> Seq<Seq<char>> {
    all_variant_texts(table, rule)[j]
}

/// Rendering is deterministic: two names with the same element and person
/// name render alike, and the interner gives both renderings one edge.
pub proof fn lemma_render_deterministic(
    interner: EdgeInterner,
    a: DisambNameData,
    b: DisambNameData,
    ea: Edge,
    eb: Edge,
)
    requires
        interner.wf(),
        a.el == b.el,
        a.value == b.value,
        edge_of_text(interner.view_payloads(), ea.0, render_name(a.el, a.value)),
        edge_of_text(interner.view_payloads(), eb.0, render_name(b.el, b.value)),
    ensures
        render_name(a.el, a.value) == render_name(b.el, b.value),
        ea == eb,
{
    lemma_edges_determine_payloads(interner, ea, eb);
}

/// A name's matcher accepts the edge of its rendering after any prefix of the
/// passes that its iterator yields.
pub proof fn lemma_matcher_complete(
    interner: EdgeInterner,
    m: NameVariantMatcher,
    d: DisambNameData,
    rule: GivenNameDisambiguationRule,
    k: int,
    e: Edge,
)
    requires
        interner.wf(),
        m.matches_variants(interner.view_payloads(), d, rule),
        0 <= k <= passes_of(d, rule).len(),
        edge_of_text(interner.view_payloads(), e.0, render_name(expanded(d, rule, k).el, d.value)),
    ensures
        m.edges().contains(e.0),
{
    let t = render_name(expanded(d, rule, k).el, d.value);
    assert(variant_texts(d, rule)[k] == t);
    lemma_matcher_holds_text(interner, m, d, rule, e.0, t);
}

/// Every variant of name `i` is ambiguous, so global disambiguation leaves it
/// unexpanded.
pub open spec fn was_reset(table: Seq<DisambNameData>, rule: GivenNameDisambiguationRule, i: int) -> bool {
    forall|k: int|
        0 <= k < variant_texts(table[i], rule).len() ==> ambiguous_text(
            table,
            rule,
            #[trigger] variant_texts(table[i], rule)[k],
        )
}

proof fn lemma_first_clear(
    table: Seq<DisambNameData>,
    rule: GivenNameDisambiguationRule,
    own: Seq<Seq<char>>,
    k0: int,
)
    requires
        0 <= k0,
        exists|k: int| k0 <= k < own.len() && !ambiguous_text(table, rule, #[trigger] own[k]),
    ensures
        k0 <= first_clear(table, rule, own, k0) < own.len(),
        !ambiguous_text(table, rule, own[first_clear(table, rule, own, k0)]),
    decreases own.len() - k0,
{
    if ambiguous_text(table, rule, own[k0]) {
        let k = choose|k: int| k0 <= k < own.len() && !ambiguous_text(table, rule, #[trigger] own[k]);
        assert(k != k0);
        lemma_first_clear(table, rule, own, k0 + 1);
    }
}

proof fn lemma_two_holders<A>(ms: Seq<Seq<A>>, x: A, i: int, j: int)
    requires
        0 <= i < ms.len(),
        0 <= j < ms.len(),
        i != j,
        ms[i].contains(x),
        ms[j].contains(x),
    ensures
        accept_count(ms, x) >= 2,
    decreases ms.len(),
{
    let last = ms.len() - 1;
    if i != last && j != last {
        lemma_two_holders(ms.drop_last(), x, i, j);
    } else {
        let other = if i == last { j } else { i };
        lemma_one_holder(ms.drop_last(), x, other);
    }
}

proof fn lemma_one_holder<A>(ms: Seq<Seq<A>>, x: A, i: int)
    requires
        0 <= i < ms.len(),
        ms[i].contains(x),
    ensures
        accept_count(ms, x) >= 1,
    decreases ms.len(),
{
    if i != ms.len() - 1 {
        lemma_one_holder(ms.drop_last(), x, i);
    }
}

/// After global name disambiguation, unless a name was reset because no
/// expansion sufficed, no other name of the table could render as that name's
/// result.
pub proof fn lemma_global_disamb_correct(
    table: Seq<DisambNameData>,
    rule: GivenNameDisambiguationRule,
    i: int,
    j: int,
)
    requires
        0 <= i < table.len(),
        0 <= j < table.len(),
        i != j,
        !was_reset(table, rule, i),
    ensures
        !variant_texts(table[j], rule).contains(
            render_name(disambiguated(table, rule, i).el, table[i].value),
        ),
{
    let own = variant_texts(table[i], rule);
    let k = choose|k: int| 0 <= k < own.len() && !ambiguous_text(table, rule, #[trigger] own[k]);
    lemma_first_clear(table, rule, own, 0);
    let c = chosen_steps(table, rule, i);
    let t = own[c];
    assert(render_name(disambiguated(table, rule, i).el, table[i].value) == t);
    let all = all_variant_texts(table, rule);
    assert(all[i] == own);
    assert(all[i][c] == t);
    assert(all[i].contains(t));
    if all[j].contains(t) {
        lemma_two_holders(all, t, i, j);
    }
}

/// A name of a name block: a literal rendering, or a person name with its own
/// expansion iterator.
#[derive(Debug, Clone)]
pub enum DisambNameRatchet {
    Literal(String),
    Person(PersonDisambNameRatchet),
}

/// A person name of a name block, with the iterator that expands it.
#[derive(Debug, Clone)]
pub struct PersonDisambNameRatchet {
    pub id: DisambName,
    pub data: DisambNameData,
    pub iter: SingleNameDisambIter,
}

impl PersonDisambNameRatchet {
    /// A ratchet at the start of its expansion under `rule`.
    pub fn new(rule: GivenNameDisambiguationRule, id: DisambName, data: DisambNameData) -> (r: Self)
        ensures
            r.id == id,
            r.data == data,
            r.iter.wf(),
            r.iter.remaining() == passes_of(data, rule),
    {
        let method = SingleNameDisambMethod::from_rule(rule, data.primary);
        let iter = SingleNameDisambIter::new(method, &data.el);
        PersonDisambNameRatchet { id, data, iter }
    }
}

/// Per-cite working state of one names element: which variable it renders,
/// how many names it shows, its names, and its rendered content.
#[derive(Debug)]
pub struct NameIR {
    pub variable: NameVariable,
    pub max_name_count: u16,
    pub current_name_count: u16,
    pub bump_name_count: u16,
    pub gn_iter_index: usize,
    pub disamb_names: Vec<DisambNameRatchet>,
    pub ir: Box<IR>,
}

impl NameIR {
    /// Advances this block for a disambiguation pass: an add-names pass shows
    /// one more name. Returns whether anything changed.
    pub fn crank(&mut self, pass: Option<DisambPass>) -> (r: bool)
        requires
            old(self).bump_name_count < u16::MAX,
        ensures
            r == (pass == Some(DisambPass::AddNames)),
            r ==> *final(self) == (NameIR { bump_name_count: (old(self).bump_name_count + 1) as u16, ..*old(self) }),
            !r ==> *final(self) == *old(self),
    {
        match pass {
            Some(DisambPass::AddNames) => {
                self.bump_name_count = self.bump_name_count + 1;
                true
            },
            _ => false,
        }
    }
}

/// The ids of the person names among `names`, in order.
pub open spec fn person_ids(names: Seq<DisambNameRatchet>) -> Seq<DisambName>
    decreases names.len(),
{
    if names.len() == 0 {
        Seq::empty()
    } else {
        person_ids(names.drop_last()) + match names.last() {
            DisambNameRatchet::Person(p) => seq![p.id],
            DisambNameRatchet::Literal(_) => Seq::empty(),
        }
    }
}

/// A name block as a reference renders it: its variable and its person names.
#[derive(Debug, Clone)]
pub struct RefNameIR {
    pub variable: NameVariable,
    pub disamb_name_ids: Vec<DisambName>,
}

impl RefNameIR {
    /// The reference-side view of a cite's name block.
    pub fn from_name_ir(name_ir: &NameIR) -> (r: Self)
        ensures
            r.variable == name_ir.variable,
            r.disamb_name_ids@ == person_ids(name_ir.disamb_names@),
    {
        let mut vec: Vec<DisambName> = Vec::new();
        let mut i: usize = 0;
        assert(name_ir.disamb_names@.take(0) =~= Seq::<DisambNameRatchet>::empty());
        while i < name_ir.disamb_names.len()
            invariant
                0 <= i <= name_ir.disamb_names@.len(),
                vec@ == person_ids(name_ir.disamb_names@.take(i as int)),
            decreases name_ir.disamb_names@.len() - i,
        {
            proof {
                assert(name_ir.disamb_names@.take(i + 1).drop_last() =~= name_ir.disamb_names@.take(i as int));
            }
            match &name_ir.disamb_names[i] {
                DisambNameRatchet::Person(p) => {
                    vec.push(p.id);
                },
                DisambNameRatchet::Literal(_) => {},
            }
            proof {
                assert(vec@ =~= person_ids(name_ir.disamb_names@.take(i + 1)));
            }
            i = i + 1;
        }
        assert(name_ir.disamb_names@.take(i as int) =~= name_ir.disamb_names@);
        RefNameIR { variable: name_ir.variable, disamb_name_ids: vec }
    }
}

proof fn lemma_first_clear_none(
    table: Seq<DisambNameData>,
    rule: GivenNameDisambiguationRule,
    own: Seq<Seq<char>>,
    k0: int,
)
    requires
        0 <= k0,
        forall|k: int| k0 <= k < own.len() ==> ambiguous_text(table, rule, #[trigger] own[k]),
    ensures
        first_clear(table, rule, own, k0) == 0,
    decreases own.len() - k0,
{
    if k0 < own.len() {
        lemma_first_clear_none(table, rule, own, k0 + 1);
    }
}

/// Global disambiguation resets a name whose every expansion is ambiguous:
/// the result is the name's original data, not a partial expansion.
pub proof fn lemma_global_disamb_reset(table: Seq<DisambNameData>, rule: GivenNameDisambiguationRule, i: int)
    requires
        0 <= i < table.len(),
        was_reset(table, rule, i),
    ensures
        disambiguated(table, rule, i) == table[i],
{
    let own = variant_texts(table[i], rule);
    assert forall|k: int| 0 <= k < own.len() implies ambiguous_text(table, rule, #[trigger] own[k]) by {}
    lemma_first_clear_none(table, rule, own, 0);
    assert(passes_of(table[i], rule).take(0) =~= Seq::<NameDisambPass>::empty());
}

} // verus!
