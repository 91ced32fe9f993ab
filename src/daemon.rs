use vstd::prelude::*;

use crate::complete::{
    applied_configuration, configured, create_error, extend_modes, identity_of,
    ApplyPartialHeadError, CreateHeadError, HeadConfiguration, HeadIdentity, HeadState,
    IdentityView, Mode, ModeState,
};
use crate::layout::{
    enable_request, entry_views, find_match, first_index, firsts, is_exact, is_same_heads,
    layout_identities, layout_valid, layout_views, layouts_view, lemma_exact_iff_same_members,
    lemma_first_index, lemma_fuzzy_match_is_full_bijection, lemma_not_in_members, not_in,
    pair_views, saved_from, store_valid, store_views, views, EntryView, HeadRequest, Layout,
    LayoutData, SavedConfiguration,
};
use crate::keyed::{
    distinct_keys, index_of, key_index, lemma_key_index, lemma_lookup_after_push,
    lemma_lookup_after_set, lemma_without_key_members, lemma_without_key_pairwise, lookup,
    pairwise, remove_key, without_key, Keyed,
};
use crate::partial::{
    recorded, HeadEvent, ModeEvent, PartialHead, PartialHeadState, PartialMode, PartialModeState,
    PartialObjects,
};

verus! {

/// What the next barrier does with a layout that matches the live heads.
#[derive(Clone, Copy, Debug, PartialEq, Eq, Structural)]
pub enum DoneAction {
    /// Update the layout for the current head setup.
    Update,
    /// Apply the layout for the current head setup.
    Apply,
    /// The next barrier is the result of an applied layout, so it is ignored.
    ApplyResult,
}

/// The outcome the compositor reports for a submitted configuration.
#[derive(Clone, Copy, Debug, PartialEq, Eq, Structural)]
pub enum ConfigurationResult {
    Succeeded,
    Cancelled,
    Failed,
}

/// A mode event named a mode object that was never announced or already finished.
#[derive(Clone, Copy, Debug, PartialEq, Eq, Structural)]
pub enum ModeEventError {
    UnknownMode(u32),
}

/// The entries of a mode table whose handle is not `id`.
pub open spec fn without_handle(s: Seq<(Mode, u32)>, id: u32) -> Seq<(Mode, u32)>
    decreases s.len(),
{
    if s.len() == 0 {
        s
    } else {
        let rest = without_handle(s.drop_last(), id);
        if s.last().1 == id {
            rest
        } else {
            rest.push(s.last())
        }
    }
}

fn remove_handle(table: &mut Vec<(Mode, u32)>, id: u32)
    ensures
        final(table)@ == without_handle(old(table)@, id),
{
    let mut kept: Vec<(Mode, u32)> = Vec::new();
    let mut i: usize = 0;
    while i < table.len()
        invariant
            i <= table@.len(),
            kept@ == without_handle(table@.subrange(0, i as int), id),
        decreases table@.len() - i,
    {
        assert(table@.subrange(0, i as int + 1).drop_last() =~= table@.subrange(0, i as int));
        if table[i].1 != id {
            kept.push(table[i]);
        }
        i += 1;
    }
    assert(table@.subrange(0, table@.len() as int) =~= table@);
    *table = kept;
}

/// What a barrier decided.
#[derive(Debug)]
pub enum BarrierAction {
    /// The live layout was appended to the store as a new layout; persist the store.
    Saved,
    /// The stored layout at this index was overwritten with the live one; persist the store.
    Updated(usize),
    /// Submit these requests as one configuration transaction.
    Apply(Vec<HeadRequest>),
    /// The barrier answers our own transaction; nothing to do.
    Ignored,
}

/// An inconsistency in what the compositor reported, or in the daemon's own state.
#[derive(Clone, Copy, Debug, PartialEq, Eq, Structural)]
pub enum BarrierError {
    /// A new head could not be promoted.
    CreateHead(u32, CreateHeadError),
    /// The changes to a committed head could not be applied.
    ApplyPartial(u32, ApplyPartialHeadError),
    /// A new head has the identity of a committed head.
    DuplicateIdentity(u32),
    /// The current mode of this head is not a committed mode.
    MissingCurrentMode(u32),
    /// A layout was applied, but then the live heads matched no layout.
    NoMatchAfterApply,
    /// A head of the matched layout is not live.
    UnresolvedHead,
}

/// The view of a committed head: its id, identity, mode table and configuration.
pub type HeadView = (u32, IdentityView, Seq<(Mode, u32)>, Option<HeadConfiguration>);

pub open spec fn head_view(h: HeadState) -> HeadView {
    (h.id, h.head.identity@, h.head.mode_to_id@, h.head.configuration)
}

pub open spec fn heads_view(s: Seq<HeadState>) -> Seq<HeadView> {
    s.map_values(|h: HeadState| head_view(h))
}

/// Whether a head view has the identity `v`.
pub open spec fn has_identity(v: IdentityView) -> spec_fn(HeadView) -> bool {
    |h: HeadView| h.1 == v
}

/// Whether a remapping pair starts at `v`.
pub open spec fn remaps(v: IdentityView) -> spec_fn((IdentityView, IdentityView)) -> bool {
    |p: (IdentityView, IdentityView)| p.0 == v
}

/// The live identity that the stored identity `v` stands for under `remap`: its
/// partner where the remapping has one, else itself.
pub open spec fn remapped(remap: Seq<(IdentityView, IdentityView)>, v: IdentityView) -> IdentityView {
    let k = first_index(remap, remaps(v));
    if k >= 0 {
        remap[k].1
    } else {
        v
    }
}

/// The request for one entry of a matched layout, or none where the head it
/// stands for is not live.
pub open spec fn entry_request(
    e: EntryView,
    remap: Seq<(IdentityView, IdentityView)>,
    heads: Seq<HeadView>,
) -> Option<HeadRequest> {
    let k = first_index(heads, has_identity(remapped(remap, e.0)));
    if k < 0 {
        None
    } else {
        match e.1 {
            None => Some(HeadRequest::Disable(heads[k].0)),
            Some(c) => Some(enable_request(c, heads[k].0, heads[k].2)),
        }
    }
}

/// Whether every entry of `l` stands for a live head.
pub open spec fn all_resolved(
    l: Seq<EntryView>,
    remap: Seq<(IdentityView, IdentityView)>,
    heads: Seq<HeadView>,
) -> bool {
    forall|i: int| 0 <= i < l.len() ==> (#[trigger] entry_request(l[i], remap, heads)).is_some()
}

/// Whether `requests` is the transaction that applies layout `l` under `remap`:
/// one request per entry, in order.
pub open spec fn is_transaction(
    requests: Seq<HeadRequest>,
    l: Seq<EntryView>,
    remap: Seq<(IdentityView, IdentityView)>,
    heads: Seq<HeadView>,
) -> bool {
    &&& requests.len() == l.len()
    &&& forall|i: int|
        0 <= i < l.len() ==> Some(requests[i]) == #[trigger] entry_request(l[i], remap, heads)
}

/// The committed modes after the staged modes `p` are committed in turn: each
/// one with a size replaces any committed mode of its id; the others are phantoms.
pub open spec fn committed_modes(c: Seq<ModeState>, p: Seq<PartialModeState>) -> Seq<ModeState>
    decreases p.len(),
{
    if p.len() == 0 {
        c
    } else {
        let prev = committed_modes(c, p.drop_last());
        match Mode::from_partial_spec(p.last().mode) {
            Ok(mode) => without_key(prev, p.last().id).push(ModeState { id: p.last().id, mode }),
            Err(_) => prev,
        }
    }
}

/// The ids of the staged modes that lack a size.
pub open spec fn phantom_ids(p: Seq<PartialModeState>) -> Seq<u32>
    decreases p.len(),
{
    if p.len() == 0 {
        Seq::empty()
    } else {
        let prev = phantom_ids(p.drop_last());
        if p.last().mode.size is None {
            prev.push(p.last().id)
        } else {
            prev
        }
    }
}

/// Whether a head view has the id `id`.
pub open spec fn head_id_is(id: u32) -> spec_fn(HeadView) -> bool {
    |h: HeadView| h.0 == id
}

/// The committed heads after the staged heads are committed in turn: a staged
/// head of a committed id is applied to it; another one is promoted, and its
/// identity must be new.
pub open spec fn committed_heads(
    heads: Seq<HeadView>,
    staged: Seq<PartialHeadState>,
    modes: Seq<ModeState>,
) -> Result<Seq<HeadView>, BarrierError>
    decreases staged.len(),
{
    if staged.len() == 0 {
        Ok(heads)
    } else {
        match committed_heads(heads, staged.drop_last(), modes) {
            Err(e) => Err(e),
            Ok(hs) => {
                let st = staged.last();
                let k = first_index(hs, head_id_is(st.id));
                if k >= 0 {
                    match applied_configuration(hs[k].3, st.head) {
                        Err(e) => Err(BarrierError::ApplyPartial(st.id, e)),
                        Ok(c) => Ok(
                            hs.update(k, (hs[k].0, hs[k].1, extend_modes(hs[k].2, st.head.modes@, modes), c)),
                        ),
                    }
                } else {
                    match create_error(st.head) {
                        Some(e) => Err(BarrierError::CreateHead(st.id, e)),
                        None => if first_index(hs, has_identity(identity_of(st.head))) >= 0 {
                            Err(BarrierError::DuplicateIdentity(st.id))
                        } else {
                            Ok(
                                hs.push(
                                    (
                                        st.id,
                                        identity_of(st.head),
                                        extend_modes(Seq::empty(), st.head.modes@, modes),
                                        if st.head.enabled == Some(true) {
                                            Some(configured(HeadConfiguration::initial(), st.head))
                                        } else {
                                            None
                                        },
                                    ),
                                ),
                            )
                        },
                    }
                }
            },
        }
    }
}

/// Whether no two committed heads share an identity.
pub open spec fn identities_unique(hs: Seq<HeadView>) -> bool {
    forall|i: int, j: int|
        0 <= i < hs.len() && 0 <= j < hs.len() && i != j ==> (#[trigger] hs[i]).1 != (
        #[trigger] hs[j]).1
}

/// Committing staged heads at a barrier keeps the identities of the committed
/// heads unique: changes never touch an identity, and a new head is only
/// promoted with an identity that no committed head has.
pub proof fn lemma_commit_keeps_identities_unique(
    heads: Seq<HeadView>,
    staged: Seq<PartialHeadState>,
    modes: Seq<ModeState>,
)
    requires
        identities_unique(heads),
    ensures
        committed_heads(heads, staged, modes) matches Ok(hs) ==> identities_unique(hs),
    decreases staged.len(),
{
    if staged.len() > 0 {
        lemma_commit_keeps_identities_unique(heads, staged.drop_last(), modes);
        if let Ok(hs) = committed_heads(heads, staged.drop_last(), modes) {
            let st = staged.last();
            let k = first_index(hs, head_id_is(st.id));
            lemma_first_index(hs, head_id_is(st.id));
            if k >= 0 {
                if let Ok(c) = applied_configuration(hs[k].3, st.head) {
                    let next = hs.update(
                        k,
                        (hs[k].0, hs[k].1, extend_modes(hs[k].2, st.head.modes@, modes), c),
                    );
                    assert forall|i: int, j: int|
                        0 <= i < next.len() && 0 <= j < next.len() && i != j implies (
                        #[trigger] next[i]).1 != (#[trigger] next[j]).1 by {
                        assert(next[i].1 == hs[i].1);
                        assert(next[j].1 == hs[j].1);
                    }
                }
            } else {
                let v = identity_of(st.head);
                lemma_first_index(hs, has_identity(v));
                if create_error(st.head).is_none() && first_index(hs, has_identity(v)) < 0 {
                    let next = hs.push(
                        (
                            st.id,
                            v,
                            extend_modes(Seq::empty(), st.head.modes@, modes),
                            if st.head.enabled == Some(true) {
                                Some(configured(HeadConfiguration::initial(), st.head))
                            } else {
                                None
                            },
                        ),
                    );
                    assert forall|i: int, j: int|
                        0 <= i < next.len() && 0 <= j < next.len() && i != j implies (
                        #[trigger] next[i]).1 != (#[trigger] next[j]).1 by {
                        if i < hs.len() && j < hs.len() {
                            assert(next[i] == hs[i]);
                            assert(next[j] == hs[j]);
                        } else if i < hs.len() {
                            assert(next[i] == hs[i]);
                            assert(!has_identity(v)(hs[i]));
                        } else {
                            assert(next[j] == hs[j]);
                            assert(!has_identity(v)(hs[j]));
                        }
                    }
                }
            }
        }
    }
}

/// Whether no two committed heads share an id.
pub open spec fn ids_unique(hs: Seq<HeadView>) -> bool {
    forall|i: int, j: int|
        0 <= i < hs.len() && 0 <= j < hs.len() && i != j ==> (#[trigger] hs[i]).0 != (
        #[trigger] hs[j]).0
}

/// Committing staged heads at a barrier keeps the ids of the committed heads
/// unique: a staged head of a committed id changes that head, and another one
/// is appended.
pub proof fn lemma_commit_keeps_ids_unique(
    heads: Seq<HeadView>,
    staged: Seq<PartialHeadState>,
    modes: Seq<ModeState>,
)
    requires
        ids_unique(heads),
    ensures
        committed_heads(heads, staged, modes) matches Ok(hs) ==> ids_unique(hs),
    decreases staged.len(),
{
    if staged.len() > 0 {
        lemma_commit_keeps_ids_unique(heads, staged.drop_last(), modes);
        if let Ok(hs) = committed_heads(heads, staged.drop_last(), modes) {
            let st = staged.last();
            let p = head_id_is(st.id);
            let k = first_index(hs, p);
            lemma_first_index(hs, p);
            if let Ok(next) = committed_heads(heads, staged, modes) {
                if k >= 0 {
                    assert forall|i: int, j: int|
                        0 <= i < next.len() && 0 <= j < next.len() && i != j implies (
                        #[trigger] next[i]).0 != (#[trigger] next[j]).0 by {
                        assert(next[i].0 == hs[i].0);
                        assert(next[j].0 == hs[j].0);
                    }
                } else {
                    assert forall|i: int, j: int|
                        0 <= i < next.len() && 0 <= j < next.len() && i != j implies (
                        #[trigger] next[i]).0 != (#[trigger] next[j]).0 by {
                        if i < hs.len() && j < hs.len() {
                            assert(next[i] == hs[i] && next[j] == hs[j]);
                        } else if i < hs.len() {
                            assert(next[i] == hs[i] && !p(hs[i]));
                        } else {
                            assert(next[j] == hs[j] && !p(hs[j]));
                        }
                    }
                }
            }
        }
    }
}

/// Whether two committed heads have different identities.
pub open spec fn distinct_identities() -> spec_fn(HeadState, HeadState) -> bool {
    |a: HeadState, b: HeadState| a.head.identity@ != b.head.identity@
}

proof fn lemma_heads_view_unique(s: Seq<HeadState>)
    ensures
        pairwise(s, distinct_keys::<HeadState>()) <==> ids_unique(heads_view(s)),
        pairwise(s, distinct_identities()) <==> identities_unique(heads_view(s)),
{
    let v = heads_view(s);
    if pairwise(s, distinct_keys::<HeadState>()) {
        assert forall|i: int, j: int| 0 <= i < v.len() && 0 <= j < v.len() && i != j implies (
        #[trigger] v[i]).0 != (#[trigger] v[j]).0 by {
            assert(distinct_keys::<HeadState>()(s[i], s[j]));
        }
    }
    if ids_unique(v) {
        assert forall|i: int, j: int| 0 <= i < s.len() && 0 <= j < s.len() && i != j implies distinct_keys::<
            HeadState,
        >()(#[trigger] s[i], #[trigger] s[j]) by {
            assert(v[i].0 != v[j].0);
        }
    }
    if pairwise(s, distinct_identities()) {
        assert forall|i: int, j: int| 0 <= i < v.len() && 0 <= j < v.len() && i != j implies (
        #[trigger] v[i]).1 != (#[trigger] v[j]).1 by {
            assert(distinct_identities()(s[i], s[j]));
        }
    }
    if identities_unique(v) {
        assert forall|i: int, j: int| 0 <= i < s.len() && 0 <= j < s.len() && i != j implies distinct_identities()(
            #[trigger] s[i],
            #[trigger] s[j],
        ) by {
            assert(v[i].1 != v[j].1);
        }
    }
}

/// Committing staged modes keeps the ids of the committed modes unique.
proof fn lemma_committed_modes_unique(c: Seq<ModeState>, p: Seq<PartialModeState>)
    requires
        pairwise(c, distinct_keys::<ModeState>()),
    ensures
        pairwise(committed_modes(c, p), distinct_keys::<ModeState>()),
    decreases p.len(),
{
    if p.len() > 0 {
        lemma_committed_modes_unique(c, p.drop_last());
        let prev = committed_modes(c, p.drop_last());
        if let Ok(mode) = Mode::from_partial_spec(p.last().mode) {
            let id = p.last().id;
            lemma_without_key_pairwise(prev, id, distinct_keys::<ModeState>());
            lemma_without_key_members(prev, id);
            let rest = without_key(prev, id);
            let next = rest.push(ModeState { id, mode });
            assert forall|i: int, j: int| 0 <= i < next.len() && 0 <= j < next.len() && i != j implies distinct_keys::<
                ModeState,
            >()(#[trigger] next[i], #[trigger] next[j]) by {
                if i < rest.len() && j < rest.len() {
                    assert(next[i] == rest[i] && next[j] == rest[j]);
                } else if i < rest.len() {
                    assert(next[i] == rest[i] && rest.contains(rest[i]));
                } else {
                    assert(next[j] == rest[j] && rest.contains(rest[j]));
                }
            }
        }
    }
}

/// The live layout has one entry per committed head, with its identity.
proof fn lemma_live_entries_ids(hs: Seq<HeadView>, modes: Seq<ModeState>)
    ensures
        live_entries(hs, modes) matches Ok(live) ==> live.len() == hs.len() && forall|i: int|
            0 <= i < hs.len() ==> (#[trigger] live[i]).0 == hs[i].1,
    decreases hs.len(),
{
    if hs.len() > 0 {
        lemma_live_entries_ids(hs.drop_last(), modes);
        if let Ok(live) = live_entries(hs, modes) {
            let prev = live_entries(hs.drop_last(), modes)->Ok_0;
            assert forall|i: int| 0 <= i < hs.len() implies (#[trigger] live[i]).0 == hs[i].1 by {
                if i < hs.len() - 1 {
                    assert(live[i] == prev[i]);
                    assert(hs.drop_last()[i] == hs[i]);
                }
            }
        }
    }
}

/// The layout entry of a committed head: its identity and its saved
/// configuration; none where its current mode is not committed.
pub open spec fn saved_entry(h: HeadView, modes: Seq<ModeState>) -> Option<Option<SavedConfiguration>> {
    match h.3 {
        None => Some(None),
        Some(c) => match saved_from(c, modes) {
            Some(sc) => Some(Some(sc)),
            None => None,
        },
    }
}

/// The live layout: one entry per committed head, in order.
pub open spec fn live_entries(hs: Seq<HeadView>, modes: Seq<ModeState>) -> Result<Seq<EntryView>, BarrierError>
    decreases hs.len(),
{
    if hs.len() == 0 {
        Ok(Seq::empty())
    } else {
        match live_entries(hs.drop_last(), modes) {
            Err(e) => Err(e),
            Ok(es) => match saved_entry(hs.last(), modes) {
                None => Err(BarrierError::MissingCurrentMode(hs.last().0)),
                Some(c) => Ok(es.push((hs.last().1, c))),
            },
        }
    }
}

/// The identities of a layout's entries.
pub open spec fn entry_ids(l: Seq<EntryView>) -> Seq<IdentityView> {
    l.map_values(|e: EntryView| e.0)
}

/// What a barrier decides for the live layout `live`, with the stored layouts
/// going from `before` to `after` and the state from `state` to `next`.
pub open spec fn decision(
    before: Seq<Seq<EntryView>>,
    effective: DoneAction,
    state: DoneAction,
    heads: Seq<HeadView>,
    live: Seq<EntryView>,
    after: Seq<Seq<EntryView>>,
    next: DoneAction,
    r: Result<BarrierAction, BarrierError>,
) -> bool {
    match find_match(before.map_values(|l: Seq<EntryView>| entry_ids(l)), entry_ids(live)) {
        None => if effective == DoneAction::ApplyResult {
            &&& r == Err::<BarrierAction, BarrierError>(BarrierError::NoMatchAfterApply)
            &&& after == before
            &&& next == state
        } else {
            &&& r matches Ok(BarrierAction::Saved)
            &&& after == before.push(live)
            &&& next == DoneAction::Update
        },
        Some((i, remap)) => match effective {
            DoneAction::Update => {
                &&& r matches Ok(BarrierAction::Updated(k)) && k == i
                &&& after == before.update(i, live)
                &&& next == state
            },
            DoneAction::Apply => {
                &&& after == before
                &&& match r {
                    Ok(BarrierAction::Apply(requests)) => {
                        &&& all_resolved(before[i], remap, heads)
                        &&& is_transaction(requests@, before[i], remap, heads)
                        &&& next == DoneAction::ApplyResult
                    },
                    Err(e) => {
                        &&& e == BarrierError::UnresolvedHead
                        &&& !all_resolved(before[i], remap, heads)
                        &&& next == state
                    },
                    _ => false,
                }
            },
            DoneAction::ApplyResult => {
                &&& r matches Ok(BarrierAction::Ignored)
                &&& after == before
                &&& next == state
            },
        },
    }
}

/// While a submitted transaction is pending, a barrier never submits another one
/// and never leaves the pending state: it ignores a match, and reports an error
/// where nothing matches. Only a transaction result (or a head coming or going)
/// changes that state.
pub proof fn lemma_pending_transaction_is_kept(
    before: Seq<Seq<EntryView>>,
    heads: Seq<HeadView>,
    live: Seq<EntryView>,
    after: Seq<Seq<EntryView>>,
    next: DoneAction,
    r: Result<BarrierAction, BarrierError>,
)
    requires
        decision(before, DoneAction::ApplyResult, DoneAction::ApplyResult, heads, live, after, next, r),
    ensures
        !(r matches Ok(BarrierAction::Apply(_))),
        r is Ok ==> next == DoneAction::ApplyResult && after == before,
        r is Err ==> r == Err::<BarrierAction, BarrierError>(BarrierError::NoMatchAfterApply),
{
}

/// With a valid store and committed heads of distinct identities, the layout a
/// barrier selects always stands for live heads only: every entry resolves,
/// through the remapping or as itself, to a committed head, so applying it
/// never reports `UnresolvedHead`.
pub proof fn lemma_selected_layout_resolves(
    before: Seq<Seq<EntryView>>,
    heads: Seq<HeadView>,
    live: Seq<EntryView>,
)
    requires
        store_valid(before),
        identities_unique(heads),
        live.len() == heads.len(),
        forall|i: int| 0 <= i < heads.len() ==> (#[trigger] live[i]).0 == heads[i].1,
    ensures
        match find_match(before.map_values(|l: Seq<EntryView>| entry_ids(l)), entry_ids(live)) {
            Some((i, remap)) => all_resolved(before[i], remap, heads),
            None => true,
        },
{
    broadcast use vstd::seq_lib::group_to_multiset_ensures;

    let ls = before.map_values(|l: Seq<EntryView>| entry_ids(l));
    let q = entry_ids(live);
    assert(q.no_duplicates()) by {
        assert forall|a: int, b: int| 0 <= a < q.len() && 0 <= b < q.len() && a != b implies q[a] != q[b] by {
            assert(q[a] == heads[a].1 && q[b] == heads[b].1);
        }
    }
    assert forall|k: int| 0 <= k < ls.len() implies (#[trigger] ls[k]).no_duplicates() by {
        let l = before[k];
        assert(layout_valid(l));
        assert forall|a: int, b: int| 0 <= a < ls[k].len() && 0 <= b < ls[k].len() && a != b implies ls[k][a]
            != ls[k][b] by {
            assert(ls[k][a] == l[a].0 && ls[k][b] == l[b].0);
        }
    }
    lemma_first_index(ls, is_exact(q));
    lemma_first_index(ls, is_same_heads(q));
    if let Some((i, remap)) = find_match(ls, q) {
        let l = ls[i];
        let exact = first_index(ls, is_exact(q)) >= 0;
        if exact {
            lemma_exact_iff_same_members(l, q);
        } else {
            lemma_fuzzy_match_is_full_bijection(l, q);
            lemma_not_in_members(l, q);
            lemma_not_in_members(q, l);
        }
        assert forall|t: int| 0 <= t < before[i].len() implies (#[trigger] entry_request(
            before[i][t],
            remap,
            heads,
        )).is_some() by {
            let v = before[i][t].0;
            assert(l[t] == v);
            assert(l.contains(v));
            let target = remapped(remap, v);
            lemma_first_index(remap, remaps(v));
            if exact {
                assert(remap.len() == 0);
                assert(target == v);
            } else {
                let rl = not_in(l, q);
                let rq = not_in(q, l);
                if q.contains(v) {
                    assert(!rl.contains(v));
                    assert(rl.to_multiset().count(v) == 0);
                    assert(firsts(remap).to_multiset().count(v) == 0);
                    if first_index(remap, remaps(v)) >= 0 {
                        let k = first_index(remap, remaps(v));
                        assert(firsts(remap)[k] == v);
                        assert(firsts(remap).contains(v));
                    }
                    assert(target == v);
                } else {
                    assert(rl.contains(v));
                    assert(rl.to_multiset().count(v) > 0);
                    assert(firsts(remap).contains(v));
                    let k = choose|k: int| 0 <= k < firsts(remap).len() && firsts(remap)[k] == v;
                    assert(remaps(v)(remap[k]));
                    let f = first_index(remap, remaps(v));
                    assert(target == remap[f].1);
                    assert(remap[f].1 == rq[f]);
                    assert(rq.contains(rq[f]));
                }
            }
            assert(q.contains(target));
            let j = choose|j: int| 0 <= j < q.len() && q[j] == target;
            assert(heads[j].1 == target);
            lemma_first_index(heads, has_identity(target));
            assert(has_identity(target)(heads[j]));
        }
    }
}

/// What a barrier reports: the staged modes dropped for lack of a size, whose
/// objects may be released, and the decision.
#[derive(Debug)]
pub struct BarrierOutcome {
    pub phantom_modes: Vec<u32>,
    pub action: BarrierAction,
}

proof fn lemma_live_entries_fail_on_prefix(hs: Seq<HeadView>, modes: Seq<ModeState>, n: int, e: BarrierError)
    requires
        0 <= n <= hs.len(),
        live_entries(hs.subrange(0, n), modes) == Err::<Seq<EntryView>, BarrierError>(e),
    ensures
        live_entries(hs, modes) == Err::<Seq<EntryView>, BarrierError>(e),
    decreases hs.len() - n,
{
    if n == hs.len() {
        assert(hs.subrange(0, n) =~= hs);
    } else {
        assert(hs.drop_last().subrange(0, n) =~= hs.subrange(0, n));
        lemma_live_entries_fail_on_prefix(hs.drop_last(), modes, n, e);
    }
}

proof fn lemma_committed_heads_fail_on_prefix(
    heads: Seq<HeadView>,
    staged: Seq<PartialHeadState>,
    modes: Seq<ModeState>,
    n: int,
    e: BarrierError,
)
    requires
        0 <= n <= staged.len(),
        committed_heads(heads, staged.subrange(0, n), modes) == Err::<Seq<HeadView>, BarrierError>(e),
    ensures
        committed_heads(heads, staged, modes) == Err::<Seq<HeadView>, BarrierError>(e),
    decreases staged.len() - n,
{
    if n == staged.len() {
        assert(staged.subrange(0, n) =~= staged);
    } else {
        assert(staged.drop_last().subrange(0, n) =~= staged.subrange(0, n));
        lemma_committed_heads_fail_on_prefix(heads, staged.drop_last(), modes, n, e);
    }
}

proof fn lemma_head_key_index(s: Seq<HeadState>, id: u32)
    ensures
        key_index(s, id) == first_index(heads_view(s), head_id_is(id)),
{
    lemma_key_index(s, id);
    lemma_first_index(heads_view(s), head_id_is(id));
    let a = key_index(s, id);
    let b = first_index(heads_view(s), head_id_is(id));
    if a >= 0 {
        assert(head_id_is(id)(heads_view(s)[a]));
    }
    if b >= 0 {
        assert(heads_view(s)[b].0 == s[b].id);
    }
    if a == -1 && b >= 0 {
        assert(s[b].key() == id);
    }
    if b == -1 && a >= 0 {
        assert(!head_id_is(id)(heads_view(s)[a]));
    }
}

/// The daemon's whole state: staged and committed objects, the orchestrator's
/// state and the layout store.
pub struct AppData {
    /// Save or update once, never apply.
    pub save_and_exit: bool,
    pub partial_objects: PartialObjects,
    pub id_to_head: Vec<HeadState>,
    pub id_to_mode: Vec<ModeState>,
    pub done_action: DoneAction,
    pub layout_data: LayoutData,
}

impl AppData {
    /// The invariants of the committed state: no two committed heads share an
    /// id or an identity, no two committed modes share an id, and no stored
    /// layout repeats an identity.
    pub open spec fn wf(&self) -> bool {
        &&& self.layout_data.wf()
        &&& pairwise(self.id_to_head@, distinct_keys::<HeadState>())
        &&& pairwise(self.id_to_head@, distinct_identities())
        &&& pairwise(self.id_to_mode@, distinct_keys::<ModeState>())
    }

    /// A daemon with nothing seen yet, in the state `Update`.
    pub fn new(save_and_exit: bool, layout_data: LayoutData) -> (r: AppData)
        ensures
            r.save_and_exit == save_and_exit,
            r.done_action == DoneAction::Update,
            r.partial_objects.id_to_head@.len() == 0,
            r.partial_objects.id_to_mode@.len() == 0,
            r.id_to_head@.len() == 0,
            r.id_to_mode@.len() == 0,
            r.layout_data == layout_data,
            layout_data.wf() ==> r.wf(),
    {
        AppData {
            save_and_exit,
            partial_objects: PartialObjects { id_to_head: Vec::new(), id_to_mode: Vec::new() },
            id_to_head: Vec::new(),
            id_to_mode: Vec::new(),
            done_action: DoneAction::Update,
            layout_data,
        }
    }

    /// The state the barrier acts in: `Update` when saving once, else the current state.
    pub open spec fn effective_action(&self) -> DoneAction {
        if self.save_and_exit {
            DoneAction::Update
        } else {
            self.done_action
        }
    }

    /// Records the result of the submitted transaction: success returns to
    /// updating; cancellation or failure retries at the next barrier.
    pub fn configuration_result(&mut self, result: ConfigurationResult)
        ensures
            old(self).wf() ==> final(self).wf(),
            final(self).done_action == (match result {
                ConfigurationResult::Succeeded => DoneAction::Update,
                _ => DoneAction::Apply,
            }),
            final(self).save_and_exit == old(self).save_and_exit,
            final(self).partial_objects == old(self).partial_objects,
            final(self).id_to_head == old(self).id_to_head,
            final(self).id_to_mode == old(self).id_to_mode,
            final(self).layout_data == old(self).layout_data,
    {
        self.done_action = match result {
            ConfigurationResult::Succeeded => DoneAction::Update,
            _ => DoneAction::Apply,
        };
    }

    /// Commits the staged modes: each one with a size replaces the committed mode
    /// of its id; the ids of the others are returned.
    pub fn commit_modes(&mut self) -> (r: Vec<u32>)
        ensures
            final(self).id_to_mode@ == committed_modes(
                old(self).id_to_mode@,
                old(self).partial_objects.id_to_mode@,
            ),
            r@ == phantom_ids(old(self).partial_objects.id_to_mode@),
            final(self).partial_objects.id_to_mode@.len() == 0,
            final(self).partial_objects.id_to_head == old(self).partial_objects.id_to_head,
            final(self).done_action == old(self).done_action,
            final(self).save_and_exit == old(self).save_and_exit,
            final(self).id_to_head == old(self).id_to_head,
            final(self).layout_data == old(self).layout_data,
    {
        let ghost staged = self.partial_objects.id_to_mode@;
        let mut phantoms: Vec<u32> = Vec::new();
        let mut i: usize = 0;
        while i < self.partial_objects.id_to_mode.len()
            invariant
                i <= staged.len(),
                staged == self.partial_objects.id_to_mode@,
                self.id_to_mode@ == committed_modes(
                    old(self).id_to_mode@,
                    staged.subrange(0, i as int),
                ),
                phantoms@ == phantom_ids(staged.subrange(0, i as int)),
                staged == old(self).partial_objects.id_to_mode@,
                self.partial_objects.id_to_head == old(self).partial_objects.id_to_head,
                self.done_action == old(self).done_action,
                self.save_and_exit == old(self).save_and_exit,
                self.id_to_head == old(self).id_to_head,
                self.layout_data == old(self).layout_data,
            decreases staged.len() - i,
        {
            assert(staged.subrange(0, i as int + 1).drop_last() =~= staged.subrange(0, i as int));
            let staged_mode = self.partial_objects.id_to_mode[i];
            match ModeState::from_partial(staged_mode) {
                Ok(mode) => {
                    remove_key(&mut self.id_to_mode, staged_mode.id);
                    self.id_to_mode.push(mode);
                },
                Err(_) => {
                    phantoms.push(staged_mode.id);
                },
            }
            i += 1;
        }
        assert(staged.subrange(0, staged.len() as int) =~= staged);
        self.partial_objects.id_to_mode = Vec::new();
        phantoms
    }

    /// Commits the staged heads in turn: changes to a committed head are applied
    /// to it; a new head is promoted and must have an identity no committed head
    /// has. Stops at the first error.
    pub fn commit_heads(&mut self) -> (r: Result<(), BarrierError>)
        ensures
            match committed_heads(
                heads_view(old(self).id_to_head@),
                old(self).partial_objects.id_to_head@,
                old(self).id_to_mode@,
            ) {
                Ok(hs) => r is Ok && heads_view(final(self).id_to_head@) == hs,
                Err(e) => r == Err::<(), BarrierError>(e),
            },
            final(self).partial_objects.id_to_head@.len() == 0,
            final(self).partial_objects.id_to_mode == old(self).partial_objects.id_to_mode,
            final(self).done_action == old(self).done_action,
            final(self).save_and_exit == old(self).save_and_exit,
            final(self).id_to_mode == old(self).id_to_mode,
            final(self).layout_data == old(self).layout_data,
    {
        let ghost initial = self.partial_objects.id_to_head@;
        let mut staged: Vec<PartialHeadState> = Vec::new();
        std::mem::swap(&mut staged, &mut self.partial_objects.id_to_head);
        let ghost modes = self.id_to_mode@;
        let ghost hv0 = heads_view(self.id_to_head@);
        let ghost mut n: int = 0;
        while staged.len() > 0
            invariant
                0 <= n <= initial.len(),
                staged@ == initial.subrange(n, initial.len() as int),
                initial == old(self).partial_objects.id_to_head@,
                modes == self.id_to_mode@,
                hv0 == heads_view(old(self).id_to_head@),
                committed_heads(hv0, initial.subrange(0, n), modes) == Ok::<
                    Seq<HeadView>,
                    BarrierError,
                >(heads_view(self.id_to_head@)),
                self.partial_objects.id_to_head@.len() == 0,
                self.partial_objects.id_to_mode == old(self).partial_objects.id_to_mode,
                self.done_action == old(self).done_action,
                self.save_and_exit == old(self).save_and_exit,
                self.id_to_mode == old(self).id_to_mode,
                self.layout_data == old(self).layout_data,
            decreases staged@.len(),
        {
            assert(initial.subrange(0, n + 1).drop_last() =~= initial.subrange(0, n));
            let st = staged.remove(0);
            assert(st == initial[n]);
            assert(staged@ =~= initial.subrange(n + 1, initial.len() as int));
            let ghost hs = heads_view(self.id_to_head@);
            proof {
                lemma_head_key_index(self.id_to_head@, st.id);
                lemma_first_index(hs, head_id_is(st.id));
            }
            let id = st.id;
            match index_of(&self.id_to_head, id) {
                Some(k) => {
                    match self.id_to_head[k].head.apply_partial(st.head, &self.id_to_mode) {
                        Ok(()) => {},
                        Err(e) => {
                            proof {
                                lemma_committed_heads_fail_on_prefix(
                                    hv0,
                                    initial,
                                    modes,
                                    n + 1,
                                    BarrierError::ApplyPartial(id, e),
                                );
                            }
                            return Err(BarrierError::ApplyPartial(id, e));
                        },
                    }
                    assert(heads_view(self.id_to_head@) =~= hs.update(
                        k as int,
                        (
                            hs[k as int].0,
                            hs[k as int].1,
                            extend_modes(hs[k as int].2, st.head.modes@, modes),
                            self.id_to_head@[k as int].head.configuration,
                        ),
                    ));
                },
                None => {
                    let head = match HeadState::create_from_partial(st, &self.id_to_mode) {
                        Ok(head) => head,
                        Err(e) => {
                            proof {
                                lemma_committed_heads_fail_on_prefix(
                                    hv0,
                                    initial,
                                    modes,
                                    n + 1,
                                    BarrierError::CreateHead(id, e),
                                );
                            }
                            return Err(BarrierError::CreateHead(id, e));
                        },
                    };
                    if self.head_index_for_identity(&head.head.identity).is_some() {
                        proof {
                            lemma_committed_heads_fail_on_prefix(
                                hv0,
                                initial,
                                modes,
                                n + 1,
                                BarrierError::DuplicateIdentity(id),
                            );
                        }
                        return Err(BarrierError::DuplicateIdentity(id));
                    }
                    self.id_to_head.push(head);
                    assert(heads_view(self.id_to_head@) =~= hs.push(head_view(head)));
                },
            }
            proof {
                n = n + 1;
            }
        }
        assert(initial.subrange(0, n) =~= initial);
        Ok(())
    }

    /// The live layout: each committed head's identity with its saved
    /// configuration, in order; an error for the first enabled head whose current
    /// mode is not committed.
    pub fn current_layout(&self) -> (r: Result<Layout, BarrierError>)
        ensures
            match live_entries(heads_view(self.id_to_head@), self.id_to_mode@) {
                Ok(live) => r matches Ok(l) && entry_views(l@) == live,
                Err(e) => r == Err::<Layout, BarrierError>(e),
            },
    {
        let ghost hv = heads_view(self.id_to_head@);
        let mut layout: Layout = Vec::new();
        assert(entry_views(layout@) =~= Seq::empty());
        assert(hv.subrange(0, 0) =~= Seq::empty());
        let mut i: usize = 0;
        while i < self.id_to_head.len()
            invariant
                i <= self.id_to_head@.len(),
                hv == heads_view(self.id_to_head@),
                live_entries(hv.subrange(0, i as int), self.id_to_mode@) == Ok::<
                    Seq<EntryView>,
                    BarrierError,
                >(entry_views(layout@)),
            decreases self.id_to_head@.len() - i,
        {
            assert(hv.subrange(0, i as int + 1).drop_last() =~= hv.subrange(0, i as int));
            assert(hv.subrange(0, i as int + 1).last() == hv[i as int]);
            let head = &self.id_to_head[i];
            let saved = match &head.head.configuration {
                None => None,
                Some(c) => match SavedConfiguration::from_config(c, &self.id_to_mode) {
                    Some(sc) => Some(sc),
                    None => {
                        proof {
                            lemma_live_entries_fail_on_prefix(
                                hv,
                                self.id_to_mode@,
                                i + 1,
                                BarrierError::MissingCurrentMode(head.id),
                            );
                        }
                        return Err(BarrierError::MissingCurrentMode(head.id));
                    },
                },
            };
            let ghost before = layout@;
            let identity = head.head.identity.clone();
            layout.push((identity, saved));
            assert(entry_views(layout@) =~= entry_views(before).push((identity@, saved)));
            i += 1;
        }
        assert(hv.subrange(0, hv.len() as int) =~= hv);
        Ok(layout)
    }

    /// Handles a barrier: commits the staged modes and heads, builds the live
    /// layout and decides what to do with it.
    pub fn done(&mut self) -> (r: Result<BarrierOutcome, BarrierError>)
        ensures
            old(self).wf() && r is Ok ==> final(self).wf(),
            ({
                let modes = committed_modes(
                    old(self).id_to_mode@,
                    old(self).partial_objects.id_to_mode@,
                );
                &&& r is Err ==> final(self).done_action == old(self).done_action
                    && layouts_view(final(self).layout_data.layouts@) == layouts_view(
                    old(self).layout_data.layouts@,
                )
                &&& match committed_heads(
                    heads_view(old(self).id_to_head@),
                    old(self).partial_objects.id_to_head@,
                    modes,
                ) {
                    Err(e) => r == Err::<BarrierOutcome, BarrierError>(e),
                    Ok(hs) => match live_entries(hs, modes) {
                        Err(e) => r == Err::<BarrierOutcome, BarrierError>(e),
                        Ok(live) => {
                            &&& final(self).id_to_mode@ == modes
                            &&& heads_view(final(self).id_to_head@) == hs
                            &&& final(self).partial_objects.id_to_head@.len() == 0
                            &&& final(self).partial_objects.id_to_mode@.len() == 0
                            &&& final(self).save_and_exit == old(self).save_and_exit
                            &&& r matches Ok(outcome) ==> outcome.phantom_modes@ == phantom_ids(
                                old(self).partial_objects.id_to_mode@,
                            )
                            &&& decision(
                                layouts_view(old(self).layout_data.layouts@),
                                old(self).effective_action(),
                                old(self).done_action,
                                hs,
                                live,
                                layouts_view(final(self).layout_data.layouts@),
                                final(self).done_action,
                                match r {
                                    Ok(outcome) => Ok(outcome.action),
                                    Err(e) => Err(e),
                                },
                            )
                        },
                    },
                }
            }),
    {
        proof {
            if self.wf() {
                lemma_committed_modes_unique(self.id_to_mode@, self.partial_objects.id_to_mode@);
                lemma_heads_view_unique(self.id_to_head@);
            }
        }
        let phantom_modes = self.commit_modes();
        let ghost heads_before = heads_view(self.id_to_head@);
        let ghost staged = self.partial_objects.id_to_head@;
        let ghost modes = self.id_to_mode@;
        proof {
            if old(self).wf() {
                lemma_commit_keeps_ids_unique(heads_before, staged, modes);
                lemma_commit_keeps_identities_unique(heads_before, staged, modes);
            }
        }
        match self.commit_heads() {
            Ok(()) => {},
            Err(e) => return Err(e),
        }
        let current = match self.current_layout() {
            Ok(current) => current,
            Err(e) => return Err(e),
        };
        proof {
            if old(self).wf() {
                lemma_heads_view_unique(self.id_to_head@);
                let hs = heads_view(self.id_to_head@);
                lemma_live_entries_ids(hs, self.id_to_mode@);
                let live = entry_views(current@);
                assert forall|i: int, j: int| 0 <= i < live.len() && 0 <= j < live.len() && i != j implies (
                #[trigger] live[i]).0 != (#[trigger] live[j]).0 by {
                    assert(hs[i].1 != hs[j].1);
                }
            }
        }
        match self.decide(current) {
            Ok(action) => Ok(BarrierOutcome { phantom_modes, action }),
            Err(e) => Err(e),
        }
    }

    /// Decides what a barrier does with the live layout `current`: with no stored
    /// match, append it (an internal error right after an apply); with a match,
    /// overwrite it when updating, submit it when applying, and ignore the barrier
    /// that answers our own transaction.
    pub fn decide(&mut self, current: Layout) -> (r: Result<BarrierAction, BarrierError>)
        ensures
            old(self).layout_data.wf() && layout_valid(entry_views(current@))
                ==> final(self).layout_data.wf(),
            final(self).save_and_exit == old(self).save_and_exit,
            final(self).partial_objects == old(self).partial_objects,
            final(self).id_to_head == old(self).id_to_head,
            final(self).id_to_mode == old(self).id_to_mode,
            decision(
                layouts_view(old(self).layout_data.layouts@),
                old(self).effective_action(),
                old(self).done_action,
                heads_view(old(self).id_to_head@),
                entry_views(current@),
                layouts_view(final(self).layout_data.layouts@),
                final(self).done_action,
                r,
            ),
    {
        let ghost before = layouts_view(self.layout_data.layouts@);
        proof {
            assert(entry_ids(entry_views(current@)) =~= layout_views(current@));
            assert(before.map_values(|l: Seq<EntryView>| entry_ids(l)) =~= store_views(
                self.layout_data.layouts@,
            )) by {
                assert forall|i: int| 0 <= i < before.len() implies before.map_values(
                    |l: Seq<EntryView>| entry_ids(l),
                )[i] == store_views(self.layout_data.layouts@)[i] by {
                    assert(entry_ids(entry_views(self.layout_data.layouts@[i]@)) =~= layout_views(
                        self.layout_data.layouts@[i]@,
                    ));
                }
            }
        }
        let identities = layout_identities(&current);
        let found = self.layout_data.find_layout_match(&identities);
        let action = if self.save_and_exit {
            DoneAction::Update
        } else {
            self.done_action
        };
        match found {
            None => match action {
                DoneAction::ApplyResult => Err(BarrierError::NoMatchAfterApply),
                _ => {
                    self.layout_data.layouts.push(current);
                    assert(layouts_view(self.layout_data.layouts@) =~= before.push(
                        entry_views(current@),
                    ));
                    self.done_action = DoneAction::Update;
                    Ok(BarrierAction::Saved)
                },
            },
            Some((index, remap)) => match action {
                DoneAction::Update => {
                    proof {
                        lemma_first_index(
                            store_views(self.layout_data.layouts@),
                            crate::layout::is_exact(views(identities@)),
                        );
                        lemma_first_index(
                            store_views(self.layout_data.layouts@),
                            crate::layout::is_same_heads(views(identities@)),
                        );
                    }
                    self.layout_data.layouts.set(index, current);
                    assert(layouts_view(self.layout_data.layouts@) =~= before.update(
                        index as int,
                        entry_views(current@),
                    ));
                    Ok(BarrierAction::Updated(index))
                },
                DoneAction::Apply => {
                    proof {
                        lemma_first_index(
                            store_views(self.layout_data.layouts@),
                            crate::layout::is_exact(views(identities@)),
                        );
                        lemma_first_index(
                            store_views(self.layout_data.layouts@),
                            crate::layout::is_same_heads(views(identities@)),
                        );
                    }
                    let requests = self.build_transaction(index, &remap);
                    match requests {
                        Ok(requests) => {
                            self.done_action = DoneAction::ApplyResult;
                            Ok(BarrierAction::Apply(requests))
                        },
                        Err(e) => Err(e),
                    }
                },
                DoneAction::ApplyResult => Ok(BarrierAction::Ignored),
            },
        }
    }

    /// A new head was announced: it is staged afresh, and the next barrier tries
    /// to apply a layout.
    pub fn head_added(&mut self, id: u32)
        ensures
            old(self).wf() ==> final(self).wf(),
            final(self).done_action == DoneAction::Apply,
            lookup(final(self).partial_objects.id_to_head@, id) matches Some(h) && h.head.is_empty(),
            forall|j: u32|
                j != id ==> lookup(final(self).partial_objects.id_to_head@, j) == lookup(
                    old(self).partial_objects.id_to_head@,
                    j,
                ),
            final(self).partial_objects.id_to_mode == old(self).partial_objects.id_to_mode,
            final(self).save_and_exit == old(self).save_and_exit,
            final(self).id_to_head == old(self).id_to_head,
            final(self).id_to_mode == old(self).id_to_mode,
            final(self).layout_data == old(self).layout_data,
    {
        let fresh = PartialHeadState { id, head: PartialHead::new() };
        let ghost s = self.partial_objects.id_to_head@;
        match index_of(&self.partial_objects.id_to_head, id) {
            Some(k) => {
                proof {
                    lemma_key_index(s, id);
                    assert forall|j: u32| j != id implies lookup(s.update(k as int, fresh), j)
                        == lookup(s, j) by {
                        lemma_lookup_after_set(s, k as int, fresh, j);
                    }
                    lemma_lookup_after_set(s, k as int, fresh, id);
                }
                self.partial_objects.id_to_head.set(k, fresh);
            },
            None => {
                proof {
                    assert forall|j: u32| j != id implies lookup(s.push(fresh), j) == lookup(s, j) by {
                        lemma_lookup_after_push(s, fresh, j);
                    }
                    lemma_lookup_after_push(s, fresh, id);
                }
                self.partial_objects.id_to_head.push(fresh);
            },
        }
        self.done_action = DoneAction::Apply;
    }

    /// A head was removed: it leaves the staged and the committed heads, and the
    /// next barrier tries to apply a layout.
    pub fn head_finished(&mut self, id: u32)
        ensures
            old(self).wf() ==> final(self).wf(),
            final(self).done_action == DoneAction::Apply,
            final(self).partial_objects.id_to_head@ == without_key(
                old(self).partial_objects.id_to_head@,
                id,
            ),
            final(self).id_to_head@ == without_key(old(self).id_to_head@, id),
            final(self).partial_objects.id_to_mode == old(self).partial_objects.id_to_mode,
            final(self).save_and_exit == old(self).save_and_exit,
            final(self).id_to_mode == old(self).id_to_mode,
            final(self).layout_data == old(self).layout_data,
    {
        proof {
            if self.wf() {
                lemma_without_key_pairwise(self.id_to_head@, id, distinct_keys::<HeadState>());
                lemma_without_key_pairwise(self.id_to_head@, id, distinct_identities());
            }
        }
        remove_key(&mut self.partial_objects.id_to_head, id);
        remove_key(&mut self.id_to_head, id);
        self.done_action = DoneAction::Apply;
    }

    /// Stages a head event. A head seen for the first time since the last barrier
    /// is staged afresh; an advertised mode is also staged afresh as a mode.
    pub fn head_event(&mut self, id: u32, event: HeadEvent)
        ensures
            old(self).wf() ==> final(self).wf(),
            match lookup(old(self).partial_objects.id_to_head@, id) {
                Some(b) => lookup(final(self).partial_objects.id_to_head@, id) matches Some(a)
                    && recorded(b.head, a.head, event),
                None => lookup(final(self).partial_objects.id_to_head@, id) matches Some(a) && exists|
                    b: PartialHead,
                | b.is_empty() && recorded(b, a.head, event),
            },
            forall|j: u32|
                j != id ==> lookup(final(self).partial_objects.id_to_head@, j) == lookup(
                    old(self).partial_objects.id_to_head@,
                    j,
                ),
            match event {
                HeadEvent::Mode(m) => {
                    &&& lookup(final(self).partial_objects.id_to_mode@, m) == Some(
                        PartialModeState { id: m, mode: PartialMode { size: None, refresh: None } },
                    )
                    &&& forall|j: u32|
                        j != m ==> lookup(final(self).partial_objects.id_to_mode@, j) == lookup(
                            old(self).partial_objects.id_to_mode@,
                            j,
                        )
                },
                _ => final(self).partial_objects.id_to_mode == old(self).partial_objects.id_to_mode,
            },
            final(self).done_action == old(self).done_action,
            final(self).save_and_exit == old(self).save_and_exit,
            final(self).id_to_head == old(self).id_to_head,
            final(self).id_to_mode == old(self).id_to_mode,
            final(self).layout_data == old(self).layout_data,
    {
        let ghost s0 = self.partial_objects.id_to_head@;
        let k = match index_of(&self.partial_objects.id_to_head, id) {
            Some(k) => k,
            None => {
                let fresh = PartialHeadState { id, head: PartialHead::new() };
                proof {
                    assert forall|j: u32| j != id implies lookup(s0.push(fresh), j) == lookup(s0, j) by {
                        lemma_lookup_after_push(s0, fresh, j);
                    }
                    lemma_lookup_after_push(s0, fresh, id);
                }
                self.partial_objects.id_to_head.push(fresh);
                proof {
                    let s = self.partial_objects.id_to_head@;
                    lemma_key_index(s0, id);
                    lemma_key_index(s, id);
                    assert forall|j: int| 0 <= j < s0.len() implies #[trigger] s[j] == s0[j] by {}
                    assert(s[s0.len() as int] == fresh);
                    if key_index(s, id) >= 0 && key_index(s, id) < s0.len() {
                        assert(s0[key_index(s, id)].key() == id);
                    }
                    assert(key_index(s, id) == s0.len());
                }
                self.partial_objects.id_to_head.len() - 1
            },
        };
        let ghost s1 = self.partial_objects.id_to_head@;
        proof {
            lemma_key_index(s1, id);
        }
        let mode_id = match &event {
            HeadEvent::Mode(m) => Some(*m),
            _ => None,
        };
        let mut entry = PartialHeadState { id, head: PartialHead::new() };
        std::mem::swap(&mut entry, &mut self.partial_objects.id_to_head[k]);
        let ghost before = entry.head;
        assert(entry == s1[k as int]);
        assert(entry.id == id);
        assert(lookup(s1, id) == Some(entry));
        assert(lookup(old(self).partial_objects.id_to_head@, id) matches Some(b) ==> b.head == before);
        assert(lookup(old(self).partial_objects.id_to_head@, id) is None ==> before.is_empty());
        entry.head.record(event);
        let ghost after = entry;
        assert(recorded(before, after.head, event));
        proof {
            assert forall|j: u32| j != id implies lookup(s1.update(k as int, after), j) == lookup(
                s1,
                j,
            ) by {
                lemma_lookup_after_set(s1, k as int, after, j);
            }
            lemma_lookup_after_set(s1, k as int, after, id);
        }
        self.partial_objects.id_to_head.set(k, entry);
        assert(self.partial_objects.id_to_head@ =~= s1.update(k as int, after));
        assert(lookup(old(self).partial_objects.id_to_head@, id) is None ==> (before.is_empty()
            && recorded(before, after.head, event)));
        if let Some(m) = mode_id {
            let fresh = PartialModeState { id: m, mode: PartialMode { size: None, refresh: None } };
            let ghost t = self.partial_objects.id_to_mode@;
            match index_of(&self.partial_objects.id_to_mode, m) {
                Some(i) => {
                    proof {
                        lemma_key_index(t, m);
                        assert forall|j: u32| j != m implies lookup(t.update(i as int, fresh), j)
                            == lookup(t, j) by {
                            lemma_lookup_after_set(t, i as int, fresh, j);
                        }
                        lemma_lookup_after_set(t, i as int, fresh, m);
                    }
                    self.partial_objects.id_to_mode.set(i, fresh);
                },
                None => {
                    proof {
                        assert forall|j: u32| j != m implies lookup(t.push(fresh), j) == lookup(t, j) by {
                            lemma_lookup_after_push(t, fresh, j);
                        }
                        lemma_lookup_after_push(t, fresh, m);
                    }
                    self.partial_objects.id_to_mode.push(fresh);
                },
            }
        }
    }

    /// Stages a mode event for a staged mode.
    pub fn mode_event(&mut self, id: u32, event: ModeEvent) -> (r: Result<(), ModeEventError>)
        ensures
            old(self).wf() ==> final(self).wf(),
            match lookup(old(self).partial_objects.id_to_mode@, id) {
                None => r == Err::<(), ModeEventError>(ModeEventError::UnknownMode(id))
                    && final(self).partial_objects.id_to_mode == old(self).partial_objects.id_to_mode,
                Some(b) => {
                    &&& r is Ok
                    &&& lookup(final(self).partial_objects.id_to_mode@, id) == Some(
                        PartialModeState { id, mode: b.mode.recorded(event) },
                    )
                    &&& forall|j: u32|
                        j != id ==> lookup(final(self).partial_objects.id_to_mode@, j) == lookup(
                            old(self).partial_objects.id_to_mode@,
                            j,
                        )
                },
            },
            final(self).partial_objects.id_to_head == old(self).partial_objects.id_to_head,
            final(self).done_action == old(self).done_action,
            final(self).save_and_exit == old(self).save_and_exit,
            final(self).id_to_head == old(self).id_to_head,
            final(self).id_to_mode == old(self).id_to_mode,
            final(self).layout_data == old(self).layout_data,
    {
        let ghost t = self.partial_objects.id_to_mode@;
        match index_of(&self.partial_objects.id_to_mode, id) {
            None => {
                proof {
                    lemma_key_index(t, id);
                }
                Err(ModeEventError::UnknownMode(id))
            },
            Some(i) => {
                proof {
                    lemma_key_index(t, id);
                }
                let mut mode = self.partial_objects.id_to_mode[i].mode;
                match event {
                    ModeEvent::Size(w, h) => mode.size = Some((w, h)),
                    ModeEvent::Refresh(r) => mode.refresh = Some(r),
                }
                let updated = PartialModeState { id, mode };
                proof {
                    assert forall|j: u32| j != id implies lookup(t.update(i as int, updated), j)
                        == lookup(t, j) by {
                        lemma_lookup_after_set(t, i as int, updated, j);
                    }
                    lemma_lookup_after_set(t, i as int, updated, id);
                }
                self.partial_objects.id_to_mode.set(i, updated);
                Ok(())
            },
        }
    }

    /// A mode was removed: it leaves the staged and the committed modes and every
    /// head's mode table.
    pub fn mode_finished(&mut self, id: u32)
        ensures
            old(self).wf() ==> final(self).wf(),
            final(self).partial_objects.id_to_mode@ == without_key(
                old(self).partial_objects.id_to_mode@,
                id,
            ),
            final(self).id_to_mode@ == without_key(old(self).id_to_mode@, id),
            final(self).id_to_head@.len() == old(self).id_to_head@.len(),
            forall|k: int|
                0 <= k < final(self).id_to_head@.len() ==> {
                    let a = #[trigger] final(self).id_to_head@[k];
                    let b = old(self).id_to_head@[k];
                    &&& a.id == b.id
                    &&& a.head.identity == b.head.identity
                    &&& a.head.configuration == b.head.configuration
                    &&& a.head.mode_to_id@ == without_handle(b.head.mode_to_id@, id)
                },
            final(self).partial_objects.id_to_head == old(self).partial_objects.id_to_head,
            final(self).done_action == old(self).done_action,
            final(self).save_and_exit == old(self).save_and_exit,
            final(self).layout_data == old(self).layout_data,
    {
        proof {
            if self.wf() {
                lemma_without_key_pairwise(self.id_to_mode@, id, distinct_keys::<ModeState>());
            }
        }
        remove_key(&mut self.partial_objects.id_to_mode, id);
        remove_key(&mut self.id_to_mode, id);
        let ghost initial = self.id_to_head@;
        let mut k: usize = 0;
        while k < self.id_to_head.len()
            invariant
                k <= self.id_to_head@.len(),
                self.id_to_head@.len() == initial.len(),
                initial == old(self).id_to_head@,
                self.partial_objects.id_to_mode@ == without_key(
                    old(self).partial_objects.id_to_mode@,
                    id,
                ),
                self.id_to_mode@ == without_key(old(self).id_to_mode@, id),
                self.partial_objects.id_to_head == old(self).partial_objects.id_to_head,
                self.done_action == old(self).done_action,
                self.save_and_exit == old(self).save_and_exit,
                self.layout_data == old(self).layout_data,
                forall|i: int|
                    k <= i < initial.len() ==> #[trigger] self.id_to_head@[i] == initial[i],
                forall|i: int|
                    0 <= i < k ==> {
                        let a = #[trigger] self.id_to_head@[i];
                        let b = initial[i];
                        &&& a.id == b.id
                        &&& a.head.identity == b.head.identity
                        &&& a.head.configuration == b.head.configuration
                        &&& a.head.mode_to_id@ == without_handle(b.head.mode_to_id@, id)
                    },
            decreases initial.len() - k,
        {
            remove_handle(&mut self.id_to_head[k].head.mode_to_id, id);
            k += 1;
        }
        proof {
            if old(self).wf() {
                let h = self.id_to_head@;
                assert forall|i: int, j: int| 0 <= i < h.len() && 0 <= j < h.len() && i != j implies distinct_keys::<
                    HeadState,
                >()(#[trigger] h[i], #[trigger] h[j]) by {
                    assert(distinct_keys::<HeadState>()(initial[i], initial[j]));
                }
                assert forall|i: int, j: int| 0 <= i < h.len() && 0 <= j < h.len() && i != j implies distinct_identities()(
                    #[trigger] h[i],
                    #[trigger] h[j],
                ) by {
                    assert(distinct_identities()(initial[i], initial[j]));
                }
            }
        }
    }

    /// The position of the committed head with identity `identity`.
    pub fn head_index_for_identity(&self, identity: &HeadIdentity) -> (r: Option<usize>)
        ensures
            match r {
                Some(k) => k as int == first_index(heads_view(self.id_to_head@), has_identity(identity@)),
                None => first_index(heads_view(self.id_to_head@), has_identity(identity@)) == -1,
            },
    {
        let ghost hv = heads_view(self.id_to_head@);
        let ghost p = has_identity(identity@);
        let mut i: usize = 0;
        while i < self.id_to_head.len()
            invariant
                i <= self.id_to_head@.len(),
                hv == heads_view(self.id_to_head@),
                p == has_identity(identity@),
                first_index(hv.subrange(0, i as int), p) == -1,
            decreases self.id_to_head@.len() - i,
        {
            assert(hv.subrange(0, i as int + 1).drop_last() =~= hv.subrange(0, i as int));
            assert(hv.subrange(0, i as int + 1).last() == hv[i as int]);
            if self.id_to_head[i].head.identity.same_as(identity) {
                proof {
                    lemma_first_index(hv, p);
                    lemma_first_index(hv.subrange(0, i as int), p);
                    assert forall|j: int| 0 <= j < i implies !p(hv[j]) by {
                        assert(hv.subrange(0, i as int)[j] == hv[j]);
                    }
                }
                return Some(i);
            }
            i += 1;
        }
        assert(hv.subrange(0, hv.len() as int) =~= hv);
        None
    }

    /// Builds the transaction that applies the stored layout at `index`: each of
    /// its heads, resolved through `remap` and then by identity to a live head, is
    /// disabled or enabled with its saved configuration.
    pub fn build_transaction(&self, index: usize, remap: &Vec<(HeadIdentity, HeadIdentity)>) -> (r:
        Result<Vec<HeadRequest>, BarrierError>)
        requires
            index < self.layout_data.layouts@.len(),
        ensures
            ({
                let l = entry_views(self.layout_data.layouts@[index as int]@);
                let hv = heads_view(self.id_to_head@);
                match r {
                    Ok(requests) => all_resolved(l, pair_views(remap@), hv) && is_transaction(
                        requests@,
                        l,
                        pair_views(remap@),
                        hv,
                    ),
                    Err(e) => e == BarrierError::UnresolvedHead && !all_resolved(
                        l,
                        pair_views(remap@),
                        hv,
                    ),
                }
            }),
    {
        let layout = &self.layout_data.layouts[index];
        let ghost l = entry_views(layout@);
        let ghost rv = pair_views(remap@);
        let ghost hv = heads_view(self.id_to_head@);
        let mut requests: Vec<HeadRequest> = Vec::new();
        let mut i: usize = 0;
        while i < layout.len()
            invariant
                i <= layout@.len(),
                index < self.layout_data.layouts@.len(),
                layout@ == self.layout_data.layouts@[index as int]@,
                l == entry_views(layout@),
                rv == pair_views(remap@),
                hv == heads_view(self.id_to_head@),
                requests@.len() == i,
                forall|j: int| 0 <= j < i ==> Some(requests@[j]) == #[trigger] entry_request(l[j], rv, hv),
            decreases layout@.len() - i,
        {
            let entry = &layout[i];
            let target = remap_target(remap, &entry.0);
            assert(l[i as int] == (entry.0@, entry.1));
            let k = match self.head_index_for_identity(target) {
                Some(k) => k,
                None => {
                    assert(entry_request(l[i as int], rv, hv) is None);
                    assert(!all_resolved(l, rv, hv));
                    return Err(BarrierError::UnresolvedHead);
                },
            };
            proof {
                lemma_first_index(hv, has_identity(target@));
            }
            let head = &self.id_to_head[k];
            assert(hv[k as int] == head_view(*head));
            let request = match entry.1 {
                None => HeadRequest::Disable(head.id),
                Some(c) => c.apply(head.id, &head.head.mode_to_id),
            };
            let ghost before = requests@;
            requests.push(request);
            assert(Some(requests@[i as int]) == entry_request(l[i as int], rv, hv));
            assert forall|j: int| 0 <= j < i + 1 implies Some(requests@[j]) == #[trigger] entry_request(l[j], rv, hv) by {
                if j < i {
                    assert(requests@[j] == before[j]);
                }
            }
            i += 1;
        }
        assert(all_resolved(l, rv, hv)) by {
            assert forall|j: int| 0 <= j < l.len() implies (#[trigger] entry_request(l[j], rv, hv)).is_some() by {
                assert(Some(requests@[j]) == entry_request(l[j], rv, hv));
            }
        }
        Ok(requests)
    }
}

/// The live identity that `identity` stands for under `remap`.
fn remap_target<'a>(remap: &'a Vec<(HeadIdentity, HeadIdentity)>, identity: &'a HeadIdentity) -> (r:
    &'a HeadIdentity)
    ensures
        r@ == remapped(pair_views(remap@), identity@),
{
    let ghost rv = pair_views(remap@);
    let ghost p = remaps(identity@);
    let mut i: usize = 0;
    while i < remap.len()
        invariant
            i <= remap@.len(),
            rv == pair_views(remap@),
            p == remaps(identity@),
            first_index(rv.subrange(0, i as int), p) == -1,
        decreases remap@.len() - i,
    {
        assert(rv.subrange(0, i as int + 1).drop_last() =~= rv.subrange(0, i as int));
        assert(rv.subrange(0, i as int + 1).last() == rv[i as int]);
        if remap[i].0.same_as(identity) {
            proof {
                lemma_first_index(rv, p);
                lemma_first_index(rv.subrange(0, i as int), p);
                assert forall|j: int| 0 <= j < i implies !p(rv[j]) by {
                    assert(rv.subrange(0, i as int)[j] == rv[j]);
                }
            }
            return &remap[i].1;
        }
        i += 1;
    }
    assert(rv.subrange(0, rv.len() as int) =~= rv);
    identity
}

} // verus!
