use vstd::multiset::Multiset;
use vstd::prelude::*;

use crate::complete::{
    Fingerprint, fingerprint_of, find_mode, find_mode_handle, has_make_and_model, mode_handle, mode_of,
    HeadConfiguration, HeadIdentity, IdentityView, Mode, ModeState,
};

verus! {

/// The eight output transforms of the protocol.
#[derive(Clone, Copy, Debug, PartialEq, Eq, Hash, Structural)]
pub enum Transform {
    Normal,
    _90,
    _180,
    _270,
    Flipped,
    Flipped90,
    Flipped180,
    Flipped270,
}

/// A transform value on the wire that names none of the eight transforms.
#[derive(Clone, Copy, Debug, PartialEq, Eq, Structural)]
pub enum TransformConversionError {
    UnknownVariant(u32),
}

impl Transform {
    /// The protocol's wire value of a transform.
    pub open spec fn wire_value(self) -> u32 {
        match self {
            Transform::Normal => 0,
            Transform::_90 => 1,
            Transform::_180 => 2,
            Transform::_270 => 3,
            Transform::Flipped => 4,
            Transform::Flipped90 => 5,
            Transform::Flipped180 => 6,
            Transform::Flipped270 => 7,
        }
    }

    /// Reads a transform from its wire value.
    pub fn from_wire(value: u32) -> (r: Result<Transform, TransformConversionError>)
        ensures
            match r {
                Ok(t) => value < 8 && t.wire_value() == value,
                Err(e) => value >= 8 && e == TransformConversionError::UnknownVariant(value),
            },
    {
        match value {
            0 => Ok(Transform::Normal),
            1 => Ok(Transform::_90),
            2 => Ok(Transform::_180),
            3 => Ok(Transform::_270),
            4 => Ok(Transform::Flipped),
            5 => Ok(Transform::Flipped90),
            6 => Ok(Transform::Flipped180),
            7 => Ok(Transform::Flipped270),
            _ => Err(TransformConversionError::UnknownVariant(value)),
        }
    }

    /// The wire value of this transform.
    pub fn to_wire(self) -> (r: u32)
        ensures
            r == self.wire_value(),
            r < 8,
    {
        match self {
            Transform::Normal => 0,
            Transform::_90 => 1,
            Transform::_180 => 2,
            Transform::_270 => 3,
            Transform::Flipped => 4,
            Transform::Flipped90 => 5,
            Transform::Flipped180 => 6,
            Transform::Flipped270 => 7,
        }
    }
}

/// The persisted form of a head's configuration: the current mode as a value,
/// since mode objects do not outlive a connection. The scale is the bit pattern
/// of an IEEE-754 double.
#[derive(Clone, Copy, Debug, PartialEq)]
pub struct SavedConfiguration {
    pub mode: Option<Mode>,
    pub position: (u32, u32),
    pub transform: Transform,
    pub scale: u64,
    pub adaptive_sync: Option<bool>,
}

/// The persisted form of `c`, or none where its current mode is not a committed mode.
pub open spec fn saved_from(c: HeadConfiguration, modes: Seq<ModeState>) -> Option<SavedConfiguration> {
    match c.current_mode {
        Some(id) => match mode_of(modes, id) {
            Some(mode) => Some(
                SavedConfiguration {
                    mode: Some(mode),
                    position: c.position,
                    transform: c.transform,
                    scale: c.scale,
                    adaptive_sync: c.adaptive_sync,
                },
            ),
            None => None,
        },
        None => Some(
            SavedConfiguration {
                mode: None,
                position: c.position,
                transform: c.transform,
                scale: c.scale,
                adaptive_sync: c.adaptive_sync,
            },
        ),
    }
}

/// How a transaction sets a head's mode.
#[derive(Clone, Copy, Debug, PartialEq, Eq)]
pub enum ModeRequest {
    /// The mode object with this protocol id, which the head advertises.
    Existing(u32),
    /// A custom mode of this width, height and refresh rate (0 where unknown).
    Custom(u32, u32, u32),
}

/// What a transaction asks of one head, which is named by its protocol id.
#[derive(Clone, Copy, Debug, PartialEq)]
pub enum HeadRequest {
    Disable(u32),
    Enable {
        head: u32,
        mode: Option<ModeRequest>,
        position: (u32, u32),
        transform: Transform,
        scale: u64,
        adaptive_sync: Option<bool>,
    },
}

/// The mode request for a saved mode on a head whose mode table is `table`.
pub open spec fn mode_request(mode: Mode, table: Seq<(Mode, u32)>) -> ModeRequest {
    match mode_handle(table, mode) {
        Some(id) => ModeRequest::Existing(id),
        None => ModeRequest::Custom(
            mode.size.0,
            mode.size.1,
            match mode.refresh {
                Some(r) => r,
                None => 0,
            },
        ),
    }
}

/// The request that enables head `head` with configuration `c`.
pub open spec fn enable_request(c: SavedConfiguration, head: u32, table: Seq<(Mode, u32)>) -> HeadRequest {
    HeadRequest::Enable {
        head,
        mode: match c.mode {
            Some(m) => Some(mode_request(m, table)),
            None => None,
        },
        position: c.position,
        transform: c.transform,
        scale: c.scale,
        adaptive_sync: c.adaptive_sync,
    }
}

impl SavedConfiguration {
    /// The persisted form of `configuration`, resolving its current mode through
    /// the committed modes; none where that mode is not committed.
    pub fn from_config(configuration: &HeadConfiguration, id_to_mode: &Vec<ModeState>) -> (r:
        Option<SavedConfiguration>)
        ensures
            r == saved_from(*configuration, id_to_mode@),
    {
        let mode = match configuration.current_mode {
            Some(id) => match find_mode(id_to_mode, id) {
                Some(mode) => Some(mode),
                None => return None,
            },
            None => None,
        };
        Some(
            SavedConfiguration {
                mode,
                position: configuration.position,
                transform: configuration.transform,
                scale: configuration.scale,
                adaptive_sync: configuration.adaptive_sync,
            },
        )
    }

    /// The request that enables head `head` with this configuration: its mode is
    /// the head's own mode object of equal value where it advertises one, else a
    /// custom mode.
    pub fn apply(&self, head: u32, mode_to_id: &Vec<(Mode, u32)>) -> (r: HeadRequest)
        ensures
            r == enable_request(*self, head, mode_to_id@),
    {
        let mode = match self.mode {
            Some(mode) => match find_mode_handle(mode_to_id, mode) {
                Some(id) => Some(ModeRequest::Existing(id)),
                None => Some(
                    ModeRequest::Custom(
                        mode.size.0,
                        mode.size.1,
                        match mode.refresh {
                            Some(r) => r,
                            None => 0,
                        },
                    ),
                ),
            },
            None => None,
        };
        HeadRequest::Enable {
            head,
            mode,
            position: self.position,
            transform: self.transform,
            scale: self.scale,
            adaptive_sync: self.adaptive_sync,
        }
    }
}

/// The views of a sequence of identities.
pub open spec fn views(s: Seq<HeadIdentity>) -> Seq<IdentityView> {
    s.map_values(|h: HeadIdentity| h@)
}

/// The views of a sequence of identity pairs.
pub open spec fn pair_views(s: Seq<(HeadIdentity, HeadIdentity)>) -> Seq<(IdentityView, IdentityView)> {
    s.map_values(|p: (HeadIdentity, HeadIdentity)| (p.0@, p.1@))
}

/// The first components of a sequence of pairs.
pub open spec fn firsts(s: Seq<(IdentityView, IdentityView)>) -> Seq<IdentityView> {
    s.map_values(|p: (IdentityView, IdentityView)| p.0)
}

/// The index of the first element of `s` that satisfies `p`, or -1.
pub open spec fn first_index<T>(s: Seq<T>, p: spec_fn(T) -> bool) -> int
    decreases s.len(),
{
    if s.len() == 0 {
        -1
    } else {
        let k = first_index(s.drop_last(), p);
        if k >= 0 {
            k
        } else if p(s.last()) {
            s.len() - 1
        } else {
            -1
        }
    }
}

pub proof fn lemma_first_index<T>(s: Seq<T>, p: spec_fn(T) -> bool)
    ensures
        -1 <= first_index(s, p) < s.len(),
        first_index(s, p) >= 0 ==> p(s[first_index(s, p)]),
        forall|j: int| 0 <= j < first_index(s, p) ==> !p(#[trigger] s[j]),
        first_index(s, p) == -1 ==> forall|j: int| 0 <= j < s.len() ==> !p(#[trigger] s[j]),
    decreases s.len(),
{
    if s.len() > 0 {
        lemma_first_index(s.drop_last(), p);
        assert forall|j: int| 0 <= j < s.len() - 1 implies s.drop_last()[j] == s[j] by {}
    }
}

/// Whether an identity has the fingerprint `fp`.
pub open spec fn fingerprint_is(fp: Fingerprint) -> spec_fn(IdentityView) -> bool {
    |v: IdentityView| fingerprint_of(v) == fp
}

/// The elements of `s` that `other` does not contain, in order.
pub open spec fn not_in(s: Seq<IdentityView>, other: Seq<IdentityView>) -> Seq<IdentityView>
    decreases s.len(),
{
    if s.len() == 0 {
        s
    } else {
        let rest = not_in(s.drop_last(), other);
        if other.contains(s.last()) {
            rest
        } else {
            rest.push(s.last())
        }
    }
}

/// Whether every identity in `s` has a make and a model.
pub open spec fn all_fingerprinted(s: Seq<IdentityView>) -> bool {
    forall|i: int| 0 <= i < s.len() ==> has_make_and_model(#[trigger] s[i])
}

/// Pairs each identity of `rq` in turn with the first identity of the remaining
/// `rl` that has its fingerprint, consuming it. Gives the pairs (stored, query)
/// and what remains of `rl`, or none where an identity of `rq` finds no partner.
pub open spec fn pair_up(rl: Seq<IdentityView>, rq: Seq<IdentityView>) -> Option<
    (Seq<(IdentityView, IdentityView)>, Seq<IdentityView>),
>
    decreases rq.len(),
{
    if rq.len() == 0 {
        Some((Seq::empty(), rl))
    } else {
        match pair_up(rl, rq.drop_last()) {
            None => None,
            Some((pairs, rem)) => {
                let j = first_index(rem, fingerprint_is(fingerprint_of(rq.last())));
                if j < 0 {
                    None
                } else {
                    Some((pairs.push((rem[j], rq.last())), rem.remove(j)))
                }
            },
        }
    }
}

/// How well a stored layout matches the live heads.
#[derive(Clone, Copy, Debug, PartialEq, Eq, Structural)]
pub enum LayoutMatchScore {
    /// The layout doesn't match exactly, but all the same heads are present.
    SameHeads,
    /// The layout matches all heads exactly.
    Exact,
}

/// The score of stored identities `l` against live identities `q`, with the
/// remapping (stored identity, live identity) of a fuzzy match.
pub open spec fn score_of(l: Seq<IdentityView>, q: Seq<IdentityView>) -> Option<
    (LayoutMatchScore, Seq<(IdentityView, IdentityView)>),
> {
    if l.len() != q.len() {
        None
    } else {
        let rl = not_in(l, q);
        let rq = not_in(q, l);
        if rq.len() == 0 {
            Some((LayoutMatchScore::Exact, Seq::empty()))
        } else if !all_fingerprinted(rl) {
            None
        } else {
            match pair_up(rl, rq) {
                Some((pairs, _)) => Some((LayoutMatchScore::SameHeads, pairs)),
                None => None,
            }
        }
    }
}

/// Whether `s` holds an identity with the view `v`.
pub fn contains_identity(s: &Vec<HeadIdentity>, h: &HeadIdentity) -> (r: bool)
    ensures
        r == views(s@).contains(h@),
{
    let mut i: usize = 0;
    while i < s.len()
        invariant
            i <= s@.len(),
            forall|j: int| 0 <= j < i ==> views(s@)[j] != h@,
        decreases s@.len() - i,
    {
        if s[i].same_as(h) {
            assert(views(s@)[i as int] == h@);
            return true;
        }
        i += 1;
    }
    false
}

/// The identities of `s` that `other` does not hold, in order.
fn residual(s: &Vec<HeadIdentity>, other: &Vec<HeadIdentity>) -> (r: Vec<HeadIdentity>)
    ensures
        views(r@) == not_in(views(s@), views(other@)),
{
    let mut out: Vec<HeadIdentity> = Vec::new();
    let mut i: usize = 0;
    while i < s.len()
        invariant
            i <= s@.len(),
            views(out@) == not_in(views(s@.subrange(0, i as int)), views(other@)),
        decreases s@.len() - i,
    {
        assert(views(s@.subrange(0, i as int + 1)).drop_last() =~= views(s@.subrange(0, i as int)));
        assert(views(s@.subrange(0, i as int + 1)).last() == s@[i as int]@);
        if !contains_identity(other, &s[i]) {
            let ghost before = out@;
            let h = s[i].clone();
            out.push(h);
            assert(views(out@) =~= views(before).push(h@));
        }
        i += 1;
    }
    assert(s@.subrange(0, s@.len() as int) =~= s@);
    out
}

/// The index in `s` of the first identity with the fingerprint of `h`.
fn first_with_fingerprint(s: &Vec<HeadIdentity>, h: &HeadIdentity) -> (r: Option<usize>)
    ensures
        match r {
            Some(j) => j < s@.len() && j == first_index(
                views(s@),
                fingerprint_is(fingerprint_of(h@)),
            ),
            None => first_index(views(s@), fingerprint_is(fingerprint_of(h@))) == -1,
        },
{
    let ghost p = fingerprint_is(fingerprint_of(h@));
    let mut found: Option<usize> = None;
    let mut i: usize = 0;
    while i < s.len()
        invariant
            i <= s@.len(),
            p == fingerprint_is(fingerprint_of(h@)),
            match found {
                Some(j) => j < i && j == first_index(views(s@.subrange(0, i as int)), p),
                None => first_index(views(s@.subrange(0, i as int)), p) == -1,
            },
        decreases s@.len() - i,
    {
        assert(views(s@.subrange(0, i as int + 1)).drop_last() =~= views(s@.subrange(0, i as int)));
        assert(views(s@.subrange(0, i as int + 1)).last() == s@[i as int]@);
        if found.is_none() && s[i].same_fingerprint(h) {
            found = Some(i);
        }
        i += 1;
    }
    assert(s@.subrange(0, s@.len() as int) =~= s@);
    found
}

proof fn lemma_pair_up_fails_on_prefix(rl: Seq<IdentityView>, rq: Seq<IdentityView>, n: int)
    requires
        0 <= n <= rq.len(),
        pair_up(rl, rq.subrange(0, n)) is None,
    ensures
        pair_up(rl, rq) is None,
    decreases rq.len() - n,
{
    if n == rq.len() {
        assert(rq.subrange(0, n) =~= rq);
    } else {
        assert(rq.drop_last().subrange(0, n) =~= rq.subrange(0, n));
        lemma_pair_up_fails_on_prefix(rl, rq.drop_last(), n);
    }
}

impl LayoutMatchScore {
    /// Computes the score between the stored identities `layout` and the live
    /// identities `query_layout`. For a fuzzy match it also gives the pairs
    /// (stored identity, live identity) of the heads that did not match exactly.
    pub fn score(layout: &Vec<HeadIdentity>, query_layout: &Vec<HeadIdentity>) -> (r: Option<
        (LayoutMatchScore, Vec<(HeadIdentity, HeadIdentity)>),
    >)
        ensures
            match r {
                Some((score, pairs)) => score_of(views(layout@), views(query_layout@)) == Some(
                    (score, pair_views(pairs@)),
                ),
                None => score_of(views(layout@), views(query_layout@)) is None,
            },
    {
        if layout.len() != query_layout.len() {
            return None;
        }
        let rl = residual(layout, query_layout);
        let rq = residual(query_layout, layout);
        if rq.len() == 0 {
            let none: Vec<(HeadIdentity, HeadIdentity)> = Vec::new();
            assert(pair_views(none@) =~= Seq::empty());
            return Some((LayoutMatchScore::Exact, none));
        }
        let mut i: usize = 0;
        while i < rl.len()
            invariant
                i <= rl@.len(),
                layout@.len() == query_layout@.len(),
                views(rl@) == not_in(views(layout@), views(query_layout@)),
                views(rq@) == not_in(views(query_layout@), views(layout@)),
                rq@.len() > 0,
                forall|j: int| 0 <= j < i ==> has_make_and_model(#[trigger] views(rl@)[j]),
            decreases rl@.len() - i,
        {
            if rl[i].make.is_none() || rl[i].model.is_none() {
                assert(!has_make_and_model(views(rl@)[i as int]));
                return None;
            }
            i += 1;
        }
        let mut remaining = rl;
        let mut pairs: Vec<(HeadIdentity, HeadIdentity)> = Vec::new();
        let mut k: usize = 0;
        while k < rq.len()
            invariant
                k <= rq@.len(),
                layout@.len() == query_layout@.len(),
                views(rl@) == not_in(views(layout@), views(query_layout@)),
                views(rq@) == not_in(views(query_layout@), views(layout@)),
                rq@.len() > 0,
                all_fingerprinted(views(rl@)),
                pair_up(views(rl@), views(rq@).subrange(0, k as int)) == Some(
                    (pair_views(pairs@), views(remaining@)),
                ),
            decreases rq@.len() - k,
        {
            assert(views(rq@).subrange(0, k as int + 1).drop_last() =~= views(rq@).subrange(
                0,
                k as int,
            ));
            assert(views(rq@).subrange(0, k as int + 1).last() == rq@[k as int]@);
            match first_with_fingerprint(&remaining, &rq[k]) {
                None => {
                    proof {
                        lemma_pair_up_fails_on_prefix(views(rl@), views(rq@), k + 1);
                    }
                    return None;
                },
                Some(j) => {
                    let ghost old_remaining = remaining@;
                    let ghost old_pairs = pairs@;
                    let stored = remaining.remove(j);
                    let live = rq[k].clone();
                    pairs.push((stored, live));
                    assert(views(remaining@) =~= views(old_remaining).remove(j as int));
                    assert(pair_views(pairs@) =~= pair_views(old_pairs).push(
                        (views(old_remaining)[j as int], views(rq@)[k as int]),
                    ));
                },
            }
            k += 1;
        }
        assert(views(rq@).subrange(0, rq@.len() as int) =~= views(rq@));
        Some((LayoutMatchScore::SameHeads, pairs))
    }
}

/// One stored layout: each head's identity with its saved configuration, or none
/// where the head is disabled in this layout.
pub type Layout = Vec<(HeadIdentity, Option<SavedConfiguration>)>;

/// The identities of a layout, as views.
pub open spec fn layout_views(l: Seq<(HeadIdentity, Option<SavedConfiguration>)>) -> Seq<IdentityView> {
    l.map_values(|e: (HeadIdentity, Option<SavedConfiguration>)| e.0@)
}

/// The identities of each layout of a store, as views.
pub open spec fn store_views(ls: Seq<Layout>) -> Seq<Seq<IdentityView>> {
    ls.map_values(|l: Layout| layout_views(l@))
}

pub open spec fn is_exact(q: Seq<IdentityView>) -> spec_fn(Seq<IdentityView>) -> bool {
    |l: Seq<IdentityView>| score_of(l, q) matches Some((LayoutMatchScore::Exact, _))
}

pub open spec fn is_same_heads(q: Seq<IdentityView>) -> spec_fn(Seq<IdentityView>) -> bool {
    |l: Seq<IdentityView>| score_of(l, q) matches Some((LayoutMatchScore::SameHeads, _))
}

/// The layout that the live identities `q` select among the stored `ls`: the
/// first exact match with no remapping; else the first fuzzy match with its
/// remapping; else none.
pub open spec fn find_match(ls: Seq<Seq<IdentityView>>, q: Seq<IdentityView>) -> Option<
    (int, Seq<(IdentityView, IdentityView)>),
> {
    let e = first_index(ls, is_exact(q));
    let f = first_index(ls, is_same_heads(q));
    if e >= 0 {
        Some((e, Seq::empty()))
    } else if f >= 0 {
        Some((f, (score_of(ls[f], q)->0).1))
    } else {
        None
    }
}

/// A layout entry as a view: the identity's view and the saved configuration.
pub type EntryView = (IdentityView, Option<SavedConfiguration>);

/// The entries of a layout as views.
pub open spec fn entry_views(l: Seq<(HeadIdentity, Option<SavedConfiguration>)>) -> Seq<EntryView> {
    l.map_values(|e: (HeadIdentity, Option<SavedConfiguration>)| (e.0@, e.1))
}

/// Each layout of a store as a view.
pub open spec fn layouts_view(ls: Seq<Layout>) -> Seq<Seq<EntryView>> {
    ls.map_values(|l: Layout| entry_views(l@))
}

/// A copy of a layout, entry by entry, in order.
pub fn copy_layout(layout: &Layout) -> (r: Layout)
    ensures
        entry_views(r@) == entry_views(layout@),
{
    let mut out: Layout = Vec::new();
    let mut i: usize = 0;
    while i < layout.len()
        invariant
            i <= layout@.len(),
            entry_views(out@) == entry_views(layout@.subrange(0, i as int)),
        decreases layout@.len() - i,
    {
        let ghost before = out@;
        let entry = (layout[i].0.clone(), layout[i].1);
        out.push(entry);
        assert(entry_views(out@) =~= entry_views(before).push((layout@[i as int].0@, layout@[i as int].1)));
        assert(entry_views(layout@.subrange(0, i as int + 1)) =~= entry_views(
            layout@.subrange(0, i as int),
        ).push((layout@[i as int].0@, layout@[i as int].1)));
        i += 1;
    }
    assert(layout@.subrange(0, layout@.len() as int) =~= layout@);
    out
}

/// A copy of a list of layouts, in order.
fn copy_layouts(layouts: &Vec<Layout>) -> (r: Vec<Layout>)
    ensures
        layouts_view(r@) == layouts_view(layouts@),
{
    let mut out: Vec<Layout> = Vec::new();
    let mut i: usize = 0;
    while i < layouts.len()
        invariant
            i <= layouts@.len(),
            layouts_view(out@) == layouts_view(layouts@.subrange(0, i as int)),
        decreases layouts@.len() - i,
    {
        let ghost before = out@;
        let l = copy_layout(&layouts[i]);
        out.push(l);
        assert(layouts_view(out@) =~= layouts_view(before).push(entry_views(layouts@[i as int]@)));
        assert(layouts_view(layouts@.subrange(0, i as int + 1)) =~= layouts_view(
            layouts@.subrange(0, i as int),
        ).push(entry_views(layouts@[i as int]@)));
        i += 1;
    }
    assert(layouts@.subrange(0, layouts@.len() as int) =~= layouts@);
    out
}

/// Whether no two entries of a layout share an identity.
pub open spec fn layout_valid(l: Seq<EntryView>) -> bool {
    forall|i: int, j: int| 0 <= i < l.len() && 0 <= j < l.len() && i != j ==> (#[trigger] l[i]).0 != (#[trigger] l[j]).0
}

/// Whether every layout of a store is valid.
pub open spec fn store_valid(ls: Seq<Seq<EntryView>>) -> bool {
    forall|i: int| 0 <= i < ls.len() ==> layout_valid(#[trigger] ls[i])
}

/// Whether an entry has the identity `v`.
pub open spec fn entry_id_is(v: IdentityView) -> spec_fn(EntryView) -> bool {
    |e: EntryView| e.0 == v
}

/// A layout with repeated identities merged: an identity keeps the position of
/// its first entry and the configuration of its last one.
pub open spec fn merged(l: Seq<EntryView>) -> Seq<EntryView>
    decreases l.len(),
{
    if l.len() == 0 {
        l
    } else {
        let prev = merged(l.drop_last());
        let k = first_index(prev, entry_id_is(l.last().0));
        if k >= 0 {
            prev.update(k, l.last())
        } else {
            prev.push(l.last())
        }
    }
}

/// Each layout of a store merged.
pub open spec fn merged_store(ls: Seq<Seq<EntryView>>) -> Seq<Seq<EntryView>> {
    ls.map_values(|l: Seq<EntryView>| merged(l))
}

proof fn lemma_merged_valid(l: Seq<EntryView>)
    ensures
        layout_valid(merged(l)),
    decreases l.len(),
{
    if l.len() > 0 {
        lemma_merged_valid(l.drop_last());
        let prev = merged(l.drop_last());
        let p = entry_id_is(l.last().0);
        lemma_first_index(prev, p);
        let k = first_index(prev, p);
        let m = merged(l);
        assert forall|i: int, j: int| 0 <= i < m.len() && 0 <= j < m.len() && i != j implies (
        #[trigger] m[i]).0 != (#[trigger] m[j]).0 by {
            if k >= 0 {
                assert(m[i].0 == prev[i].0 && m[j].0 == prev[j].0);
            } else if i < prev.len() && j < prev.len() {
                assert(m[i] == prev[i] && m[j] == prev[j]);
            } else if i < prev.len() {
                assert(m[i] == prev[i] && !p(prev[i]));
            } else {
                assert(m[j] == prev[j] && !p(prev[j]));
            }
        }
    }
}

proof fn lemma_merged_of_valid(l: Seq<EntryView>)
    requires
        layout_valid(l),
    ensures
        merged(l) == l,
    decreases l.len(),
{
    if l.len() > 0 {
        let init = l.drop_last();
        assert(layout_valid(init)) by {
            assert forall|i: int, j: int| 0 <= i < init.len() && 0 <= j < init.len() && i != j implies (
            #[trigger] init[i]).0 != (#[trigger] init[j]).0 by {
                assert(init[i] == l[i] && init[j] == l[j]);
            }
        }
        lemma_merged_of_valid(init);
        let p = entry_id_is(l.last().0);
        lemma_first_index(init, p);
        if first_index(init, p) >= 0 {
            let k = first_index(init, p);
            assert(init[k] == l[k]);
            assert(l[k].0 == l[l.len() - 1].0);
        }
        assert(init.push(l.last()) =~= l);
    }
}

/// The position in `layout` of the entry with the identity of `h`.
fn entry_index(layout: &Layout, h: &HeadIdentity) -> (r: Option<usize>)
    ensures
        match r {
            Some(k) => k < layout@.len() && k as int == first_index(entry_views(layout@), entry_id_is(h@)),
            None => first_index(entry_views(layout@), entry_id_is(h@)) == -1,
        },
{
    let ghost ev = entry_views(layout@);
    let ghost p = entry_id_is(h@);
    let mut i: usize = 0;
    while i < layout.len()
        invariant
            i <= layout@.len(),
            ev == entry_views(layout@),
            p == entry_id_is(h@),
            first_index(ev.subrange(0, i as int), p) == -1,
        decreases layout@.len() - i,
    {
        assert(ev.subrange(0, i as int + 1).drop_last() =~= ev.subrange(0, i as int));
        assert(ev.subrange(0, i as int + 1).last() == ev[i as int]);
        if layout[i].0.same_as(h) {
            proof {
                lemma_first_index(ev, p);
                lemma_first_index(ev.subrange(0, i as int), p);
                assert forall|j: int| 0 <= j < i implies !p(ev[j]) by {
                    assert(ev.subrange(0, i as int)[j] == ev[j]);
                }
            }
            return Some(i);
        }
        i += 1;
    }
    assert(ev.subrange(0, ev.len() as int) =~= ev);
    None
}

/// A copy of a layout with repeated identities merged.
pub fn merge_layout(layout: &Layout) -> (r: Layout)
    ensures
        entry_views(r@) == merged(entry_views(layout@)),
        layout_valid(entry_views(r@)),
{
    let ghost ev = entry_views(layout@);
    let mut out: Layout = Vec::new();
    assert(entry_views(out@) =~= Seq::empty());
    assert(ev.subrange(0, 0) =~= Seq::empty());
    let mut i: usize = 0;
    while i < layout.len()
        invariant
            i <= layout@.len(),
            ev == entry_views(layout@),
            entry_views(out@) == merged(ev.subrange(0, i as int)),
        decreases layout@.len() - i,
    {
        assert(ev.subrange(0, i as int + 1).drop_last() =~= ev.subrange(0, i as int));
        assert(ev.subrange(0, i as int + 1).last() == ev[i as int]);
        let entry = (layout[i].0.clone(), layout[i].1);
        assert((entry.0@, entry.1) == ev[i as int]);
        let ghost before = out@;
        match entry_index(&out, &layout[i].0) {
            Some(k) => {
                out.set(k, entry);
                assert(entry_views(out@) =~= entry_views(before).update(k as int, (entry.0@, entry.1)));
            },
            None => {
                out.push(entry);
                assert(entry_views(out@) =~= entry_views(before).push((entry.0@, entry.1)));
            },
        }
        i += 1;
    }
    assert(ev.subrange(0, ev.len() as int) =~= ev);
    proof {
        lemma_merged_valid(ev);
    }
    out
}

/// Each layout of a list merged, in order.
fn merge_layouts(layouts: &Vec<Layout>) -> (r: Vec<Layout>)
    ensures
        layouts_view(r@) == merged_store(layouts_view(layouts@)),
        store_valid(layouts_view(r@)),
{
    let ghost target = merged_store(layouts_view(layouts@));
    let mut out: Vec<Layout> = Vec::new();
    let mut i: usize = 0;
    while i < layouts.len()
        invariant
            i <= layouts@.len(),
            target == merged_store(layouts_view(layouts@)),
            layouts_view(out@) == target.subrange(0, i as int),
            store_valid(layouts_view(out@)),
        decreases layouts@.len() - i,
    {
        let ghost before = out@;
        let l = merge_layout(&layouts[i]);
        out.push(l);
        assert(layouts_view(out@) =~= layouts_view(before).push(entry_views(l@)));
        assert(target.subrange(0, i as int + 1) =~= target.subrange(0, i as int).push(target[i as int]));
        assert(store_valid(layouts_view(out@))) by {
            assert forall|j: int| 0 <= j < out@.len() implies layout_valid(#[trigger] layouts_view(out@)[j]) by {
                if j < i {
                    assert(layouts_view(out@)[j] == layouts_view(before)[j]);
                }
            }
        }
        i += 1;
    }
    assert(target.subrange(0, target.len() as int) =~= target);
    out
}

/// The persisted form of the layout store: each layout an ordered list of
/// (identity, configuration) pairs, so that the file keeps its order.
pub struct SavedLayoutData {
    pub layouts: Vec<Layout>,
}

impl SavedLayoutData {
    /// The persisted form of `value`, layouts and entries in the same order.
    pub fn from_layout_data(value: &LayoutData) -> (r: SavedLayoutData)
        ensures
            layouts_view(r.layouts@) == layouts_view(value.layouts@),
    {
        SavedLayoutData { layouts: copy_layouts(&value.layouts) }
    }
}

/// The layout store: layouts oldest first.
pub struct LayoutData {
    pub layouts: Vec<Layout>,
}

/// The identities of a layout.
pub fn layout_identities(layout: &Layout) -> (r: Vec<HeadIdentity>)
    ensures
        views(r@) == layout_views(layout@),
{
    let mut out: Vec<HeadIdentity> = Vec::new();
    let mut i: usize = 0;
    while i < layout.len()
        invariant
            i <= layout@.len(),
            views(out@) == layout_views(layout@.subrange(0, i as int)),
        decreases layout@.len() - i,
    {
        let ghost before = out@;
        let h = layout[i].0.clone();
        out.push(h);
        assert(views(out@) =~= views(before).push(h@));
        assert(layout_views(layout@.subrange(0, i as int + 1)) =~= layout_views(
            layout@.subrange(0, i as int),
        ).push(h@));
        i += 1;
    }
    assert(layout@.subrange(0, layout@.len() as int) =~= layout@);
    out
}

impl LayoutData {
    /// Whether no layout of the store repeats an identity.
    pub open spec fn wf(&self) -> bool {
        store_valid(layouts_view(self.layouts@))
    }

    /// The store that `value` persists, layouts and entries in the same order;
    /// an identity repeated within a layout keeps its first position and its
    /// last configuration.
    pub fn from_saved(value: &SavedLayoutData) -> (r: LayoutData)
        ensures
            layouts_view(r.layouts@) == merged_store(layouts_view(value.layouts@)),
            r.wf(),
    {
        LayoutData { layouts: merge_layouts(&value.layouts) }
    }

    /// An empty store.
    pub fn new() -> (r: LayoutData)
        ensures
            r.layouts@.len() == 0,
            r.wf(),
    {
        LayoutData { layouts: Vec::new() }
    }

    /// Finds the stored layout that matches the live identities `query_layout`:
    /// the first exact match, with an empty remapping; else the first fuzzy match,
    /// with its remapping from stored identity to live identity.
    pub fn find_layout_match(&self, query_layout: &Vec<HeadIdentity>) -> (r: Option<
        (usize, Vec<(HeadIdentity, HeadIdentity)>),
    >)
        ensures
            match r {
                Some((index, remap)) => find_match(store_views(self.layouts@), views(query_layout@))
                    == Some((index as int, pair_views(remap@))),
                None => find_match(store_views(self.layouts@), views(query_layout@)) is None,
            },
    {
        let ghost ls = store_views(self.layouts@);
        let ghost q = views(query_layout@);
        let mut best: Option<(usize, Vec<(HeadIdentity, HeadIdentity)>)> = None;
        let mut i: usize = 0;
        while i < self.layouts.len()
            invariant
                i <= self.layouts@.len(),
                ls == store_views(self.layouts@),
                q == views(query_layout@),
                first_index(ls.subrange(0, i as int), is_exact(q)) == -1,
                match best {
                    Some((j, remap)) => {
                        &&& j < i
                        &&& j == first_index(ls.subrange(0, i as int), is_same_heads(q))
                        &&& score_of(ls[j as int], q) == Some(
                            (LayoutMatchScore::SameHeads, pair_views(remap@)),
                        )
                    },
                    None => first_index(ls.subrange(0, i as int), is_same_heads(q)) == -1,
                },
            decreases self.layouts@.len() - i,
        {
            assert(ls.subrange(0, i as int + 1).drop_last() =~= ls.subrange(0, i as int));
            assert(ls.subrange(0, i as int + 1).last() == ls[i as int]);
            let identities = layout_identities(&self.layouts[i]);
            match LayoutMatchScore::score(&identities, query_layout) {
                Some((LayoutMatchScore::Exact, _)) => {
                    proof {
                        lemma_first_index(ls, is_exact(q));
                        lemma_first_index(ls.subrange(0, i as int), is_exact(q));
                        assert(is_exact(q)(ls[i as int]));
                        assert forall|j: int| 0 <= j < i implies !is_exact(q)(ls[j]) by {
                            assert(ls.subrange(0, i as int)[j] == ls[j]);
                        }
                    }
                    let none: Vec<(HeadIdentity, HeadIdentity)> = Vec::new();
                    assert(pair_views(none@) =~= Seq::empty());
                    return Some((i, none));
                },
                Some((LayoutMatchScore::SameHeads, remap)) => {
                    if best.is_none() {
                        best = Some((i, remap));
                    }
                },
                None => {},
            }
            i += 1;
        }
        assert(ls.subrange(0, ls.len() as int) =~= ls);
        best
    }
}

proof fn lemma_not_in_empty(s: Seq<IdentityView>, other: Seq<IdentityView>)
    requires
        forall|i: int| 0 <= i < s.len() ==> other.contains(#[trigger] s[i]),
    ensures
        not_in(s, other).len() == 0,
    decreases s.len(),
{
    if s.len() > 0 {
        assert forall|i: int| 0 <= i < s.len() - 1 implies other.contains(
            #[trigger] s.drop_last()[i],
        ) by {
            assert(s.drop_last()[i] == s[i]);
        }
        lemma_not_in_empty(s.drop_last(), other);
    }
}

/// Stored identities that are exactly the live ones (same count, same members)
/// always score as an exact match with an empty remapping.
pub proof fn lemma_identical_sets_match_exactly(l: Seq<IdentityView>, q: Seq<IdentityView>)
    requires
        l.len() == q.len(),
        forall|v: IdentityView| l.contains(v) <==> q.contains(v),
    ensures
        score_of(l, q) == Some((LayoutMatchScore::Exact, Seq::<(IdentityView, IdentityView)>::empty())),
{
    assert forall|i: int| 0 <= i < q.len() implies l.contains(#[trigger] q[i]) by {
        assert(q.contains(q[i]));
    }
    lemma_not_in_empty(q, l);
}

/// Where a stored layout holds exactly the live identities, the store selects an
/// exact match (that layout or an earlier one) with an empty remapping.
pub proof fn lemma_identical_layout_selected_exactly(
    ls: Seq<Seq<IdentityView>>,
    q: Seq<IdentityView>,
    i: int,
)
    requires
        0 <= i < ls.len(),
        ls[i].len() == q.len(),
        forall|v: IdentityView| ls[i].contains(v) <==> q.contains(v),
    ensures
        find_match(ls, q) matches Some((k, remap)) && k <= i && remap.len() == 0 && is_exact(q)(
            ls[k],
        ),
{
    lemma_identical_sets_match_exactly(ls[i], q);
    lemma_first_index(ls, is_exact(q));
    assert(is_exact(q)(ls[i]));
}

/// A stored layout whose residual identities (those not among the live ones)
/// include one without make or model never scores as a fuzzy match.
pub proof fn lemma_unfingerprinted_residual_never_fuzzy(
    l: Seq<IdentityView>,
    q: Seq<IdentityView>,
    v: IdentityView,
)
    requires
        not_in(l, q).contains(v),
        !has_make_and_model(v),
    ensures
        !(score_of(l, q) matches Some((LayoutMatchScore::SameHeads, _))),
{
    let k = choose|k: int| 0 <= k < not_in(l, q).len() && not_in(l, q)[k] == v;
    assert(!has_make_and_model(not_in(l, q)[k]));
}

/// Such a layout is never the one the store selects, unless it matches exactly.
pub proof fn lemma_unfingerprinted_layout_never_selected_fuzzily(
    ls: Seq<Seq<IdentityView>>,
    q: Seq<IdentityView>,
    i: int,
    v: IdentityView,
)
    requires
        0 <= i < ls.len(),
        not_in(ls[i], q).contains(v),
        !has_make_and_model(v),
    ensures
        find_match(ls, q) matches Some((k, _)) && k == i ==> is_exact(q)(ls[i]),
{
    lemma_unfingerprinted_residual_never_fuzzy(ls[i], q, v);
    lemma_first_index(ls, is_exact(q));
    lemma_first_index(ls, is_same_heads(q));
}

/// What the greedy pairing gives: a partner of equal fingerprint for each
/// residual live identity, in order, each taken from the residual stored
/// identities without reuse; together with what remains they make up all of them.
pub proof fn lemma_pair_up(rl: Seq<IdentityView>, rq: Seq<IdentityView>)
    ensures
        pair_up(rl, rq) matches Some((pairs, rem)) ==> {
            &&& pairs.len() == rq.len()
            &&& forall|i: int| 0 <= i < pairs.len() ==> (#[trigger] pairs[i]).1 == rq[i]
            &&& forall|i: int| 0 <= i < pairs.len() ==> fingerprint_of((#[trigger] pairs[i]).0)
                == fingerprint_of(pairs[i].1)
            &&& firsts(pairs).to_multiset().add(rem.to_multiset()) == rl.to_multiset()
        },
    decreases rq.len(),
{
    broadcast use vstd::seq_lib::group_to_multiset_ensures;

    if rq.len() == 0 {
        assert(firsts(Seq::<(IdentityView, IdentityView)>::empty()) =~= Seq::<IdentityView>::empty());
        assert(firsts(Seq::<(IdentityView, IdentityView)>::empty()).to_multiset().add(rl.to_multiset())
            =~= rl.to_multiset());
    } else {
        lemma_pair_up(rl, rq.drop_last());
        if let Some((pairs, rem)) = pair_up(rl, rq.drop_last()) {
            let p = fingerprint_is(fingerprint_of(rq.last()));
            let j = first_index(rem, p);
            lemma_first_index(rem, p);
            if j >= 0 {
                let np = pairs.push((rem[j], rq.last()));
                let nr = rem.remove(j);
                assert(firsts(np) =~= firsts(pairs).push(rem[j]));
                assert(nr.to_multiset() =~= rem.to_multiset().remove(rem[j]));
                assert(firsts(np).to_multiset() =~= firsts(pairs).to_multiset().insert(rem[j]));
                assert(rem.to_multiset().count(rem[j]) > 0) by {
                    assert(rem.contains(rem[j]));
                }
                assert(firsts(np).to_multiset().add(nr.to_multiset()) =~= rl.to_multiset());
                assert forall|i: int| 0 <= i < np.len() implies (#[trigger] np[i]).1 == rq[i] by {
                    if i < pairs.len() {
                        assert(np[i] == pairs[i]);
                        assert(rq.drop_last()[i] == rq[i]);
                    }
                }
                assert forall|i: int| 0 <= i < np.len() implies fingerprint_of((#[trigger] np[i]).0)
                    == fingerprint_of(np[i].1) by {
                    if i < pairs.len() {
                        assert(np[i] == pairs[i]);
                    } else {
                        assert(p(rem[j]));
                    }
                }
            }
        }
    }
}

/// A fuzzy match pairs the residual live identities, in order, with residual
/// stored identities of equal (make, model, serial number), using each stored
/// identity at most once; where both residues have the same size the pairing is
/// a bijection between them.
pub proof fn lemma_fuzzy_match_is_bijection(l: Seq<IdentityView>, q: Seq<IdentityView>)
    requires
        score_of(l, q) matches Some((LayoutMatchScore::SameHeads, _)),
    ensures
        ({
            let rl = not_in(l, q);
            let rq = not_in(q, l);
            let pairs = (score_of(l, q)->0).1;
            &&& pairs.len() == rq.len()
            &&& forall|i: int| 0 <= i < pairs.len() ==> (#[trigger] pairs[i]).1 == rq[i]
            &&& forall|i: int| 0 <= i < pairs.len() ==> fingerprint_of((#[trigger] pairs[i]).0)
                == fingerprint_of(pairs[i].1)
            &&& firsts(pairs).to_multiset().subset_of(rl.to_multiset())
            &&& rl.len() == rq.len() ==> firsts(pairs).to_multiset() == rl.to_multiset()
        }),
{
    broadcast use vstd::seq_lib::group_to_multiset_ensures;

    let rl = not_in(l, q);
    let rq = not_in(q, l);
    lemma_pair_up(rl, rq);
    let (pairs, rem) = pair_up(rl, rq)->0;
    assert(firsts(pairs).to_multiset().subset_of(rl.to_multiset()));
    if rl.len() == rq.len() {
        broadcast use vstd::multiset::group_multiset_axioms;

        assert(firsts(pairs).len() == pairs.len());
        assert(firsts(pairs).to_multiset().add(rem.to_multiset()).len() == rl.len());
        assert(rem.to_multiset().len() == 0);
        assert(rem.to_multiset() =~= Multiset::empty());
        assert(firsts(pairs).to_multiset() =~= rl.to_multiset());
    }
}

/// The elements of `s` that `other` contains, in order.
spec fn in_both(s: Seq<IdentityView>, other: Seq<IdentityView>) -> Seq<IdentityView>
    decreases s.len(),
{
    if s.len() == 0 {
        s
    } else {
        let rest = in_both(s.drop_last(), other);
        if other.contains(s.last()) {
            rest.push(s.last())
        } else {
            rest
        }
    }
}

proof fn lemma_split_by_membership(s: Seq<IdentityView>, other: Seq<IdentityView>)
    ensures
        not_in(s, other).len() + in_both(s, other).len() == s.len(),
        forall|v: IdentityView| #[trigger] in_both(s, other).contains(v) <==> s.contains(v) && other.contains(v),
        s.no_duplicates() ==> in_both(s, other).no_duplicates(),
    decreases s.len(),
{
    if s.len() > 0 {
        let init = s.drop_last();
        lemma_split_by_membership(init, other);
        let rest = in_both(init, other);
        assert forall|v: IdentityView| s.contains(v) <==> init.contains(v) || v == s.last() by {
            if s.contains(v) {
                let k = choose|k: int| 0 <= k < s.len() && s[k] == v;
                if k < s.len() - 1 {
                    assert(init[k] == v);
                }
            }
            if init.contains(v) {
                let k = choose|k: int| 0 <= k < init.len() && init[k] == v;
                assert(s[k] == v);
            }
            if v == s.last() {
                assert(s[s.len() - 1] == v);
            }
        }
        if other.contains(s.last()) {
            assert forall|v: IdentityView| #[trigger] rest.push(s.last()).contains(v) <==> rest.contains(v)
                || v == s.last() by {
                if rest.push(s.last()).contains(v) {
                    let k = choose|k: int| 0 <= k < rest.len() + 1 && rest.push(s.last())[k] == v;
                    if k < rest.len() {
                        assert(rest[k] == v);
                    }
                }
                if rest.contains(v) {
                    let k = choose|k: int| 0 <= k < rest.len() && rest[k] == v;
                    assert(rest.push(s.last())[k] == v);
                }
                if v == s.last() {
                    assert(rest.push(s.last())[rest.len() as int] == v);
                }
            }
            if s.no_duplicates() {
                assert(init.no_duplicates()) by {
                    assert forall|i: int, j: int|
                        0 <= i < init.len() && 0 <= j < init.len() && i != j implies init[i]
                        != init[j] by {
                        assert(init[i] == s[i]);
                        assert(init[j] == s[j]);
                    }
                }
                assert(!init.contains(s.last())) by {
                    if init.contains(s.last()) {
                        let k = choose|k: int| 0 <= k < init.len() && init[k] == s.last();
                        assert(s[k] == s[s.len() - 1]);
                    }
                }
                let next = rest.push(s.last());
                assert forall|i: int, j: int|
                    0 <= i < next.len() && 0 <= j < next.len() && i != j implies next[i]
                    != next[j] by {
                    if i < rest.len() && j < rest.len() {
                        assert(next[i] == rest[i]);
                        assert(next[j] == rest[j]);
                    } else if i < rest.len() {
                        assert(next[i] == rest[i]);
                        assert(rest.contains(rest[i]));
                    } else {
                        assert(next[j] == rest[j]);
                        assert(rest.contains(rest[j]));
                    }
                }
            }
        } else {
            if s.no_duplicates() {
                assert(init.no_duplicates()) by {
                    assert forall|i: int, j: int|
                        0 <= i < init.len() && 0 <= j < init.len() && i != j implies init[i]
                        != init[j] by {
                        assert(init[i] == s[i]);
                        assert(init[j] == s[j]);
                    }
                }
            }
        }
    }
}

/// Where stored and live identities are each free of duplicates and equal in
/// number, the residual stored and residual live identities are equal in number.
pub proof fn lemma_residues_have_equal_size(l: Seq<IdentityView>, q: Seq<IdentityView>)
    requires
        l.no_duplicates(),
        q.no_duplicates(),
        l.len() == q.len(),
    ensures
        not_in(l, q).len() == not_in(q, l).len(),
{
    lemma_split_by_membership(l, q);
    lemma_split_by_membership(q, l);
    let a = in_both(l, q);
    let b = in_both(q, l);
    assert(a.to_set() =~= b.to_set()) by {
        assert forall|v: IdentityView| a.to_set().contains(v) <==> b.to_set().contains(v) by {
            assert(a.contains(v) <==> b.contains(v));
        }
    }
    a.unique_seq_to_set();
    b.unique_seq_to_set();
}

/// With duplicate-free stored and live identities, a fuzzy match is a bijection
/// on (make, model, serial number) between the residual stored identities and
/// the residual live identities.
pub proof fn lemma_fuzzy_match_is_full_bijection(l: Seq<IdentityView>, q: Seq<IdentityView>)
    requires
        l.no_duplicates(),
        q.no_duplicates(),
        score_of(l, q) matches Some((LayoutMatchScore::SameHeads, _)),
    ensures
        ({
            let pairs = (score_of(l, q)->0).1;
            &&& pairs.len() == not_in(q, l).len()
            &&& forall|i: int| 0 <= i < pairs.len() ==> (#[trigger] pairs[i]).1 == not_in(q, l)[i]
            &&& forall|i: int| 0 <= i < pairs.len() ==> fingerprint_of((#[trigger] pairs[i]).0)
                == fingerprint_of(pairs[i].1)
            &&& firsts(pairs).to_multiset() == not_in(l, q).to_multiset()
        }),
{
    lemma_residues_have_equal_size(l, q);
    lemma_fuzzy_match_is_bijection(l, q);
}

pub proof fn lemma_not_in_members(s: Seq<IdentityView>, other: Seq<IdentityView>)
    ensures
        forall|v: IdentityView| #[trigger] not_in(s, other).contains(v) <==> s.contains(v) && !other.contains(v),
        s.no_duplicates() ==> not_in(s, other).no_duplicates(),
    decreases s.len(),
{
    if s.len() > 0 {
        let init = s.drop_last();
        lemma_not_in_members(init, other);
        let rest = not_in(init, other);
        assert forall|v: IdentityView| s.contains(v) <==> init.contains(v) || v == s.last() by {
            if s.contains(v) {
                let k = choose|k: int| 0 <= k < s.len() && s[k] == v;
                if k < s.len() - 1 {
                    assert(init[k] == v);
                }
            }
            if init.contains(v) {
                let k = choose|k: int| 0 <= k < init.len() && init[k] == v;
                assert(s[k] == v);
            }
            if v == s.last() {
                assert(s[s.len() - 1] == v);
            }
        }
        if s.no_duplicates() {
            assert(init.no_duplicates()) by {
                assert forall|i: int, j: int|
                    0 <= i < init.len() && 0 <= j < init.len() && i != j implies init[i] != init[j] by {
                    assert(init[i] == s[i] && init[j] == s[j]);
                }
            }
            assert(!init.contains(s.last())) by {
                if init.contains(s.last()) {
                    let k = choose|k: int| 0 <= k < init.len() && init[k] == s.last();
                    assert(s[k] == s[s.len() - 1]);
                }
            }
        }
        if !other.contains(s.last()) {
            let next = rest.push(s.last());
            assert forall|v: IdentityView| #[trigger] next.contains(v) <==> rest.contains(v) || v == s.last() by {
                if next.contains(v) {
                    let k = choose|k: int| 0 <= k < next.len() && next[k] == v;
                    if k < rest.len() {
                        assert(rest[k] == v);
                    }
                }
                if rest.contains(v) {
                    let k = choose|k: int| 0 <= k < rest.len() && rest[k] == v;
                    assert(next[k] == v);
                }
                if v == s.last() {
                    assert(next[rest.len() as int] == v);
                }
            }
            if s.no_duplicates() {
                assert forall|i: int, j: int|
                    0 <= i < next.len() && 0 <= j < next.len() && i != j implies next[i] != next[j] by {
                    if i < rest.len() && j < rest.len() {
                        assert(next[i] == rest[i] && next[j] == rest[j]);
                    } else if i < rest.len() {
                        assert(next[i] == rest[i] && rest.contains(rest[i]));
                    } else {
                        assert(next[j] == rest[j] && rest.contains(rest[j]));
                    }
                }
            }
        }
    }
}

/// Whether a stored identity list has exactly the members of `q`, as many as it.
pub open spec fn same_members(q: Seq<IdentityView>) -> spec_fn(Seq<IdentityView>) -> bool {
    |l: Seq<IdentityView>| l.len() == q.len() && forall|v: IdentityView| l.contains(v) <==> q.contains(v)
}

/// For duplicate-free identity lists, the score is an exact match exactly when
/// the stored and live identities are the same, and then the remapping is empty.
pub proof fn lemma_exact_iff_same_members(l: Seq<IdentityView>, q: Seq<IdentityView>)
    requires
        l.no_duplicates(),
        q.no_duplicates(),
    ensures
        (score_of(l, q) matches Some((LayoutMatchScore::Exact, _))) <==> same_members(q)(l),
        score_of(l, q) matches Some((LayoutMatchScore::Exact, m)) ==> m.len() == 0,
{
    if same_members(q)(l) {
        lemma_identical_sets_match_exactly(l, q);
    }
    if score_of(l, q) matches Some((LayoutMatchScore::Exact, _)) {
        lemma_residues_have_equal_size(l, q);
        lemma_not_in_members(l, q);
        lemma_not_in_members(q, l);
        assert forall|v: IdentityView| l.contains(v) <==> q.contains(v) by {
            if l.contains(v) && !q.contains(v) {
                assert(not_in(l, q).contains(v));
            }
            if q.contains(v) && !l.contains(v) {
                assert(not_in(q, l).contains(v));
            }
        }
    }
}

/// Among duplicate-free stored layouts and live identities, a layout with
/// exactly the live identities makes the store select the first such layout,
/// with an empty remapping, even over an earlier fuzzy match.
pub proof fn lemma_first_identical_layout_selected(ls: Seq<Seq<IdentityView>>, q: Seq<IdentityView>, i: int)
    requires
        forall|k: int| 0 <= k < ls.len() ==> (#[trigger] ls[k]).no_duplicates(),
        q.no_duplicates(),
        0 <= i < ls.len(),
        same_members(q)(ls[i]),
    ensures
        find_match(ls, q) == Some((first_index(ls, same_members(q)), Seq::<(IdentityView, IdentityView)>::empty())),
        0 <= first_index(ls, same_members(q)) <= i,
{
    lemma_first_index(ls, is_exact(q));
    lemma_first_index(ls, same_members(q));
    assert forall|k: int| 0 <= k < ls.len() implies (is_exact(q)(#[trigger] ls[k]) <==> same_members(q)(ls[k])) by {
        lemma_exact_iff_same_members(ls[k], q);
    }
    let a = first_index(ls, is_exact(q));
    let b = first_index(ls, same_members(q));
    assert(is_exact(q)(ls[i]));
    if a >= 0 {
        assert(same_members(q)(ls[a]));
    }
    if b >= 0 {
        assert(is_exact(q)(ls[b]));
    }
}

/// For duplicate-free identity lists of equal number, a residual stored identity
/// without make or model makes the stored layout no match at all.
pub proof fn lemma_unfingerprinted_residual_rejects(l: Seq<IdentityView>, q: Seq<IdentityView>, v: IdentityView)
    requires
        l.no_duplicates(),
        q.no_duplicates(),
        not_in(l, q).contains(v),
        !has_make_and_model(v),
    ensures
        score_of(l, q) is None,
{
    lemma_unfingerprinted_residual_never_fuzzy(l, q, v);
    if l.len() == q.len() {
        lemma_residues_have_equal_size(l, q);
        assert(not_in(l, q).len() > 0);
    }
}

/// Among duplicate-free stored layouts and live identities, a layout whose
/// residual identities include one without make or model is never selected.
pub proof fn lemma_unfingerprinted_layout_never_selected(
    ls: Seq<Seq<IdentityView>>,
    q: Seq<IdentityView>,
    i: int,
    v: IdentityView,
)
    requires
        0 <= i < ls.len(),
        ls[i].no_duplicates(),
        q.no_duplicates(),
        not_in(ls[i], q).contains(v),
        !has_make_and_model(v),
    ensures
        !(find_match(ls, q) matches Some((k, _)) && k == i),
{
    lemma_unfingerprinted_residual_rejects(ls[i], q, v);
    lemma_first_index(ls, is_exact(q));
    lemma_first_index(ls, is_same_heads(q));
}

/// Among duplicate-free stored layouts and live identities, a selected layout
/// with a non-empty remapping was matched by fingerprint: the remapping pairs the
/// residual stored identities one to one, each used once, with the residual live
/// identities in order, and paired identities have equal (make, model, serial number).
pub proof fn lemma_selected_remap_is_bijection(ls: Seq<Seq<IdentityView>>, q: Seq<IdentityView>)
    requires
        forall|k: int| 0 <= k < ls.len() ==> (#[trigger] ls[k]).no_duplicates(),
        q.no_duplicates(),
    ensures
        match find_match(ls, q) {
            Some((i, m)) => m.len() > 0 ==> {
                let rl = not_in(ls[i], q);
                let rq = not_in(q, ls[i]);
                &&& 0 <= i < ls.len()
                &&& m.len() == rq.len()
                &&& forall|j: int| 0 <= j < m.len() ==> (#[trigger] m[j]).1 == rq[j]
                &&& forall|j: int| 0 <= j < m.len() ==> fingerprint_of((#[trigger] m[j]).0) == fingerprint_of(m[j].1)
                &&& firsts(m).to_multiset() == rl.to_multiset()
                &&& firsts(m).no_duplicates()
            },
            None => true,
        },
{
    lemma_first_index(ls, is_exact(q));
    lemma_first_index(ls, is_same_heads(q));
    if let Some((i, m)) = find_match(ls, q) {
        if m.len() > 0 {
            assert(first_index(ls, is_exact(q)) < 0);
            assert(is_same_heads(q)(ls[i]));
            lemma_fuzzy_match_is_full_bijection(ls[i], q);
            let rl = not_in(ls[i], q);
            lemma_not_in_members(ls[i], q);
            rl.lemma_multiset_has_no_duplicates();
            firsts(m).lemma_multiset_has_no_duplicates_conv();
        }
    }
}

/// The identity lists of a valid store are free of duplicates, as the
/// matching laws above require.
pub proof fn lemma_valid_store_identities(ls: Seq<Layout>)
    requires
        store_valid(layouts_view(ls)),
    ensures
        forall|k: int| 0 <= k < ls.len() ==> (#[trigger] store_views(ls)[k]).no_duplicates(),
{
    assert forall|k: int| 0 <= k < ls.len() implies (#[trigger] store_views(ls)[k]).no_duplicates() by {
        let ids = store_views(ls)[k];
        let l = layouts_view(ls)[k];
        assert(layout_valid(l));
        assert forall|i: int, j: int| 0 <= i < ids.len() && 0 <= j < ids.len() && i != j implies ids[i] != ids[j] by {
            assert(ids[i] == l[i].0 && ids[j] == l[j].0);
        }
    }
}

/// A live identity that is not among the stored ones and whose fingerprint no
/// residual stored identity has makes the stored layout no match at all.
pub proof fn lemma_unmatched_live_identity_rejects(
    l: Seq<IdentityView>,
    q: Seq<IdentityView>,
    v: IdentityView,
)
    requires
        not_in(q, l).contains(v),
        forall|w: IdentityView| #[trigger] not_in(l, q).contains(w) ==> fingerprint_of(w)
            != fingerprint_of(v),
    ensures
        score_of(l, q) is None,
{
    broadcast use vstd::seq_lib::group_to_multiset_ensures;

    let rl = not_in(l, q);
    let rq = not_in(q, l);
    if l.len() == q.len() && all_fingerprinted(rl) {
        let i = choose|i: int| 0 <= i < rq.len() && rq[i] == v;
        let prefix = rq.subrange(0, i);
        assert(rq.subrange(0, i + 1).drop_last() =~= prefix);
        lemma_pair_up(rl, prefix);
        if let Some((pairs, rem)) = pair_up(rl, prefix) {
            let p = fingerprint_is(fingerprint_of(v));
            lemma_first_index(rem, p);
            if first_index(rem, p) >= 0 {
                let w = rem[first_index(rem, p)];
                assert(rem.to_multiset().count(w) > 0) by {
                    assert(rem.contains(w));
                }
                assert(rl.to_multiset().count(w) > 0);
                assert(rl.contains(w));
            }
        }
        assert(rq.subrange(0, i + 1).last() == v);
        lemma_pair_up_fails_on_prefix(rl, rq, i + 1);
    }
}

/// Converting a valid store to its persisted form and back gives the same
/// layouts, in the same order, entry by entry.
pub proof fn lemma_saved_round_trip(store: Seq<Layout>, saved: Seq<Layout>, restored: Seq<Layout>)
    requires
        store_valid(layouts_view(store)),
        layouts_view(saved) == layouts_view(store),
        layouts_view(restored) == merged_store(layouts_view(saved)),
    ensures
        layouts_view(restored) == layouts_view(store),
{
    let v = layouts_view(store);
    assert forall|i: int| 0 <= i < v.len() implies #[trigger] merged_store(v)[i] == v[i] by {
        lemma_merged_of_valid(v[i]);
    }
    assert(merged_store(v) =~= v);
}

} // verus!
