use vstd::prelude::*;
use crate::errors::{CombineError, ErrorView};
use crate::events::{clone_masks, EventOracle, EventView, TPMEvent};
use crate::pcrs::{compile_pcrs, compiled_solution, dedup_from, first_seen, Part, Pcr, PcrView};
use crate::tree::{
    branches_of, branches_of_all, lemma_branches_of_all_add, lemma_branches_of_all_push,
    lemma_branches_of_count, prefix_all, EventNode,
};

verus! {

broadcast use vstd::seq_lib::group_seq_lib_default;

/// The owner mask holds at least one of the given group bits.
pub open spec fn spec_partially_owned(owner: u32, groups: u32) -> bool {
    groups & owner != 0
}

/// The owner mask holds every one of the given group bits.
pub open spec fn spec_fully_owned(owner: u32, groups: u32) -> bool {
    (owner & groups) == groups
}

/// Some image other than `owner_index` holds at least one of the given
/// group bits.
pub open spec fn spec_other_owns_partially(owner_index: int, owned: Seq<u32>, event_groups: u32) -> bool {
    exists|j: int|
        0 <= j < owned.len() && j != owner_index && spec_partially_owned(owned[j], event_groups)
}

/// Some image other than `owner_index` holds every one of the given
/// group bits.
pub open spec fn spec_other_owns_fully(owner_index: int, owned: Seq<u32>, event_groups: u32) -> bool {
    exists|j: int|
        0 <= j < owned.len() && j != owner_index && spec_fully_owned(owned[j], event_groups)
}

/// Image `owner_index` may own an identifier with the given group mask:
/// no other image holds any of the group bits the image still misses.
pub open spec fn spec_can_own(owner_index: int, owned: Seq<u32>, event_groups: u32) -> bool {
    !spec_other_owns_partially(owner_index, owned, !owned[owner_index] & event_groups)
}

/// Whether the image holds at least one of the given group bits.
pub fn partially_owned(owner: u32, groups: u32) -> (r: bool)
    ensures
        r == spec_partially_owned(owner, groups),
{
    groups & owner != 0
}

/// Whether the image holds every one of the given group bits.
pub fn fully_owned(owner: u32, groups: u32) -> (r: bool)
    ensures
        r == spec_fully_owned(owner, groups),
{
    (owner & groups) == groups
}

/// Whether any image other than `owner_index` holds at least one of the
/// given group bits.
pub fn other_owns_partially(owner_index: usize, owned_groups: &Vec<u32>, event_groups: u32) -> (r:
    bool)
    ensures
        r == spec_other_owns_partially(owner_index as int, owned_groups@, event_groups),
{
    let mut j: usize = 0;
    while j < owned_groups.len()
        invariant
            j <= owned_groups@.len(),
            forall|t: int|
                0 <= t < j && t != owner_index ==> !spec_partially_owned(
                    #[trigger] owned_groups@[t],
                    event_groups,
                ),
        decreases owned_groups@.len() - j,
    {
        if j != owner_index && partially_owned(owned_groups[j], event_groups) {
            return true;
        }
        j += 1;
    }
    false
}

/// Whether any image other than `owner_index` holds every one of the
/// given group bits.
pub fn other_owns_fully(owner_index: usize, owned_groups: &Vec<u32>, event_groups: u32) -> (r: bool)
    ensures
        r == spec_other_owns_fully(owner_index as int, owned_groups@, event_groups),
{
    let mut j: usize = 0;
    while j < owned_groups.len()
        invariant
            j <= owned_groups@.len(),
            forall|t: int|
                0 <= t < j && t != owner_index ==> !spec_fully_owned(
                    #[trigger] owned_groups@[t],
                    event_groups,
                ),
        decreases owned_groups@.len() - j,
    {
        if j != owner_index && fully_owned(owned_groups[j], event_groups) {
            return true;
        }
        j += 1;
    }
    false
}

/// Whether image `owner_index` may own an identifier with the given
/// group mask under the current ownership state.
pub fn can_own(owner_index: usize, owned_groups: &Vec<u32>, event_groups: u32) -> (r: bool)
    requires
        owner_index < owned_groups@.len(),
    ensures
        r == spec_can_own(owner_index as int, owned_groups@, event_groups),
{
    let missing_groups = !owned_groups[owner_index] & event_groups;
    !other_owns_partially(owner_index, owned_groups, missing_groups)
}

/// The bitwise or of the first `i` masks.
pub open spec fn or_prefix(groups: Seq<u32>, i: int) -> u32
    decreases i,
{
    if i <= 0 {
        0u32
    } else {
        or_prefix(groups, i - 1) | groups[i - 1]
    }
}

/// Two distinct masks of the vector share at least one group bit.
pub open spec fn spec_masks_overlap(groups: Seq<u32>) -> bool {
    exists|i: int, j: int| 0 <= j < i < groups.len() && groups[j] & groups[i] != 0
}

proof fn lemma_or_prefix_bits(groups: Seq<u32>, i: int, x: u32)
    requires
        0 <= i <= groups.len(),
    ensures
        (or_prefix(groups, i) & x != 0) <==> exists|j: int|
            0 <= j < i && #[trigger] groups[j] & x != 0,
    decreases i,
{
    if i > 0 {
        lemma_or_prefix_bits(groups, i - 1, x);
        let a = or_prefix(groups, i - 1);
        let b = groups[i - 1];
        assert(((a | b) & x != 0) == ((a & x != 0) || (b & x != 0))) by (bit_vector);
        if or_prefix(groups, i) & x != 0 {
            if a & x != 0 {
                let w = choose|j: int| 0 <= j < i - 1 && #[trigger] groups[j] & x != 0;
                assert(0 <= w < i && groups[w] & x != 0);
            } else {
                assert(groups[i - 1] & x != 0);
            }
        }
        if exists|j: int| 0 <= j < i && #[trigger] groups[j] & x != 0 {
            let w = choose|j: int| 0 <= j < i && #[trigger] groups[j] & x != 0;
            if w < i - 1 {
                assert(exists|j: int| 0 <= j < i - 1 && #[trigger] groups[j] & x != 0);
            } else {
                assert(b & x != 0);
            }
        }
    } else {
        assert(0u32 & x == 0) by (bit_vector);
    }
}

/// Whether any two masks of the vector share a group bit, walking the
/// vector once and accumulating the bits seen so far.
pub fn group_masks_overlap(groups: &Vec<u32>) -> (r: bool)
    ensures
        r == spec_masks_overlap(groups@),
{
    let mut sum: u32 = 0;
    let mut i: usize = 0;
    while i < groups.len()
        invariant
            i <= groups@.len(),
            sum == or_prefix(groups@, i as int),
            !spec_masks_overlap(groups@.take(i as int)),
        decreases groups@.len() - i,
    {
        if sum & groups[i] != 0 {
            proof {
                lemma_or_prefix_bits(groups@, i as int, groups@[i as int]);
            }
            return true;
        }
        sum |= groups[i];
        proof {
            lemma_or_prefix_bits(groups@, i as int, groups@[i as int]);
            assert forall|t: int, u: int|
                0 <= u < t < groups@.take(i + 1).len() implies !(#[trigger] groups@.take(i + 1)[u]
                & #[trigger] groups@.take(i + 1)[t] != 0) by {
                if t < i {
                    assert(!spec_masks_overlap(groups@.take(i as int)));
                    assert(groups@.take(i as int)[u] == groups@[u]);
                    assert(groups@.take(i as int)[t] == groups@[t]);
                } else {
                    assert(!(groups@[u] & groups@[i as int] != 0));
                }
            }
        }
        i += 1;
    }
    proof {
        assert(groups@.take(groups@.len() as int) =~= groups@);
    }
    false
}

/// One divergence of the branch tree: a candidate event value and the
/// per-image ownership masks a branch adopting it carries forward.
pub struct Divergence {
    pub event: TPMEvent,
    pub masks: Vec<u32>,
}

/// Mathematical view of one divergence.
#[verifier::ext_equal]
pub struct DivView {
    pub event: EventView,
    pub masks: Seq<u32>,
}

impl View for Divergence {
    type V = DivView;

    open spec fn view(&self) -> DivView {
        DivView { event: self.event@, masks: self.masks@ }
    }
}

impl DeepView for Divergence {
    type V = DivView;

    open spec fn deep_view(&self) -> DivView {
        self.view()
    }
}

/// State of the per-identifier scan over the images: the divergences
/// recorded so far, the images found in conflict, the distinct supplied
/// event values in first-occurrence order, and whether every image
/// scanned so far supplied a value.
#[verifier::ext_equal]
pub struct ScanState {
    pub divs: Seq<DivView>,
    pub conflicts: Seq<usize>,
    pub supplied: Seq<EventView>,
    pub all_supplied: bool,
}

/// Whether some recorded divergence already carries this event value.
pub open spec fn divs_contain(divs: Seq<DivView>, ev: EventView) -> bool {
    exists|j: int| 0 <= j < divs.len() && divs[j].event == ev
}

/// Index of the first divergence carrying this event value.
pub open spec fn first_div_with(divs: Seq<DivView>, ev: EventView) -> int
    decreases divs.len(),
{
    if divs.len() == 0 {
        0
    } else if divs[0].event == ev {
        0
    } else {
        1 + first_div_with(divs.drop_first(), ev)
    }
}

proof fn lemma_first_div_with(divs: Seq<DivView>, ev: EventView, i: int)
    requires
        0 <= i < divs.len(),
        forall|j: int| 0 <= j < i ==> (#[trigger] divs[j]).event != ev,
        divs[i].event == ev,
    ensures
        first_div_with(divs, ev) == i,
    decreases i,
{
    if i == 0 {
    } else {
        assert forall|j: int| 0 <= j < i - 1 implies (#[trigger] divs.drop_first()[j]).event
            != ev by {
            assert(divs.drop_first()[j] == divs[j + 1]);
        }
        assert(divs.drop_first()[i - 1] == divs[i]);
        lemma_first_div_with(divs.drop_first(), ev, i - 1);
    }
}

/// One step of the per-identifier scan: how image `im`, supplying
/// `opt`, extends the scan state under incoming ownership `groups` and
/// identifier group mask `mask`.
pub open spec fn scan_step(
    st: ScanState,
    im: int,
    opt: Option<EventView>,
    groups: Seq<u32>,
    mask: u32,
) -> ScanState {
    match opt {
        Option::None => ScanState {
            divs: st.divs,
            conflicts: st.conflicts,
            supplied: st.supplied,
            all_supplied: false,
        },
        Option::Some(ev) => {
            let supplied = if st.supplied.contains(ev) {
                st.supplied
            } else {
                st.supplied.push(ev)
            };
            if spec_can_own(im, groups, mask) {
                if divs_contain(st.divs, ev) {
                    let j = first_div_with(st.divs, ev);
                    let d = st.divs[j];
                    ScanState {
                        divs: st.divs.update(
                            j,
                            DivView { event: d.event, masks: d.masks.update(im, d.masks[im] | mask) },
                        ),
                        conflicts: st.conflicts,
                        supplied,
                        all_supplied: st.all_supplied,
                    }
                } else {
                    ScanState {
                        divs: st.divs.push(
                            DivView { event: ev, masks: groups.update(im, groups[im] | mask) },
                        ),
                        conflicts: st.conflicts,
                        supplied,
                        all_supplied: st.all_supplied,
                    }
                }
            } else if spec_other_owns_partially(im, groups, mask) && !spec_other_owns_fully(
                im,
                groups,
                mask,
            ) {
                ScanState {
                    divs: st.divs,
                    conflicts: st.conflicts.push(im as usize),
                    supplied,
                    all_supplied: st.all_supplied,
                }
            } else {
                ScanState {
                    divs: st.divs,
                    conflicts: st.conflicts,
                    supplied,
                    all_supplied: st.all_supplied,
                }
            }
        },
    }
}

/// The scan state after the first `upto` images have been considered
/// for identifier `id`.
pub open spec fn scan_images(
    maps: Seq<Seq<Option<EventView>>>,
    id: int,
    groups: Seq<u32>,
    mask: u32,
    upto: int,
) -> ScanState
    decreases upto,
{
    if upto <= 0 {
        ScanState {
            divs: Seq::empty(),
            conflicts: Seq::empty(),
            supplied: Seq::empty(),
            all_supplied: true,
        }
    } else {
        scan_step(
            scan_images(maps, id, groups, mask, upto - 1),
            upto - 1,
            maps[upto - 1][id],
            groups,
            mask,
        )
    }
}

/// The divergences the engine adopts for one identifier: the scanned
/// divergences, collapsed to a single fork that keeps the incoming
/// ownership state when every image supplied the same single value.
pub open spec fn adopted_divs(scan: ScanState, groups: Seq<u32>) -> Seq<DivView> {
    if scan.all_supplied && scan.supplied.len() == 1 && scan.divs.len() == 1 {
        seq![DivView { event: scan.divs[0].event, masks: groups }]
    } else {
        scan.divs
    }
}

/// The branch sequences the combination engine produces from identifier
/// `id` on, under the per-image ownership state `groups`: every ordered,
/// internally consistent hypothesized event sequence, or the first
/// conflict or inconsistency met.
pub open spec fn engine_branches(
    maps: Seq<Seq<Option<EventView>>>,
    oracle: Seq<u32>,
    id: int,
    groups: Seq<u32>,
) -> Result<Seq<Seq<EventView>>, ErrorView>
    decreases oracle.len() - id, 1int, 0int,
{
    if id < 0 || id >= oracle.len() {
        Result::Ok(Seq::empty())
    } else {
        let scan = scan_images(maps, id, groups, oracle[id], maps.len() as int);
        let divs = adopted_divs(scan, groups);
        if scan.conflicts.len() > 0 {
            Result::Err(
                ErrorView::UnresolvedGroupConflict {
                    identifier: id as usize,
                    images: scan.conflicts,
                },
            )
        } else if divs.len() == 0 {
            if scan.supplied.len() > 0 {
                Result::Err(ErrorView::InternalInconsistency)
            } else {
                engine_branches(maps, oracle, id + 1, groups)
            }
        } else {
            expand_divs(maps, oracle, id, divs)
        }
    }
}

/// The branches contributed by each divergence of one identifier, in
/// divergence order: each divergence's event prepended to every branch
/// of the successor identifier under that divergence's ownership state.
pub open spec fn expand_divs(
    maps: Seq<Seq<Option<EventView>>>,
    oracle: Seq<u32>,
    id: int,
    divs: Seq<DivView>,
) -> Result<Seq<Seq<EventView>>, ErrorView>
    decreases oracle.len() - id, 0int, divs.len(),
{
    if id < 0 || id >= oracle.len() {
        Result::Ok(Seq::empty())
    } else if divs.len() == 0 {
        Result::Ok(Seq::empty())
    } else {
        match engine_branches(maps, oracle, id + 1, divs[0].masks) {
            Result::Err(e) => Result::Err(e),
            Result::Ok(sub) => {
                let mine = if sub.len() == 0 {
                    seq![seq![divs[0].event]]
                } else {
                    prefix_all(divs[0].event, sub)
                };
                match expand_divs(maps, oracle, id, divs.drop_first()) {
                    Result::Err(e) => Result::Err(e),
                    Result::Ok(rest) => Result::Ok(mine + rest),
                }
            },
        }
    }
}

fn contains_event(v: &Vec<TPMEvent>, e: &TPMEvent) -> (r: bool)
    ensures
        r == v.deep_view().contains(e@),
{
    let mut i: usize = 0;
    while i < v.len()
        invariant
            i <= v@.len(),
            forall|j: int| 0 <= j < i ==> v.deep_view()[j] != e@,
        decreases v@.len() - i,
    {
        if v[i].same_event(e) {
            assert(v.deep_view()[i as int] == e@);
            return true;
        }
        i += 1;
    }
    proof {
        assert(!v.deep_view().contains(e@));
    }
    false
}

fn find_div(divs: &Vec<Divergence>, e: &TPMEvent) -> (r: Option<usize>)
    ensures
        match r {
            Some(j) => j < divs@.len() && divs.deep_view()[j as int].event == e@ && first_div_with(
                divs.deep_view(),
                e@,
            ) == j && divs_contain(divs.deep_view(), e@),
            None => !divs_contain(divs.deep_view(), e@),
        },
{
    let mut i: usize = 0;
    while i < divs.len()
        invariant
            i <= divs@.len(),
            forall|j: int| 0 <= j < i ==> (#[trigger] divs.deep_view()[j]).event != e@,
        decreases divs@.len() - i,
    {
        if divs[i].event.same_event(e) {
            proof {
                assert(divs.deep_view()[i as int].event == e@);
                lemma_first_div_with(divs.deep_view(), e@, i as int);
            }
            return Some(i);
        }
        i += 1;
    }
    proof {
        assert forall|j: int| 0 <= j < divs.deep_view().len() implies (#[trigger] divs.deep_view()[j]).event
            != e@ by {}
    }
    None
}

/// Mathematical view of one image's identifier-indexed event table:
/// entry `k` holds the image's event for the `k`-th identifier, the
/// last such event when the image holds several.
pub open spec fn last_event_with(evs: Seq<EventView>, k: int) -> Option<EventView>
    decreases evs.len(),
{
    if evs.len() == 0 {
        Option::None
    } else if evs.last().id == k {
        Option::Some(evs.last())
    } else {
        last_event_with(evs.drop_last(), k)
    }
}

/// The identifier-indexed event table of one image.
pub open spec fn index_spec(evs: Seq<EventView>, n: int) -> Seq<Option<EventView>> {
    Seq::new(n as nat, |k: int| last_event_with(evs, k))
}

/// Index one image's events by identifier, one slot per identifier of
/// the canonical order; on duplicate identifiers the later event wins,
/// as with insertion into an identifier-keyed map.
pub fn tpm_event_id_index(events: &Vec<TPMEvent>, n: usize) -> (r: Vec<Option<TPMEvent>>)
    requires
        forall|j: int| 0 <= j < events.deep_view().len() ==> (#[trigger] events.deep_view()[j]).id
            < n,
    ensures
        r.deep_view() == index_spec(events.deep_view(), n as int),
{
    let ghost evs = events.deep_view();
    let mut r: Vec<Option<TPMEvent>> = Vec::new();
    let mut k: usize = 0;
    while k < n
        invariant
            k <= n,
            r.deep_view().len() == k,
            forall|j: int| 0 <= j < k ==> r.deep_view()[j] is None,
        decreases n - k,
    {
        let ghost r_pre = r.deep_view();
        r.push(None);
        proof {
            assert forall|j: int| 0 <= j < k + 1 implies r.deep_view()[j] is None by {
                if j < k {
                    assert(r.deep_view()[j] == r_pre[j]);
                }
            }
        }
        k += 1;
    }
    proof {
        assert forall|t: int| 0 <= t < n implies r.deep_view()[t] == last_event_with(
            evs.take(0),
            t,
        ) by {
            assert(evs.take(0) =~= Seq::<EventView>::empty());
        }
        assert(r.deep_view() =~= index_spec(evs.take(0), n as int));
    }
    let mut i: usize = 0;
    while i < events.len()
        invariant
            i <= evs.len(),
            evs == events.deep_view(),
            n == r.deep_view().len(),
            forall|j: int| 0 <= j < evs.len() ==> (#[trigger] evs[j]).id < n,
            r.deep_view() == index_spec(evs.take(i as int), n as int),
        decreases evs.len() - i,
    {
        let ghost r_pre = r.deep_view();
        let ev = events[i].duplicate();
        let ghost slot = ev@.id as int;
        proof {
            assert(evs[i as int].id < n);
            assert(events@[i as int].id == evs[i as int].id);
        }
        r.set(events[i].id, Some(ev));
        proof {
            assert(evs.take(i + 1).last() == evs[i as int]);
            assert(evs.take(i + 1).drop_last() =~= evs.take(i as int));
            assert forall|t: int| 0 <= t < n implies r.deep_view()[t] == index_spec(
                evs.take(i + 1),
                n as int,
            )[t] by {
                if t == slot {
                    assert(r.deep_view()[t] == Option::Some(evs[i as int]));
                    assert(last_event_with(evs.take(i + 1), t) == Option::Some(evs[i as int]));
                } else {
                    assert(r.deep_view()[t] == r_pre[t]);
                    assert(last_event_with(evs.take(i + 1), t) == last_event_with(
                        evs.take(i as int),
                        t,
                    ));
                }
            }
            assert(r.deep_view() =~= index_spec(evs.take(i + 1), n as int));
        }
        i += 1;
    }
    proof {
        assert(evs.take(evs.len() as int) =~= evs);
    }
    r
}

/// Build the divergent subtrees for identifier `event_id` and every
/// identifier after it in the canonical order, under the per-image
/// ownership state `groups`. The nodes returned, read root to leaf,
/// carry exactly the engine's hypothesized event sequences; a detected
/// group conflict or engine inconsistency is reported instead.
#[verifier::loop_isolation(false)]
pub fn event_subtree(
    oracle: &EventOracle,
    event_id: usize,
    event_maps: &Vec<Vec<Option<TPMEvent>>>,
    groups: Vec<u32>,
) -> (r: Result<Vec<EventNode>, CombineError>)
    requires
        event_id < oracle.masks@.len(),
        groups@.len() == event_maps@.len(),
        forall|i: int|
            0 <= i < event_maps@.len() ==> (#[trigger] event_maps@[i])@.len()
                == oracle.masks@.len(),
    ensures
        r matches Ok(nodes) ==> engine_branches(
            event_maps.deep_view(),
            oracle.masks@,
            event_id as int,
            groups@,
        ) == Result::<Seq<Seq<EventView>>, ErrorView>::Ok(branches_of_all(nodes@)),
        r matches Err(e) ==> engine_branches(
            event_maps.deep_view(),
            oracle.masks@,
            event_id as int,
            groups@,
        ) == Result::<Seq<Seq<EventView>>, ErrorView>::Err(e@),
    decreases oracle.masks@.len() - event_id,
{
    let ghost maps_v = event_maps.deep_view();
    let ghost omasks = oracle.masks@;
    let ghost id = event_id as int;
    let event_groups = oracle.group_mask(event_id);
    let n_images = event_maps.len();
    let mut divs: Vec<Divergence> = Vec::new();
    let mut conflicts: Vec<usize> = Vec::new();
    let mut supplied: Vec<TPMEvent> = Vec::new();
    let mut all_supplied = true;
    let mut i: usize = 0;
    proof {
        assert(maps_v.len() == event_maps@.len());
        let st0 = scan_images(maps_v, id, groups@, event_groups, 0);
        assert(divs.deep_view() =~= st0.divs);
        assert(conflicts@ =~= st0.conflicts);
        assert(supplied.deep_view() =~= st0.supplied);
    }
    while i < n_images
        invariant
            i <= n_images,
            n_images == event_maps@.len(),
            maps_v == event_maps.deep_view(),
            omasks == oracle.masks@,
            id == event_id as int,
            0 <= id < omasks.len(),
            event_groups == omasks[id],
            groups@.len() == n_images,
            forall|t: int|
                0 <= t < event_maps@.len() ==> (#[trigger] event_maps@[t])@.len() == omasks.len(),
            divs.deep_view() == scan_images(maps_v, id, groups@, event_groups, i as int).divs,
            conflicts@ == scan_images(maps_v, id, groups@, event_groups, i as int).conflicts,
            supplied.deep_view() == scan_images(maps_v, id, groups@, event_groups, i as int).supplied,
            all_supplied == scan_images(maps_v, id, groups@, event_groups, i as int).all_supplied,
            forall|t: int|
                0 <= t < divs.deep_view().len() ==> (#[trigger] divs.deep_view()[t]).masks.len()
                    == n_images,
        decreases n_images - i,
    {
        let ghost st = scan_images(maps_v, id, groups@, event_groups, i as int);
        let ghost st_next = scan_images(maps_v, id, groups@, event_groups, i + 1);
        proof {
            assert(st_next == scan_step(st, i as int, maps_v[i as int][id], groups@, event_groups));
            assert(maps_v[i as int] == event_maps@[i as int].deep_view());
        }
        let row = &event_maps[i];
        match &row[event_id] {
            Some(event) => {
                proof {
                    assert(maps_v[i as int][id] == Option::Some(event@));
                }
                let is_known = contains_event(&supplied, event);
                if !is_known {
                    supplied.push(event.duplicate());
                }
                proof {
                    let sup = if st.supplied.contains(event@) {
                        st.supplied
                    } else {
                        st.supplied.push(event@)
                    };
                    assert(supplied.deep_view() =~= sup);
                }
                if can_own(i, &groups, event_groups) {
                    match find_div(&divs, event) {
                        Some(j) => {
                            let merged = divs[j].masks[i] | event_groups;
                            let mut new_masks = clone_masks(&divs[j].masks);
                            new_masks.set(i, merged);
                            let new_event = divs[j].event.duplicate();
                            let ghost divs_pre = divs.deep_view();
                            divs.set(j, Divergence { event: new_event, masks: new_masks });
                            proof {
                                let d = st.divs[j as int];
                                assert(new_masks@ =~= d.masks.update(
                                    i as int,
                                    d.masks[i as int] | event_groups,
                                ));
                                assert(divs.deep_view() =~= st_next.divs);
                            }
                        },
                        None => {
                            let mut new_masks = clone_masks(&groups);
                            let merged = new_masks[i] | event_groups;
                            new_masks.set(i, merged);
                            let ghost divs_pre = divs.deep_view();
                            divs.push(Divergence { event: event.duplicate(), masks: new_masks });
                            proof {
                                assert(new_masks@ =~= groups@.update(
                                    i as int,
                                    groups@[i as int] | event_groups,
                                ));
                                assert(divs.deep_view() =~= st_next.divs);
                            }
                        },
                    }
                } else if other_owns_partially(i, &groups, event_groups) && !other_owns_fully(
                    i,
                    &groups,
                    event_groups,
                ) {
                    conflicts.push(i);
                    proof {
                        assert(conflicts@ =~= st_next.conflicts);
                    }
                }
            },
            None => {
                all_supplied = false;
                proof {
                    assert(maps_v[i as int][id] is None);
                }
            },
        }
        i += 1;
    }
    let ghost scan = scan_images(maps_v, id, groups@, event_groups, n_images as int);
    let ghost dspec = adopted_divs(scan, groups@);
    proof {
        assert(maps_v.len() == n_images);
    }
    if supplied.len() == 1 && divs.len() == 1 && all_supplied {
        let unanimous = match divs.pop() {
            Some(d) => d,
            None => {
                proof {
                    assert(false);
                }
                return Err(CombineError::InternalInconsistency);
            },
        };
        divs.push(Divergence { event: unanimous.event, masks: clone_masks(&groups) });
        proof {
            assert(scan.divs.last() == scan.divs[0]);
            assert(divs.deep_view() =~= dspec);
        }
    }
    proof {
        assert(divs.deep_view() == dspec);
        assert forall|t: int| 0 <= t < dspec.len() implies (#[trigger] dspec[t]).masks.len()
            == event_maps@.len() by {
            if scan.all_supplied && scan.supplied.len() == 1 && scan.divs.len() == 1 {
                assert(dspec[t].masks == groups@);
            } else {
                assert(dspec[t] == scan.divs[t]);
            }
        }
    }
    if conflicts.len() > 0 {
        let err = CombineError::UnresolvedGroupConflict {
            identifier: event_id,
            images: conflicts,
        };
        proof {
            assert(err@ == (ErrorView::UnresolvedGroupConflict {
                identifier: event_id,
                images: scan.conflicts,
            }));
        }
        return Err(err);
    }
    if divs.len() == 0 {
        if supplied.len() > 0 {
            return Err(CombineError::InternalInconsistency);
        }
        match oracle.successor(event_id) {
            None => {
                proof {
                    assert(engine_branches(maps_v, omasks, id + 1, groups@)
                        == Result::<Seq<Seq<EventView>>, ErrorView>::Ok(Seq::empty()));
                    assert(engine_branches(maps_v, omasks, id, groups@) == engine_branches(
                        maps_v,
                        omasks,
                        id + 1,
                        groups@,
                    ));
                    assert(branches_of_all(Seq::<EventNode>::empty()) =~= Seq::<
                        Seq<EventView>,
                    >::empty());
                }
                let nodes: Vec<EventNode> = Vec::new();
                proof {
                    assert(nodes@ =~= Seq::<EventNode>::empty());
                }
                return Ok(nodes);
            },
            Some(next) => {
                proof {
                    assert(next == event_id + 1);
                    assert(next < omasks.len());
                }
                let ghost g = groups@;
                let sub_result = event_subtree(oracle, next, event_maps, groups);
                proof {
                    assert(engine_branches(maps_v, omasks, id, g) == engine_branches(
                        maps_v,
                        omasks,
                        id + 1,
                        g,
                    ));
                }
                return sub_result;
            },
        }
    }
    proof {
        assert(scan.conflicts.len() == 0);
        assert(dspec.len() > 0);
        assert(maps_v.len() as int == n_images as int);
        assert(scan_images(maps_v, id, groups@, omasks[id], maps_v.len() as int) == scan);
        assert(engine_branches(maps_v, omasks, id, groups@) == expand_divs(
            maps_v,
            omasks,
            id,
            dspec,
        ));
    }
    let mut nodes: Vec<EventNode> = Vec::new();
    let mut idx: usize = 0;
    proof {
        assert(dspec.skip(0) =~= dspec);
        assert(branches_of_all(nodes@) =~= Seq::<Seq<EventView>>::empty());
        match expand_divs(maps_v, omasks, id, dspec) {
            Result::Ok(rest) => {
                assert(Seq::<Seq<EventView>>::empty() + rest =~= rest);
            },
            Result::Err(_) => {},
        }
    }
    while idx < divs.len()
        invariant
            idx <= divs@.len(),
            maps_v == event_maps.deep_view(),
            omasks == oracle.masks@,
            id == event_id as int,
            0 <= id < omasks.len(),
            groups@.len() == event_maps@.len(),
            forall|t: int|
                0 <= t < event_maps@.len() ==> (#[trigger] event_maps@[t])@.len() == omasks.len(),
            divs.deep_view() == dspec,
            dspec.len() > 0,
            forall|t: int| 0 <= t < dspec.len() ==> (#[trigger] dspec[t]).masks.len()
                == event_maps@.len(),
            expand_divs(maps_v, omasks, id, dspec) == (match expand_divs(
                maps_v,
                omasks,
                id,
                dspec.skip(idx as int),
            ) {
                Result::Ok(rest) => Result::<Seq<Seq<EventView>>, ErrorView>::Ok(
                    branches_of_all(nodes@) + rest,
                ),
                Result::Err(e) => Result::<Seq<Seq<EventView>>, ErrorView>::Err(e),
            }),
        decreases divs@.len() - idx,
    {
        let ghost suffix = dspec.skip(idx as int);
        proof {
            assert(suffix.len() > 0);
            assert(suffix[0] == dspec[idx as int]);
            assert(suffix.drop_first() =~= dspec.skip(idx + 1));
        }
        let mut node = EventNode::new(divs[idx].event.duplicate());
        match oracle.successor(event_id) {
            None => {
                proof {
                    assert(engine_branches(maps_v, omasks, id + 1, dspec[idx as int].masks)
                        == Result::<Seq<Seq<EventView>>, ErrorView>::Ok(Seq::empty()));
                }
            },
            Some(next) => {
                proof {
                    assert(next == event_id + 1);
                    assert(next < omasks.len());
                }
                match event_subtree(oracle, next, event_maps, clone_masks(&divs[idx].masks)) {
                    Ok(mut children) => {
                        let ghost children_init = children@;
                        proof {
                            assert(engine_branches(maps_v, omasks, id + 1, dspec[idx as int].masks)
                                == Result::<Seq<Seq<EventView>>, ErrorView>::Ok(
                                branches_of_all(children_init),
                            ));
                        }
                        while children.len() > 0
                            invariant
                                node.children@ + children@ == children_init,
                                node.value@ == dspec[idx as int].event,
                            decreases children@.len(),
                        {
                            let c = children.remove(0);
                            node.add_child(c);
                            proof {
                                assert(node.children@ + children@ =~= children_init);
                            }
                        }
                        proof {
                            assert(children@ =~= Seq::<EventNode>::empty());
                            assert(node.children@ =~= children_init);
                        }
                    },
                    Err(e) => {
                        proof {
                            assert(expand_divs(maps_v, omasks, id, suffix)
                                == Result::<Seq<Seq<EventView>>, ErrorView>::Err(e@));
                            assert(expand_divs(maps_v, omasks, id, dspec)
                                == Result::<Seq<Seq<EventView>>, ErrorView>::Err(e@));
                            assert(engine_branches(maps_v, omasks, id, groups@) == expand_divs(
                                maps_v,
                                omasks,
                                id,
                                dspec,
                            ));
                        }
                        return Err(e);
                    },
                }
            },
        }
        proof {
            let sub = match engine_branches(maps_v, omasks, id + 1, dspec[idx as int].masks) {
                Result::Ok(s) => s,
                Result::Err(_) => Seq::empty(),
            };
            assert(sub == branches_of_all(node.children@));
            if node.children@.len() == 0 {
                assert(branches_of(node) == seq![seq![dspec[idx as int].event]]);
            } else {
                lemma_branches_of_count(node.children@[0]);
                assert(branches_of_all(node.children@) == branches_of(node.children@[0])
                    + branches_of_all(node.children@.drop_first()));
                assert(sub.len() > 0);
                assert(branches_of(node) == prefix_all(dspec[idx as int].event, sub));
            }
        }
        let ghost nodes_pre = nodes@;
        nodes.push(node);
        proof {
            lemma_branches_of_all_push(nodes_pre, node);
            let mine = if branches_of_all(node.children@).len() == 0 {
                seq![seq![dspec[idx as int].event]]
            } else {
                prefix_all(dspec[idx as int].event, branches_of_all(node.children@))
            };
            assert(branches_of(node) == mine);
            assert(branches_of_all(nodes@) == branches_of_all(nodes_pre) + mine);
            match expand_divs(maps_v, omasks, id, dspec.skip(idx + 1)) {
                Result::Ok(rest) => {
                    assert(expand_divs(maps_v, omasks, id, suffix)
                        == Result::<Seq<Seq<EventView>>, ErrorView>::Ok(mine + rest));
                    assert((branches_of_all(nodes_pre) + mine) + rest =~= branches_of_all(
                        nodes_pre,
                    ) + (mine + rest));
                },
                Result::Err(e) => {
                    assert(expand_divs(maps_v, omasks, id, suffix)
                        == Result::<Seq<Seq<EventView>>, ErrorView>::Err(e));
                },
            }
        }
        idx += 1;
    }
    proof {
        assert(dspec.skip(dspec.len() as int) =~= Seq::<DivView>::empty());
        assert(expand_divs(maps_v, omasks, id, Seq::<DivView>::empty())
            == Result::<Seq<Seq<EventView>>, ErrorView>::Ok(Seq::empty()));
        assert(branches_of_all(nodes@) + Seq::<Seq<EventView>>::empty() =~= branches_of_all(
            nodes@,
        ));
        assert(expand_divs(maps_v, omasks, id, dspec)
            == Result::<Seq<Seq<EventView>>, ErrorView>::Ok(branches_of_all(nodes@)));
        assert(engine_branches(maps_v, omasks, id, groups@) == expand_divs(
            maps_v,
            omasks,
            id,
            dspec,
        ));
    }
    Ok(nodes)
}

fn part_eq(a: &Part, b: &Part) -> (r: bool)
    ensures
        r == (a@ == b@),
{
    if !crate::events::bytes_eq(&a.hash, &b.hash) {
        return false;
    }
    if a.name != b.name {
        return false;
    }
    proof {
        assert(a@ =~= b@);
    }
    true
}

fn pcr_eq(a: &Pcr, b: &Pcr) -> (r: bool)
    ensures
        r == (a@ == b@),
{
    if a.id != b.id {
        return false;
    }
    if !crate::events::bytes_eq(&a.value, &b.value) {
        return false;
    }
    if a.parts.len() != b.parts.len() {
        proof {
            assert(a@.parts.len() == a.parts@.len());
            assert(b@.parts.len() == b.parts@.len());
        }
        return false;
    }
    let mut i: usize = 0;
    while i < a.parts.len()
        invariant
            i <= a.parts@.len(),
            a.parts@.len() == b.parts@.len(),
            a.id == b.id,
            a.value@ == b.value@,
            forall|j: int| 0 <= j < i ==> a.parts.deep_view()[j] == b.parts.deep_view()[j],
        decreases a.parts@.len() - i,
    {
        if !part_eq(&a.parts[i], &b.parts[i]) {
            assert(a.parts.deep_view()[i as int] != b.parts.deep_view()[i as int]);
            return false;
        }
        i += 1;
    }
    proof {
        assert(a.parts.deep_view() =~= b.parts.deep_view());
        assert(a@ =~= b@);
    }
    true
}

fn solution_eq(a: &Vec<Pcr>, b: &Vec<Pcr>) -> (r: bool)
    ensures
        r == (a.deep_view() == b.deep_view()),
{
    if a.len() != b.len() {
        proof {
            assert(a.deep_view().len() == a@.len());
            assert(b.deep_view().len() == b@.len());
        }
        return false;
    }
    let mut i: usize = 0;
    while i < a.len()
        invariant
            i <= a@.len(),
            a@.len() == b@.len(),
            forall|j: int| 0 <= j < i ==> a.deep_view()[j] == b.deep_view()[j],
        decreases a@.len() - i,
    {
        if !pcr_eq(&a[i], &b[i]) {
            assert(a.deep_view()[i as int] != b.deep_view()[i as int]);
            return false;
        }
        i += 1;
    }
    proof {
        assert(a.deep_view() =~= b.deep_view());
    }
    true
}

fn contains_solution(sols: &Vec<Vec<Pcr>>, s: &Vec<Pcr>) -> (r: bool)
    ensures
        r == sols.deep_view().contains(s.deep_view()),
{
    let mut i: usize = 0;
    while i < sols.len()
        invariant
            i <= sols@.len(),
            forall|j: int| 0 <= j < i ==> sols.deep_view()[j] != s.deep_view(),
        decreases sols@.len() - i,
    {
        if solution_eq(&sols[i], s) {
            assert(sols.deep_view()[i as int] == s.deep_view());
            return true;
        }
        i += 1;
    }
    proof {
        assert(!sols.deep_view().contains(s.deep_view()));
    }
    false
}

/// The identifier-indexed event tables of every image.
pub open spec fn images_index_spec(imgs: Seq<Seq<EventView>>, n: int) -> Seq<Seq<Option<EventView>>> {
    imgs.map_values(|img: Seq<EventView>| index_spec(img, n))
}

/// One all-zero ownership mask per image.
pub open spec fn zero_masks(count: int) -> Seq<u32> {
    Seq::new(count as nat, |i: int| 0u32)
}

/// The solutions of the engine's branches: each hypothesized event
/// sequence compiled register by register, the resulting register sets
/// deduplicated by structural equality at first occurrence, in branch
/// order.
pub open spec fn combined_solutions(branches: Seq<Seq<EventView>>) -> Seq<Seq<PcrView>> {
    first_seen(branches.map_values(|b: Seq<EventView>| compiled_solution(b)))
}

/// Predict every plausible set of final register values over the given
/// candidate images: index each image by identifier, walk the canonical
/// identifier order from its root building the branch tree under the
/// group-ownership rule, compile every branch, and return the distinct
/// register-value sets in stable order. A group conflict or an engine
/// inconsistency is reported as an error instead.
#[verifier::loop_isolation(false)]
#[verifier::rlimit(80)]
pub fn combine(oracle: &EventOracle, images: &Vec<Vec<TPMEvent>>) -> (r: Result<
    Vec<Vec<Pcr>>,
    CombineError,
>)
    requires
        forall|i: int, j: int|
            0 <= i < images.deep_view().len() && 0 <= j < images.deep_view()[i].len() ==> (
            #[trigger] images.deep_view()[i][j]).id < oracle.masks@.len(),
    ensures
        ({
            let eng = engine_branches(
                images_index_spec(images.deep_view(), oracle.masks@.len() as int),
                oracle.masks@,
                0,
                zero_masks(images@.len() as int),
            );
            match r {
                Ok(sols) => match eng {
                    Result::Ok(branches) => sols.deep_view() == combined_solutions(branches),
                    Result::Err(_) => false,
                },
                Err(e) => eng == Result::<Seq<Seq<EventView>>, ErrorView>::Err(e@),
            }
        }),
{
    let ghost imgs = images.deep_view();
    let n = oracle.count();
    let n_images = images.len();
    let mut event_maps: Vec<Vec<Option<TPMEvent>>> = Vec::new();
    let mut i: usize = 0;
    while i < n_images
        invariant
            i <= n_images,
            event_maps.deep_view().len() == i,
            forall|t: int|
                0 <= t < i ==> #[trigger] event_maps.deep_view()[t] == index_spec(
                    imgs[t],
                    n as int,
                ),
            forall|t: int| 0 <= t < i ==> (#[trigger] event_maps@[t])@.len() == n,
        decreases n_images - i,
    {
        let ghost maps_pre = event_maps.deep_view();
        let ghost rows_pre = event_maps@;
        let image = &images[i];
        proof {
            assert forall|j: int| 0 <= j < image.deep_view().len() implies (
            #[trigger] image.deep_view()[j]).id < oracle.masks@.len() by {
                assert(image.deep_view()[j] == images.deep_view()[i as int][j]);
            }
        }
        let m = tpm_event_id_index(image, n);
        proof {
            assert(m.deep_view().len() == n as int);
            assert(m@.len() == n);
        }
        event_maps.push(m);
        proof {
            assert forall|t: int| 0 <= t < i + 1 implies #[trigger] event_maps.deep_view()[t]
                == index_spec(imgs[t], n as int) by {
                if t < i {
                    assert(event_maps.deep_view()[t] == maps_pre[t]);
                } else {
                    assert(event_maps.deep_view()[t] == m.deep_view());
                }
            }
            assert forall|t: int| 0 <= t < i + 1 implies (#[trigger] event_maps@[t])@.len()
                == n by {
                if t < i {
                    assert(event_maps@[t] == rows_pre[t]);
                } else {
                    assert(event_maps@[t] == m);
                }
            }
        }
        i += 1;
    }
    proof {
        assert(event_maps.deep_view() =~= images_index_spec(imgs, n as int));
    }
    let mut groups: Vec<u32> = Vec::new();
    let mut k: usize = 0;
    while k < n_images
        invariant
            k <= n_images,
            groups@.len() == k,
            forall|j: int| 0 <= j < k ==> groups@[j] == 0u32,
        decreases n_images - k,
    {
        groups.push(0);
        k += 1;
    }
    proof {
        assert(groups@ =~= zero_masks(n_images as int));
    }
    let ghost maps_v = images_index_spec(imgs, n as int);
    let ghost omasks = oracle.masks@;
    if n == 0 {
        let sols: Vec<Vec<Pcr>> = Vec::new();
        proof {
            assert(engine_branches(maps_v, omasks, 0, zero_masks(n_images as int))
                == Result::<Seq<Seq<EventView>>, ErrorView>::Ok(Seq::empty()));
            let empty_sols = Seq::<Seq<EventView>>::empty().map_values(
                |b: Seq<EventView>| compiled_solution(b),
            );
            assert(empty_sols =~= Seq::<Seq<PcrView>>::empty());
            assert(combined_solutions(Seq::<Seq<EventView>>::empty()) == Seq::<
                Seq<PcrView>,
            >::empty());
            assert(sols.deep_view() =~= Seq::<Seq<PcrView>>::empty());
        }
        return Ok(sols);
    }
    let nodes = match event_subtree(oracle, 0, &event_maps, groups) {
        Err(e) => {
            return Err(e);
        },
        Ok(nodes) => nodes,
    };
    let ghost all_branches = branches_of_all(nodes@);
    let ghost sol_seq = all_branches.map_values(|b: Seq<EventView>| compiled_solution(b));
    let mut sols: Vec<Vec<Pcr>> = Vec::new();
    let ghost mut done: int = 0;
    let mut idx: usize = 0;
    proof {
        assert(sol_seq.skip(0) =~= sol_seq);
        assert(branches_of_all(nodes@.take(0)) =~= Seq::<Seq<EventView>>::empty());
        assert(sols.deep_view() =~= Seq::<Seq<PcrView>>::empty());
        assert(Seq::<Seq<PcrView>>::empty() + dedup_from(sol_seq, Seq::<Seq<PcrView>>::empty())
            =~= dedup_from(sol_seq, Seq::<Seq<PcrView>>::empty()));
    }
    while idx < nodes.len()
        invariant
            idx <= nodes@.len(),
            0 <= done <= all_branches.len(),
            done == branches_of_all(nodes@.take(idx as int)).len(),
            first_seen(sol_seq) == sols.deep_view() + dedup_from(
                sol_seq.skip(done),
                sols.deep_view(),
            ),
        decreases nodes@.len() - idx,
    {
        let bs = nodes[idx].branches();
        let ghost cb = branches_of(nodes@[idx as int]);
        proof {
            assert(nodes@.take(idx as int) + nodes@.skip(idx as int) =~= nodes@);
            lemma_branches_of_all_add(nodes@.take(idx as int), nodes@.skip(idx as int));
            assert(nodes@.skip(idx as int)[0] == nodes@[idx as int]);
            assert(nodes@.skip(idx as int).drop_first() =~= nodes@.skip(idx + 1));
            assert(branches_of_all(nodes@.skip(idx as int)) == cb + branches_of_all(
                nodes@.skip(idx + 1),
            ));
        }
        let mut k: usize = 0;
        while k < bs.len()
            invariant
                k <= bs@.len(),
                bs.deep_view() == cb,
                done == branches_of_all(nodes@.take(idx as int)).len() + k,
                0 <= done <= all_branches.len(),
                first_seen(sol_seq) == sols.deep_view() + dedup_from(
                    sol_seq.skip(done),
                    sols.deep_view(),
                ),
            decreases bs@.len() - k,
        {
            let branch = &bs[k];
            let sol = compile_pcrs(branch);
            proof {
                assert(branch.deep_view() == cb[k as int]);
                assert(all_branches == branches_of_all(nodes@.take(idx as int)) + (cb
                    + branches_of_all(nodes@.skip(idx + 1))));
                assert(all_branches[done] == cb[k as int]);
                assert(done < all_branches.len());
                assert(sol_seq[done] == compiled_solution(cb[k as int]));
                assert(sol.deep_view() == sol_seq[done]);
                assert(sol_seq.skip(done)[0] == sol_seq[done]);
                assert(sol_seq.skip(done).drop_first() =~= sol_seq.skip(done + 1));
            }
            if contains_solution(&sols, &sol) {
                proof {
                    assert(dedup_from(sol_seq.skip(done), sols.deep_view()) == dedup_from(
                        sol_seq.skip(done + 1),
                        sols.deep_view(),
                    ));
                    done = done + 1;
                }
            } else {
                let ghost spre = sols.deep_view();
                let ghost sdv = sol.deep_view();
                sols.push(sol);
                proof {
                    assert(sols.deep_view().len() == spre.len() + 1);
                    assert forall|j: int| 0 <= j < sols.deep_view().len() implies sols.deep_view()[j]
                        == spre.push(sdv)[j] by {
                        if j < spre.len() {
                            assert(sols.deep_view()[j] == spre[j]);
                        } else {
                            assert(sols.deep_view()[j] == sdv);
                        }
                    }
                    assert(sols.deep_view() =~= spre.push(sdv));
                    assert(dedup_from(sol_seq.skip(done), spre) == seq![sdv] + dedup_from(
                        sol_seq.skip(done + 1),
                        spre.push(sdv),
                    ));
                    assert(spre + (seq![sdv] + dedup_from(sol_seq.skip(done + 1), spre.push(sdv)))
                        =~= sols.deep_view() + dedup_from(sol_seq.skip(done + 1), sols.deep_view()));
                    done = done + 1;
                }
            }
            k += 1;
        }
        proof {
            assert(bs.deep_view().len() == bs@.len());
            assert(nodes@.take(idx + 1) =~= nodes@.take(idx as int).push(nodes@[idx as int]));
            lemma_branches_of_all_push(nodes@.take(idx as int), nodes@[idx as int]);
        }
        idx += 1;
    }
    proof {
        assert(nodes@.take(nodes@.len() as int) =~= nodes@);
        assert(done == all_branches.len());
        assert(sol_seq.skip(done) =~= Seq::<Seq<PcrView>>::empty());
        assert(dedup_from(Seq::<Seq<PcrView>>::empty(), sols.deep_view()) == Seq::<
            Seq<PcrView>,
        >::empty());
        assert(sols.deep_view() + Seq::<Seq<PcrView>>::empty() =~= sols.deep_view());
        assert(sols.deep_view() == combined_solutions(all_branches));
    }
    Ok(sols)
}

proof fn lemma_and_with_zero(x: u32)
    ensures
        x & 0 == 0,
{
    assert(x & 0 == 0) by (bit_vector);
}

proof fn lemma_zero_groups_own_nothing(owned: Seq<u32>, x: u32)
    requires
        forall|j: int| 0 <= j < owned.len() ==> #[trigger] owned[j] == 0u32,
    ensures
        forall|im: int| !spec_other_owns_partially(im, owned, x),
        forall|im: int| 0 <= im < owned.len() ==> spec_can_own(im, owned, x),
{
    assert forall|im: int| !spec_other_owns_partially(im, owned, x) by {
        assert forall|j: int| 0 <= j < owned.len() implies !spec_partially_owned(
            #[trigger] owned[j],
            x,
        ) by {
            lemma_and_with_zero(x);
        }
    }
    assert forall|im: int| 0 <= im < owned.len() implies spec_can_own(im, owned, x) by {
        let missing = !owned[im] & x;
        assert forall|j: int| 0 <= j < owned.len() implies !spec_partially_owned(
            #[trigger] owned[j],
            missing,
        ) by {
            lemma_and_with_zero(missing);
        }
    }
}

proof fn lemma_scan_identical_none(
    maps: Seq<Seq<Option<EventView>>>,
    id: int,
    mask: u32,
    upto: int,
)
    requires
        0 <= upto <= maps.len(),
        forall|i: int| 0 <= i < maps.len() ==> #[trigger] maps[i] == maps[0],
        maps[0][id] is None,
    ensures
        ({
            let st = scan_images(maps, id, zero_masks(maps.len() as int), mask, upto);
            st.divs == Seq::<DivView>::empty() && st.conflicts == Seq::<usize>::empty()
                && st.supplied == Seq::<EventView>::empty() && st.all_supplied == (upto == 0)
        }),
    decreases upto,
{
    if upto > 0 {
        lemma_scan_identical_none(maps, id, mask, upto - 1);
        assert(maps[upto - 1] == maps[0]);
    }
}

proof fn lemma_scan_identical_some(
    maps: Seq<Seq<Option<EventView>>>,
    id: int,
    mask: u32,
    upto: int,
    e: EventView,
)
    requires
        1 <= upto <= maps.len(),
        forall|i: int| 0 <= i < maps.len() ==> #[trigger] maps[i] == maps[0],
        maps[0][id] == Option::Some(e),
    ensures
        ({
            let st = scan_images(maps, id, zero_masks(maps.len() as int), mask, upto);
            st.divs.len() == 1 && st.divs[0].event == e && st.conflicts == Seq::<usize>::empty()
                && st.supplied == seq![e] && st.all_supplied
        }),
    decreases upto,
{
    let zeros = zero_masks(maps.len() as int);
    lemma_zero_groups_own_nothing(zeros, mask);
    assert(maps[upto - 1] == maps[0]);
    if upto == 1 {
        let st0 = scan_images(maps, id, zeros, mask, 0);
        let st1 = scan_step(st0, 0, maps[0][id], zeros, mask);
        assert(!st0.supplied.contains(e));
        assert(!divs_contain(st0.divs, e));
        assert(st1.divs == st0.divs.push(
            DivView { event: e, masks: zeros.update(0, zeros[0] | mask) },
        ));
        assert(st1.divs.len() == 1 && st1.divs[0].event == e);
        assert(st1.supplied =~= seq![e]);
    } else {
        lemma_scan_identical_some(maps, id, mask, upto - 1, e);
        let st = scan_images(maps, id, zeros, mask, upto - 1);
        let im = upto - 1;
        assert(st.supplied[0] == e);
        assert(st.supplied.contains(e));
        assert(st.divs[0].event == e);
        assert(divs_contain(st.divs, e));
        assert(first_div_with(st.divs, e) == 0);
        let st1 = scan_step(st, im, maps[im][id], zeros, mask);
        assert(st1.divs.len() == 1 && st1.divs[0].event == e);
    }
}

/// The event sequence one image contributes along the canonical
/// identifier order from `id` on.
pub open spec fn canonical_branch(row: Seq<Option<EventView>>, oracle: Seq<u32>, id: int) -> Seq<
    EventView,
>
    decreases oracle.len() - id,
{
    if id < 0 || id >= oracle.len() {
        Seq::empty()
    } else {
        let rest = canonical_branch(row, oracle, id + 1);
        match row[id] {
            Option::Some(e) => seq![e] + rest,
            Option::None => rest,
        }
    }
}

/// Identical candidate images never fork and never conflict: with every
/// image's event table the same, the engine yields exactly the one
/// branch holding that image's events in canonical identifier order
/// (and no branch at all when the table is empty). Through the
/// contracts of `combine`, copies of one log therefore yield exactly
/// one solution: that log's own register compilation.
pub proof fn lemma_identical_images_single_branch(
    maps: Seq<Seq<Option<EventView>>>,
    oracle: Seq<u32>,
    id: int,
)
    requires
        maps.len() >= 1,
        forall|i: int| 0 <= i < maps.len() ==> #[trigger] maps[i] == maps[0],
    ensures
        ({
            let cb = canonical_branch(maps[0], oracle, id);
            engine_branches(maps, oracle, id, zero_masks(maps.len() as int)) == if cb.len() == 0 {
                Result::<Seq<Seq<EventView>>, ErrorView>::Ok(Seq::empty())
            } else {
                Result::<Seq<Seq<EventView>>, ErrorView>::Ok(seq![cb])
            }
        }),
    decreases oracle.len() - id,
{
    let zeros = zero_masks(maps.len() as int);
    let n = maps.len() as int;
    if id < 0 || id >= oracle.len() {
    } else {
        lemma_identical_images_single_branch(maps, oracle, id + 1);
        let mask = oracle[id];
        let rest = canonical_branch(maps[0], oracle, id + 1);
        let cb = canonical_branch(maps[0], oracle, id);
        match maps[0][id] {
            Option::None => {
                lemma_scan_identical_none(maps, id, mask, n);
                assert(adopted_divs(scan_images(maps, id, zeros, mask, n), zeros).len() == 0);
            },
            Option::Some(e) => {
                lemma_scan_identical_some(maps, id, mask, n, e);
                let scan = scan_images(maps, id, zeros, mask, n);
                let divs = adopted_divs(scan, zeros);
                assert(divs == seq![DivView { event: e, masks: zeros }]);
                assert(divs[0].masks == zeros);
                assert(divs.drop_first() =~= Seq::<DivView>::empty());
                let sub_res = engine_branches(maps, oracle, id + 1, zeros);
                assert(expand_divs(maps, oracle, id, divs.drop_first())
                    == Result::<Seq<Seq<EventView>>, ErrorView>::Ok(Seq::empty()));
                if rest.len() == 0 {
                    assert(sub_res == Result::<Seq<Seq<EventView>>, ErrorView>::Ok(Seq::empty()));
                    let mine = seq![seq![e]];
                    assert(expand_divs(maps, oracle, id, divs)
                        == Result::<Seq<Seq<EventView>>, ErrorView>::Ok(
                        mine + Seq::<Seq<EventView>>::empty(),
                    ));
                    assert(cb =~= seq![e]);
                    assert(mine + Seq::<Seq<EventView>>::empty() =~= seq![cb]);
                } else {
                    assert(sub_res == Result::<Seq<Seq<EventView>>, ErrorView>::Ok(seq![rest]));
                    let mine = prefix_all(e, seq![rest]);
                    assert(seq![rest].len() != 0);
                    assert(expand_divs(maps, oracle, id, divs)
                        == Result::<Seq<Seq<EventView>>, ErrorView>::Ok(
                        mine + Seq::<Seq<EventView>>::empty(),
                    ));
                    assert(mine[0] == seq![e] + rest);
                    assert(cb == seq![e] + rest);
                    assert(mine + Seq::<Seq<EventView>>::empty() =~= seq![cb]);
                }
            },
        }
    }
}

/// A single branch gives a single solution: compiling it register by
/// register, with nothing to deduplicate. Together with the branch
/// lemma above, `combine` over identical images returns exactly one
/// solution — the shared log's own compilation.
pub proof fn lemma_single_branch_single_solution(cb: Seq<EventView>)
    ensures
        combined_solutions(seq![cb]) == seq![compiled_solution(cb)],
{
    let mapped = seq![cb].map_values(|b: Seq<EventView>| compiled_solution(b));
    assert(mapped =~= seq![compiled_solution(cb)]);
    assert(!Seq::<Seq<PcrView>>::empty().contains(mapped[0]));
    assert(mapped.drop_first() =~= Seq::<Seq<PcrView>>::empty());
    assert(dedup_from(mapped, Seq::<Seq<PcrView>>::empty()) == seq![mapped[0]] + dedup_from(
        Seq::<Seq<PcrView>>::empty(),
        Seq::<Seq<PcrView>>::empty().push(mapped[0]),
    ));
    assert(seq![mapped[0]] + Seq::<Seq<PcrView>>::empty() =~= seq![compiled_solution(cb)]);
}

proof fn lemma_bit_facts(x: u32)
    ensures
        x & 0 == 0,
        0 & x == 0,
        x | 0 == x,
        0 | x == x,
        !x & 0 == 0,
        !x & x == 0,
        !0u32 & x == x,
        x & x == x,
        x | x == x,
{
    assert(x & 0 == 0 && 0 & x == 0 && x | 0 == x && 0 | x == x && !x & 0 == 0 && !x & x == 0 && !0u32
        & x == x && x & x == x && x | x == x) by (bit_vector);
}

/// An identifier that no image supplies is skipped: the engine passes
/// to its successor with the ownership state unchanged.
proof fn lemma_skip_none_id(
    rows: Seq<Seq<Option<EventView>>>,
    oracle: Seq<u32>,
    id: int,
    g: Seq<u32>,
)
    requires
        rows.len() == 2,
        0 <= id < oracle.len(),
        rows[0][id] is None,
        rows[1][id] is None,
    ensures
        engine_branches(rows, oracle, id, g) == engine_branches(rows, oracle, id + 1, g),
{
    let mask = oracle[id];
    let s0 = scan_images(rows, id, g, mask, 0);
    let s1 = scan_step(s0, 0, rows[0][id], g, mask);
    let s2 = scan_step(s1, 1, rows[1][id], g, mask);
    assert(scan_images(rows, id, g, mask, 1) == s1);
    assert(scan_images(rows, id, g, mask, 2) == s2);
    assert(s2.divs == Seq::<DivView>::empty());
    assert(s2.conflicts == Seq::<usize>::empty());
    assert(s2.supplied == Seq::<EventView>::empty());
    assert(adopted_divs(s2, g).len() == 0);
}

/// A run of identifiers that no image supplies contributes no branch.
proof fn lemma_none_tail(rows: Seq<Seq<Option<EventView>>>, oracle: Seq<u32>, id: int, g: Seq<u32>)
    requires
        rows.len() == 2,
        forall|k: int|
            id <= k < oracle.len() ==> (#[trigger] rows[0][k]) is None && rows[1][k] is None,
    ensures
        engine_branches(rows, oracle, id, g) == Result::<Seq<Seq<EventView>>, ErrorView>::Ok(
            Seq::empty(),
        ),
    decreases oracle.len() - id,
{
    if id < 0 {
        lemma_none_tail(rows, oracle, 0, g);
        assert(engine_branches(rows, oracle, id, g) == Result::<
            Seq<Seq<EventView>>,
            ErrorView,
        >::Ok(Seq::empty()));
    } else if id >= oracle.len() {
    } else {
        lemma_skip_none_id(rows, oracle, id, g);
        lemma_none_tail(rows, oracle, id + 1, g);
    }
}

/// Once one image owns the group bits `m1`, a later identifier whose
/// mask lies inside `m1` can only take that image's value: the other
/// image is fully covered and quietly passed over, and the engine's one
/// branch from here on holds the owner's value alone.
proof fn lemma_after_fork(
    rows: Seq<Seq<Option<EventView>>>,
    oracle: Seq<u32>,
    id: int,
    owner: int,
    m1: u32,
    i2: int,
    own2: EventView,
    oth2: EventView,
)
    requires
        rows.len() == 2,
        owner == 0 || owner == 1,
        0 <= id <= i2 < oracle.len(),
        oracle[i2] != 0,
        spec_fully_owned(m1, oracle[i2]),
        rows[owner][i2] == Option::Some(own2),
        rows[1 - owner][i2] == Option::Some(oth2),
        own2 != oth2,
        forall|k: int|
            id <= k < oracle.len() && k != i2 ==> (#[trigger] rows[0][k]) is None
                && rows[1][k] is None,
    ensures
        engine_branches(rows, oracle, id, zero_masks(2).update(owner, m1)) == Result::<
            Seq<Seq<EventView>>,
            ErrorView,
        >::Ok(seq![seq![own2]]),
    decreases i2 - id,
{
    let g = zero_masks(2).update(owner, m1);
    if id < i2 {
        lemma_skip_none_id(rows, oracle, id, g);
        lemma_after_fork(rows, oracle, id + 1, owner, m1, i2, own2, oth2);
    } else {
        let m2 = oracle[i2];
        assert(g[owner] == m1 && g[1 - owner] == 0);
        let s0 = scan_images(rows, i2, g, m2, 0);
        let s1 = scan_step(s0, 0, rows[0][i2], g, m2);
        let s2 = scan_step(s1, 1, rows[1][i2], g, m2);
        assert(scan_images(rows, i2, g, m2, 1) == s1);
        assert(scan_images(rows, i2, g, m2, 2) == s2);
        // the owner misses no bit of the identifier's mask
        assert((m1 & m2) == m2 && m2 != 0 ==> (!m1 & m2 == 0 && m2 & m1 != 0)) by (bit_vector);
        assert(!g[owner] & m2 == 0);
        assert forall|j: int| 0 <= j < 2 implies !spec_partially_owned(
            #[trigger] g[j],
            !g[owner] & m2,
        ) by {
            lemma_bit_facts(g[j]);
        }
        assert(spec_can_own(owner, g, m2));
        // the other image misses every bit, and the owner holds them all
        lemma_bit_facts(m2);
        assert(!g[1 - owner] & m2 == m2);
        assert(spec_partially_owned(g[owner], m2));
        assert(spec_other_owns_partially(1 - owner, g, m2));
        assert(!spec_can_own(1 - owner, g, m2));
        assert(spec_fully_owned(g[owner], m2));
        assert(spec_other_owns_fully(1 - owner, g, m2));
        if owner == 0 {
            assert(!s0.supplied.contains(own2));
            assert(!divs_contain(s0.divs, own2));
            assert(s1.divs.len() == 1 && s1.divs[0].event == own2);
            assert(!s1.supplied.contains(oth2));
            assert(s2.divs == s1.divs && s2.conflicts == Seq::<usize>::empty());
            assert(s2.supplied.len() == 2);
        } else {
            assert(!s0.supplied.contains(oth2));
            assert(s1.divs == Seq::<DivView>::empty() && s1.conflicts == Seq::<usize>::empty());
            assert(s1.supplied =~= seq![oth2]);
            assert(!s1.supplied.contains(own2));
            assert(!divs_contain(s1.divs, own2));
            assert(s2.divs.len() == 1 && s2.divs[0].event == own2);
            assert(s2.conflicts == Seq::<usize>::empty());
            assert(s2.supplied.len() == 2);
        }
        let divs = adopted_divs(s2, g);
        assert(divs == s2.divs);
        lemma_none_tail(rows, oracle, i2 + 1, divs[0].masks);
        assert(divs.drop_first() =~= Seq::<DivView>::empty());
        assert(expand_divs(rows, oracle, i2, divs.drop_first())
            == Result::<Seq<Seq<EventView>>, ErrorView>::Ok(Seq::empty()));
        assert(expand_divs(rows, oracle, i2, divs) == Result::<
            Seq<Seq<EventView>>,
            ErrorView,
        >::Ok(seq![seq![own2]] + Seq::<Seq<EventView>>::empty()));
        assert(seq![seq![own2]] + Seq::<Seq<EventView>>::empty() =~= seq![seq![own2]]);
    }
}

/// Two images that differ on two identifiers linked by measurement
/// groups — the second identifier's non-empty mask lies inside the
/// first's — yield exactly the two unmixed solutions: both values from
/// the first image, or both from the second, never a mixture, with the
/// first image's branch first. Stated for images that supply exactly
/// those two identifiers, anywhere in the canonical order.
pub proof fn lemma_grouped_images_never_mix(
    rows: Seq<Seq<Option<EventView>>>,
    oracle: Seq<u32>,
    id: int,
    i1: int,
    i2: int,
    a1: EventView,
    a2: EventView,
    b1: EventView,
    b2: EventView,
)
    requires
        rows.len() == 2,
        0 <= id <= i1 < i2 < oracle.len(),
        oracle[i2] != 0,
        spec_fully_owned(oracle[i1], oracle[i2]),
        rows[0][i1] == Option::Some(a1),
        rows[1][i1] == Option::Some(b1),
        a1 != b1,
        rows[0][i2] == Option::Some(a2),
        rows[1][i2] == Option::Some(b2),
        a2 != b2,
        forall|k: int|
            id <= k < oracle.len() && k != i1 && k != i2 ==> (#[trigger] rows[0][k]) is None
                && rows[1][k] is None,
    ensures
        engine_branches(rows, oracle, id, zero_masks(2)) == Result::<
            Seq<Seq<EventView>>,
            ErrorView,
        >::Ok(seq![seq![a1, a2], seq![b1, b2]]),
    decreases i1 - id,
{
    let zeros = zero_masks(2);
    if id < i1 {
        lemma_skip_none_id(rows, oracle, id, zeros);
        lemma_grouped_images_never_mix(rows, oracle, id + 1, i1, i2, a1, a2, b1, b2);
    } else {
        let m1 = oracle[i1];
        lemma_bit_facts(m1);
        lemma_zero_groups_own_nothing(zeros, m1);
        let s0 = scan_images(rows, i1, zeros, m1, 0);
        let s1 = scan_step(s0, 0, rows[0][i1], zeros, m1);
        let s2 = scan_step(s1, 1, rows[1][i1], zeros, m1);
        assert(scan_images(rows, i1, zeros, m1, 1) == s1);
        assert(scan_images(rows, i1, zeros, m1, 2) == s2);
        assert(!s0.supplied.contains(a1));
        assert(!divs_contain(s0.divs, a1));
        assert(s1.divs == s0.divs.push(
            DivView { event: a1, masks: zeros.update(0, zeros[0] | m1) },
        ));
        assert(!s1.supplied.contains(b1));
        assert(!divs_contain(s1.divs, b1));
        assert(s2.divs.len() == 2);
        assert(s2.divs[0].event == a1 && s2.divs[1].event == b1);
        assert(s2.divs[0].masks =~= zeros.update(0, m1));
        assert(s2.divs[1].masks =~= zeros.update(1, m1));
        assert(s2.conflicts == Seq::<usize>::empty());
        assert(s2.supplied.len() == 2);
        let divs = adopted_divs(s2, zeros);
        assert(divs == s2.divs);
        lemma_after_fork(rows, oracle, i1 + 1, 0, m1, i2, a2, b2);
        lemma_after_fork(rows, oracle, i1 + 1, 1, m1, i2, b2, a2);
        assert(engine_branches(rows, oracle, i1 + 1, divs[0].masks)
            == Result::<Seq<Seq<EventView>>, ErrorView>::Ok(seq![seq![a2]]));
        assert(engine_branches(rows, oracle, i1 + 1, divs[1].masks)
            == Result::<Seq<Seq<EventView>>, ErrorView>::Ok(seq![seq![b2]]));
        assert(divs.drop_first()[0] == divs[1]);
        assert(divs.drop_first().drop_first() =~= Seq::<DivView>::empty());
        assert(expand_divs(rows, oracle, i1, divs.drop_first().drop_first())
            == Result::<Seq<Seq<EventView>>, ErrorView>::Ok(Seq::empty()));
        let mine_b = prefix_all(b1, seq![seq![b2]]);
        assert(mine_b =~= seq![seq![b1] + seq![b2]]);
        assert(seq![b1] + seq![b2] =~= seq![b1, b2]);
        assert(expand_divs(rows, oracle, i1, divs.drop_first())
            == Result::<Seq<Seq<EventView>>, ErrorView>::Ok(
            mine_b + Seq::<Seq<EventView>>::empty(),
        ));
        let mine_a = prefix_all(a1, seq![seq![a2]]);
        assert(mine_a =~= seq![seq![a1] + seq![a2]]);
        assert(seq![a1] + seq![a2] =~= seq![a1, a2]);
        assert(expand_divs(rows, oracle, i1, divs) == Result::<
            Seq<Seq<EventView>>,
            ErrorView,
        >::Ok(mine_a + (mine_b + Seq::<Seq<EventView>>::empty())));
        assert(mine_a + (mine_b + Seq::<Seq<EventView>>::empty()) =~= seq![
            seq![a1, a2],
            seq![b1, b2],
        ]);
    }
}


/// With no group mask on an identifier, any image may adopt its value
/// whatever has been committed: the identifier forks on both images'
/// differing values, the first image's first.
proof fn lemma_ungrouped_fork_tail(
    rows: Seq<Seq<Option<EventView>>>,
    oracle: Seq<u32>,
    id: int,
    i2: int,
    g: Seq<u32>,
    a2: EventView,
    b2: EventView,
)
    requires
        rows.len() == 2,
        g.len() == 2,
        0 <= id <= i2 < oracle.len(),
        oracle[i2] == 0,
        rows[0][i2] == Option::Some(a2),
        rows[1][i2] == Option::Some(b2),
        a2 != b2,
        forall|k: int|
            id <= k < oracle.len() && k != i2 ==> (#[trigger] rows[0][k]) is None
                && rows[1][k] is None,
    ensures
        engine_branches(rows, oracle, id, g) == Result::<Seq<Seq<EventView>>, ErrorView>::Ok(
            seq![seq![a2], seq![b2]],
        ),
    decreases i2 - id,
{
    if id < i2 {
        lemma_skip_none_id(rows, oracle, id, g);
        lemma_ungrouped_fork_tail(rows, oracle, id + 1, i2, g, a2, b2);
    } else {
        let s0 = scan_images(rows, i2, g, 0u32, 0);
        let s1 = scan_step(s0, 0, rows[0][i2], g, 0u32);
        let s2 = scan_step(s1, 1, rows[1][i2], g, 0u32);
        assert(scan_images(rows, i2, g, 0u32, 1) == s1);
        assert(scan_images(rows, i2, g, 0u32, 2) == s2);
        assert forall|im: int| 0 <= im < 2 implies spec_can_own(im, g, 0u32) by {
            lemma_bit_facts(g[im]);
            let missing = !g[im] & 0u32;
            assert(missing == 0);
            assert forall|j: int| 0 <= j < 2 implies !spec_partially_owned(
                #[trigger] g[j],
                missing,
            ) by {
                lemma_bit_facts(g[j]);
            }
        }
        assert(!s0.supplied.contains(a2));
        assert(!divs_contain(s0.divs, a2));
        assert(s1.divs.len() == 1 && s1.divs[0].event == a2);
        assert(!s1.supplied.contains(b2));
        assert(!divs_contain(s1.divs, b2));
        assert(s2.divs.len() == 2 && s2.divs[0].event == a2 && s2.divs[1].event == b2);
        assert(s2.conflicts == Seq::<usize>::empty());
        assert(s2.supplied.len() == 2);
        let divs = adopted_divs(s2, g);
        assert(divs == s2.divs);
        lemma_none_tail(rows, oracle, i2 + 1, divs[0].masks);
        lemma_none_tail(rows, oracle, i2 + 1, divs[1].masks);
        assert(divs.drop_first()[0] == divs[1]);
        assert(divs.drop_first().drop_first() =~= Seq::<DivView>::empty());
        assert(expand_divs(rows, oracle, i2, divs.drop_first().drop_first())
            == Result::<Seq<Seq<EventView>>, ErrorView>::Ok(Seq::empty()));
        assert(expand_divs(rows, oracle, i2, divs.drop_first())
            == Result::<Seq<Seq<EventView>>, ErrorView>::Ok(
            seq![seq![b2]] + Seq::<Seq<EventView>>::empty(),
        ));
        assert(expand_divs(rows, oracle, i2, divs) == Result::<
            Seq<Seq<EventView>>,
            ErrorView,
        >::Ok(seq![seq![a2]] + (seq![seq![b2]] + Seq::<Seq<EventView>>::empty())));
        assert(seq![seq![a2]] + (seq![seq![b2]] + Seq::<Seq<EventView>>::empty()) =~= seq![
            seq![a2],
            seq![b2],
        ]);
    }
}

/// Two images that differ on two identifiers carrying no group mask
/// are combined independently: the engine yields the full cross-product
/// of the choices, in image order at each identifier, and no conflict
/// arises — whatever ownership state it starts from. Stated for images
/// that supply exactly those two identifiers, anywhere in the
/// canonical order.
pub proof fn lemma_ungrouped_images_cross_product(
    rows: Seq<Seq<Option<EventView>>>,
    oracle: Seq<u32>,
    id: int,
    i1: int,
    i2: int,
    g: Seq<u32>,
    a1: EventView,
    a2: EventView,
    b1: EventView,
    b2: EventView,
)
    requires
        rows.len() == 2,
        g.len() == 2,
        0 <= id <= i1 < i2 < oracle.len(),
        oracle[i1] == 0,
        oracle[i2] == 0,
        rows[0][i1] == Option::Some(a1),
        rows[1][i1] == Option::Some(b1),
        a1 != b1,
        rows[0][i2] == Option::Some(a2),
        rows[1][i2] == Option::Some(b2),
        a2 != b2,
        forall|k: int|
            id <= k < oracle.len() && k != i1 && k != i2 ==> (#[trigger] rows[0][k]) is None
                && rows[1][k] is None,
    ensures
        engine_branches(rows, oracle, id, g) == Result::<Seq<Seq<EventView>>, ErrorView>::Ok(
            seq![seq![a1, a2], seq![a1, b2], seq![b1, a2], seq![b1, b2]],
        ),
    decreases i1 - id,
{
    if id < i1 {
        lemma_skip_none_id(rows, oracle, id, g);
        lemma_ungrouped_images_cross_product(rows, oracle, id + 1, i1, i2, g, a1, a2, b1, b2);
    } else {
        let s0 = scan_images(rows, i1, g, 0u32, 0);
        let s1 = scan_step(s0, 0, rows[0][i1], g, 0u32);
        let s2 = scan_step(s1, 1, rows[1][i1], g, 0u32);
        assert(scan_images(rows, i1, g, 0u32, 1) == s1);
        assert(scan_images(rows, i1, g, 0u32, 2) == s2);
        assert forall|im: int| 0 <= im < 2 implies spec_can_own(im, g, 0u32) by {
            lemma_bit_facts(g[im]);
            let missing = !g[im] & 0u32;
            assert(missing == 0);
            assert forall|j: int| 0 <= j < 2 implies !spec_partially_owned(
                #[trigger] g[j],
                missing,
            ) by {
                lemma_bit_facts(g[j]);
            }
        }
        assert(!s0.supplied.contains(a1));
        assert(!divs_contain(s0.divs, a1));
        assert(s1.divs.len() == 1 && s1.divs[0].event == a1);
        assert(!s1.supplied.contains(b1));
        assert(!divs_contain(s1.divs, b1));
        assert(s2.divs.len() == 2 && s2.divs[0].event == a1 && s2.divs[1].event == b1);
        assert(s2.conflicts == Seq::<usize>::empty());
        assert(s2.supplied.len() == 2);
        let divs = adopted_divs(s2, g);
        assert(divs == s2.divs);
        // a mask of zero commits nothing: each divergence carries the
        // incoming ownership state
        lemma_bit_facts(g[0]);
        lemma_bit_facts(g[1]);
        assert(divs[0].masks =~= g);
        assert(divs[1].masks =~= g);
        lemma_ungrouped_fork_tail(rows, oracle, i1 + 1, i2, g, a2, b2);
        let tail = seq![seq![a2], seq![b2]];
        assert(engine_branches(rows, oracle, i1 + 1, divs[0].masks)
            == Result::<Seq<Seq<EventView>>, ErrorView>::Ok(tail));
        assert(engine_branches(rows, oracle, i1 + 1, divs[1].masks)
            == Result::<Seq<Seq<EventView>>, ErrorView>::Ok(tail));
        assert(divs.drop_first()[0] == divs[1]);
        assert(divs.drop_first().drop_first() =~= Seq::<DivView>::empty());
        assert(expand_divs(rows, oracle, i1, divs.drop_first().drop_first())
            == Result::<Seq<Seq<EventView>>, ErrorView>::Ok(Seq::empty()));
        let mine_b = prefix_all(b1, tail);
        assert(mine_b =~= seq![seq![b1] + seq![a2], seq![b1] + seq![b2]]);
        assert(seq![b1] + seq![a2] =~= seq![b1, a2]);
        assert(seq![b1] + seq![b2] =~= seq![b1, b2]);
        assert(expand_divs(rows, oracle, i1, divs.drop_first())
            == Result::<Seq<Seq<EventView>>, ErrorView>::Ok(
            mine_b + Seq::<Seq<EventView>>::empty(),
        ));
        let mine_a = prefix_all(a1, tail);
        assert(mine_a =~= seq![seq![a1] + seq![a2], seq![a1] + seq![b2]]);
        assert(seq![a1] + seq![a2] =~= seq![a1, a2]);
        assert(seq![a1] + seq![b2] =~= seq![a1, b2]);
        assert(expand_divs(rows, oracle, i1, divs) == Result::<
            Seq<Seq<EventView>>,
            ErrorView,
        >::Ok(mine_a + (mine_b + Seq::<Seq<EventView>>::empty())));
        assert(mine_a + (mine_b + Seq::<Seq<EventView>>::empty()) =~= seq![
            seq![a1, a2],
            seq![a1, b2],
            seq![b1, a2],
            seq![b1, b2],
        ]);
    }
}


} // verus!
