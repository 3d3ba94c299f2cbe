use vstd::prelude::*;
use crate::errors::{CombineError, ErrorView};
use crate::events::{clone_bytes, EventView, TPMEvent};
use sha2::{Digest, Sha256};

verus! {

broadcast use vstd::seq_lib::group_seq_lib_default;

/// The SHA-256 digest of a byte sequence. The digest depends on the
/// input bytes alone; its definition is left to the hash implementation.
pub uninterp spec fn sha256_of(input: Seq<u8>) -> Seq<u8>;

/// Relies on sha2::Sha256: feeding `prefix` then `suffix` digests their
/// concatenation, the result depends on those bytes alone, and a SHA-256
/// digest is 32 bytes long.
#[verifier::external_body]
fn sha256_concat(prefix: &Vec<u8>, suffix: &Vec<u8>) -> (r: Vec<u8>)
    ensures
        r@ == sha256_of(prefix@ + suffix@),
        r@.len() == 32,
{
    let mut hasher = Sha256::new();
    hasher.update(prefix);
    hasher.update(suffix);
    hasher.finalize().to_vec()
}

/// The all-zero initial register value, one zero byte per digest byte.
pub open spec fn pcr_init_value() -> Seq<u8> {
    Seq::new(32, |i: int| 0u8)
}

/// Register value after extending `acc` with each digest of `hashes` in
/// order, by the extension rule: new = SHA-256(old || digest).
pub open spec fn chain_from(acc: Seq<u8>, hashes: Seq<Seq<u8>>) -> Seq<u8>
    decreases hashes.len(),
{
    if hashes.len() == 0 {
        acc
    } else {
        chain_from(sha256_of(acc + hashes[0]), hashes.drop_first())
    }
}

/// Extending the chain by one more digest hashes it onto the end.
pub proof fn lemma_chain_from_push(acc: Seq<u8>, hs: Seq<Seq<u8>>, h: Seq<u8>)
    ensures
        chain_from(acc, hs.push(h)) == sha256_of(chain_from(acc, hs) + h),
    decreases hs.len(),
{
    if hs.len() == 0 {
        assert(hs.push(h)[0] == h);
        assert(hs.push(h).drop_first() =~= Seq::<Seq<u8>>::empty());
        assert(chain_from(acc, hs.push(h)) == chain_from(
            sha256_of(acc + h),
            Seq::<Seq<u8>>::empty(),
        ));
        assert(chain_from(sha256_of(acc + h), Seq::<Seq<u8>>::empty()) == sha256_of(acc + h));
        assert(chain_from(acc, hs) == acc);
    } else {
        assert(hs.push(h)[0] == hs[0]);
        assert(hs.push(h).drop_first() =~= hs.drop_first().push(h));
        assert(chain_from(acc, hs.push(h)) == chain_from(
            sha256_of(acc + hs[0]),
            hs.drop_first().push(h),
        ));
        lemma_chain_from_push(sha256_of(acc + hs[0]), hs.drop_first(), h);
        assert(chain_from(acc, hs) == chain_from(sha256_of(acc + hs[0]), hs.drop_first()));
    }
}

/// The digests of an event sequence, in order.
pub open spec fn hashes_of(evs: Seq<EventView>) -> Seq<Seq<u8>> {
    evs.map_values(|e: EventView| e.hash)
}

/// All events of the sequence belong to the first event's register.
pub open spec fn same_register(evs: Seq<EventView>) -> bool {
    forall|i: int| 0 <= i < evs.len() ==> (#[trigger] evs[i]).pcr == evs[0].pcr
}

/// Index of the first event whose register is not `r0`.
pub open spec fn first_mismatch_from(evs: Seq<EventView>, r0: u8) -> int
    decreases evs.len(),
{
    if evs.len() == 0 {
        0
    } else if evs[0].pcr != r0 {
        0
    } else {
        1 + first_mismatch_from(evs.drop_first(), r0)
    }
}

/// Index of the first event whose register differs from the first
/// event's register.
pub open spec fn first_mismatch(evs: Seq<EventView>) -> int {
    first_mismatch_from(evs, evs[0].pcr)
}

proof fn lemma_first_mismatch_from(evs: Seq<EventView>, r0: u8, i: int)
    requires
        0 <= i < evs.len(),
        forall|j: int| 0 <= j < i ==> evs[j].pcr == r0,
        evs[i].pcr != r0,
    ensures
        first_mismatch_from(evs, r0) == i,
    decreases i,
{
    if i == 0 {
    } else {
        assert(evs[0].pcr == r0);
        assert forall|j: int| 0 <= j < i - 1 implies evs.drop_first()[j].pcr == r0 by {
            assert(evs.drop_first()[j] == evs[j + 1]);
        }
        assert(evs.drop_first()[i - 1] == evs[i]);
        lemma_first_mismatch_from(evs.drop_first(), r0, i - 1);
    }
}

/// Mathematical view of one (name, digest) part record.
#[verifier::ext_equal]
pub struct PartView {
    pub name: Seq<char>,
    pub hash: Seq<u8>,
}

/// One (name, digest) record contributing to a compiled register, in
/// extension order.
#[derive(Clone, PartialEq, Eq, Debug)]
pub struct Part {
    pub name: String,
    pub hash: Vec<u8>,
}

impl View for Part {
    type V = PartView;

    open spec fn view(&self) -> PartView {
        PartView { name: self.name@, hash: self.hash@ }
    }
}

impl DeepView for Part {
    type V = PartView;

    open spec fn deep_view(&self) -> PartView {
        self.view()
    }
}

/// The part record projected from one measurement event.
pub open spec fn event_part(e: EventView) -> PartView {
    PartView { name: e.name, hash: e.hash }
}

impl Part {
    /// The (name, digest) projection of one measurement event.
    pub fn from_event(event: &TPMEvent) -> (p: Part)
        ensures
            p@ == event_part(event@),
    {
        let p = Part { name: event.name.clone(), hash: clone_bytes(&event.hash) };
        proof {
            assert(p@ =~= event_part(event@));
        }
        p
    }
}

/// Mathematical view of one compiled register.
#[verifier::ext_equal]
pub struct PcrView {
    pub id: u64,
    pub value: Seq<u8>,
    pub parts: Seq<PartView>,
}

/// One compiled measurement register: register number, final digest
/// after replaying the events, and the ordered contributing parts.
#[derive(Clone, PartialEq, Eq, Debug)]
pub struct Pcr {
    pub id: u64,
    pub value: Vec<u8>,
    pub parts: Vec<Part>,
}

impl View for Pcr {
    type V = PcrView;

    open spec fn view(&self) -> PcrView {
        PcrView { id: self.id, value: self.value@, parts: self.parts.deep_view() }
    }
}

impl DeepView for Pcr {
    type V = PcrView;

    open spec fn deep_view(&self) -> PcrView {
        self.view()
    }
}

/// Exact description of the register compiled from the ordered events
/// `evs`, all of one register: the identifier is the common register
/// number, the value is the extension chain over the all-zero initial
/// value, and the parts are the per-event (name, digest) projections.
pub open spec fn compiled_pcr(evs: Seq<EventView>) -> PcrView {
    PcrView {
        id: evs[0].pcr as u64,
        value: chain_from(pcr_init_value(), hashes_of(evs)),
        parts: evs.map_values(|e: EventView| event_part(e)),
    }
}

/// A compiled register is a function of the ordered event sequence
/// alone: two compilations of the same sequence agree exactly, in
/// digest, register identifier and parts.
pub proof fn lemma_compile_register_deterministic(a: PcrView, b: PcrView, evs: Seq<EventView>)
    requires
        a == compiled_pcr(evs),
        b == compiled_pcr(evs),
    ensures
        a == b,
{
}

fn pcr_init_vec() -> (r: Vec<u8>)
    ensures
        r@ == pcr_init_value(),
{
    let mut v: Vec<u8> = Vec::new();
    let mut i: usize = 0;
    while i < 32
        invariant
            i <= 32,
            v@.len() == i,
            forall|j: int| 0 <= j < i ==> v@[j] == 0u8,
        decreases 32 - i,
    {
        v.push(0u8);
        i += 1;
    }
    proof {
        assert(v@ =~= pcr_init_value());
    }
    v
}

impl Pcr {
    /// Compile one register from its ordered events, replaying the
    /// extension rule from the all-zero initial value. All events must
    /// belong to one register; events of another register are reported
    /// as `MismatchedRegister`, naming the expected register and the
    /// first other register met.
    pub fn compile_from(events: &Vec<TPMEvent>) -> (r: Result<Pcr, CombineError>)
        requires
            events@.len() > 0,
        ensures
            same_register(events.deep_view()) <==> r is Ok,
            r matches Ok(p) ==> p@ == compiled_pcr(events.deep_view()),
            r matches Err(e) ==> e@ == (ErrorView::MismatchedRegister {
                expected: events.deep_view()[0].pcr,
                found: events.deep_view()[first_mismatch(events.deep_view())].pcr,
            }),
    {
        let ghost evs = events.deep_view();
        let compiled_pcr_num: u8 = events[0].pcr;
        let mut value = pcr_init_vec();
        let mut idx: usize = 0;
        proof {
            assert(evs.take(0) =~= Seq::<EventView>::empty());
        }
        while idx < events.len()
            invariant
                idx <= evs.len(),
                evs.len() > 0,
                evs == events.deep_view(),
                compiled_pcr_num == evs[0].pcr,
                forall|j: int| 0 <= j < idx ==> evs[j].pcr == compiled_pcr_num,
                value@ == chain_from(pcr_init_value(), hashes_of(evs.take(idx as int))),
            decreases evs.len() - idx,
        {
            let event = &events[idx];
            if event.pcr != compiled_pcr_num {
                proof {
                    lemma_first_mismatch_from(evs, compiled_pcr_num, idx as int);
                    assert(!same_register(evs));
                }
                return Err(
                    CombineError::MismatchedRegister {
                        expected: compiled_pcr_num,
                        found: event.pcr,
                    },
                );
            }
            value = sha256_concat(&value, &event.hash);
            proof {
                let pre = hashes_of(evs.take(idx as int));
                lemma_chain_from_push(pcr_init_value(), pre, evs[idx as int].hash);
                assert(evs.take(idx + 1) =~= evs.take(idx as int).push(evs[idx as int]));
                assert(hashes_of(evs.take(idx + 1)) =~= pre.push(evs[idx as int].hash));
            }
            idx += 1;
        }
        let mut parts: Vec<Part> = Vec::new();
        let mut t: usize = 0;
        while t < events.len()
            invariant
                t <= evs.len(),
                evs == events.deep_view(),
                parts.deep_view().len() == t,
                forall|j: int| 0 <= j < t ==> parts.deep_view()[j] == event_part(evs[j]),
            decreases evs.len() - t,
        {
            let ghost parts_pre = parts.deep_view();
            parts.push(Part::from_event(&events[t]));
            proof {
                assert forall|j: int| 0 <= j < t implies parts.deep_view()[j] == event_part(
                    evs[j],
                ) by {
                    assert(parts.deep_view()[j] == parts_pre[j]);
                }
            }
            t += 1;
        }
        let result = Pcr { id: compiled_pcr_num as u64, value, parts };
        proof {
            assert(evs.take(evs.len() as int) =~= evs);
            assert(result@.parts =~= evs.map_values(|e: EventView| event_part(e)));
            assert(result@ =~= compiled_pcr(evs));
        }
        Ok(result)
    }
}

/// First-occurrence deduplication of `s`, skipping anything in `seen`.
pub open spec fn dedup_from<A>(s: Seq<A>, seen: Seq<A>) -> Seq<A>
    decreases s.len(),
{
    if s.len() == 0 {
        Seq::empty()
    } else if seen.contains(s[0]) {
        dedup_from(s.drop_first(), seen)
    } else {
        seq![s[0]] + dedup_from(s.drop_first(), seen.push(s[0]))
    }
}

/// The distinct values of `s`, each at its first occurrence, in order.
pub open spec fn first_seen<A>(s: Seq<A>) -> Seq<A> {
    dedup_from(s, Seq::empty())
}

/// Everything that first-occurrence deduplication keeps came from `s`.
pub proof fn lemma_dedup_from_subset<A>(s: Seq<A>, seen: Seq<A>)
    ensures
        forall|k: int| 0 <= k < dedup_from(s, seen).len() ==> s.contains(
            #[trigger] dedup_from(s, seen)[k],
        ),
    decreases s.len(),
{
    if s.len() == 0 {
    } else {
        lemma_dedup_from_subset(s.drop_first(), seen);
        lemma_dedup_from_subset(s.drop_first(), seen.push(s[0]));
        assert forall|k: int| 0 <= k < dedup_from(s, seen).len() implies s.contains(
            #[trigger] dedup_from(s, seen)[k],
        ) by {
            let d = dedup_from(s, seen);
            if seen.contains(s[0]) {
                assert(d[k] == dedup_from(s.drop_first(), seen)[k]);
                let w = choose|w: int| 0 <= w < s.drop_first().len() && s.drop_first()[w] == d[k];
                assert(s[w + 1] == d[k]);
            } else if k == 0 {
                assert(d[0] == s[0]);
                assert(s.contains(s[0]));
            } else {
                assert(d[k] == dedup_from(s.drop_first(), seen.push(s[0]))[k - 1]);
                let w = choose|w: int|
                    0 <= w < s.drop_first().len() && s.drop_first()[w] == d[k];
                assert(s[w + 1] == d[k]);
            }
        }
    }
}

/// The register number of each event, in order.
pub open spec fn registers_of(evs: Seq<EventView>) -> Seq<u8> {
    evs.map_values(|e: EventView| e.pcr)
}

/// The events of register `reg`, in their original order.
pub open spec fn register_events(evs: Seq<EventView>, reg: u8) -> Seq<EventView> {
    evs.filter(|e: EventView| e.pcr == reg)
}

/// Exact description of compiling a mixed-register event sequence: one
/// compiled register per distinct register number, in first-seen order,
/// each compiled from that register's own event subsequence.
pub open spec fn compiled_solution(evs: Seq<EventView>) -> Seq<PcrView> {
    Seq::new(
        first_seen(registers_of(evs)).len(),
        |k: int| compiled_pcr(register_events(evs, first_seen(registers_of(evs))[k])),
    )
}

/// Splitting a mixed-register sequence manually and compiling one
/// register's own events agrees with the grouped compilation: its `k`-th
/// output is exactly the compilation of the `k`-th first-seen register's
/// subsequence.
pub proof fn lemma_compile_pcrs_matches_manual_split(evs: Seq<EventView>, k: int)
    requires
        0 <= k < first_seen(registers_of(evs)).len(),
    ensures
        compiled_solution(evs)[k] == compiled_pcr(
            register_events(evs, first_seen(registers_of(evs))[k]),
        ),
{
}

fn vec_contains_u8(v: &Vec<u8>, x: u8) -> (r: bool)
    ensures
        r == v@.contains(x),
{
    let mut i: usize = 0;
    while i < v.len()
        invariant
            i <= v@.len(),
            forall|j: int| 0 <= j < i ==> v@[j] != x,
        decreases v@.len() - i,
    {
        if v[i] == x {
            return true;
        }
        i += 1;
    }
    proof {
        assert(!v@.contains(x));
    }
    false
}

fn unique_registers(events: &Vec<TPMEvent>) -> (r: Vec<u8>)
    ensures
        r@ == first_seen(registers_of(events.deep_view())),
{
    let ghost regs = registers_of(events.deep_view());
    let mut r: Vec<u8> = Vec::new();
    let mut i: usize = 0;
    proof {
        assert(regs.skip(0) =~= regs);
    }
    while i < events.len()
        invariant
            i <= regs.len(),
            regs == registers_of(events.deep_view()),
            regs.len() == events.deep_view().len(),
            first_seen(regs) == r@ + dedup_from(regs.skip(i as int), r@),
        decreases regs.len() - i,
    {
        let x = events[i].pcr;
        proof {
            assert(regs.skip(i as int)[0] == regs[i as int]);
            assert(regs[i as int] == x);
            assert(regs.skip(i as int).drop_first() =~= regs.skip(i + 1));
        }
        if !vec_contains_u8(&r, x) {
            let ghost r_pre = r@;
            r.push(x);
            proof {
                assert(dedup_from(regs.skip(i as int), r_pre) == seq![x] + dedup_from(
                    regs.skip(i + 1),
                    r_pre.push(x),
                ));
                assert(r_pre + (seq![x] + dedup_from(regs.skip(i + 1), r_pre.push(x))) =~= r@
                    + dedup_from(regs.skip(i + 1), r@));
            }
        }
        i += 1;
    }
    proof {
        assert(regs.skip(regs.len() as int) =~= Seq::<u8>::empty());
        assert(first_seen(regs) =~= r@);
    }
    r
}

fn events_for_register(events: &Vec<TPMEvent>, reg: u8) -> (r: Vec<TPMEvent>)
    ensures
        r.deep_view() == register_events(events.deep_view(), reg),
{
    let ghost evs = events.deep_view();
    let ghost pred = |e: EventView| e.pcr == reg;
    let mut r: Vec<TPMEvent> = Vec::new();
    let mut i: usize = 0;
    proof {
        assert(evs.take(0) =~= Seq::<EventView>::empty());
        reveal(Seq::filter);
    }
    while i < events.len()
        invariant
            i <= evs.len(),
            evs == events.deep_view(),
            pred == (|e: EventView| e.pcr == reg),
            r.deep_view() == evs.take(i as int).filter(pred),
        decreases evs.len() - i,
    {
        let ghost r_pre = r.deep_view();
        let keep = events[i].pcr == reg;
        if keep {
            r.push(events[i].duplicate());
        }
        proof {
            reveal(Seq::filter);
            assert(evs.take(i + 1).len() == i + 1);
            assert(evs.take(i + 1).drop_last() =~= evs.take(i as int));
            assert(evs.take(i + 1).last() == evs[i as int]);
            assert(evs.take(i + 1).filter(pred) == if pred(evs[i as int]) {
                evs.take(i as int).filter(pred).push(evs[i as int])
            } else {
                evs.take(i as int).filter(pred)
            });
            if keep {
                assert(r.deep_view() =~= r_pre.push(evs[i as int]));
            }
        }
        i += 1;
    }
    proof {
        assert(evs.take(evs.len() as int) =~= evs);
    }
    r
}

/// Compile a mixed-register event sequence into one register per
/// distinct register number, in first-seen order, each register compiled
/// from its own events in their original order.
pub fn compile_pcrs(events: &Vec<TPMEvent>) -> (r: Vec<Pcr>)
    ensures
        r.deep_view() == compiled_solution(events.deep_view()),
{
    let ghost evs = events.deep_view();
    let regs = unique_registers(events);
    let mut r: Vec<Pcr> = Vec::new();
    let mut k: usize = 0;
    proof {
        lemma_dedup_from_subset(registers_of(evs), Seq::<u8>::empty());
    }
    while k < regs.len()
        invariant
            k <= regs@.len(),
            evs == events.deep_view(),
            regs@ == first_seen(registers_of(evs)),
            forall|t: int| 0 <= t < regs@.len() ==> registers_of(evs).contains(
                #[trigger] regs@[t],
            ),
            r.deep_view().len() == k,
            forall|t: int| 0 <= t < k ==> r.deep_view()[t] == compiled_solution(evs)[t],
        decreases regs@.len() - k,
    {
        let group = events_for_register(events, regs[k]);
        proof {
            let reg = regs@[k as int];
            assert(registers_of(evs).contains(reg));
            let w = choose|w: int| 0 <= w < registers_of(evs).len() && registers_of(evs)[w] == reg;
            assert(evs[w].pcr == reg);
            assert(evs.filter(|e: EventView| e.pcr == reg).contains(evs[w]));
            assert(group.deep_view().len() > 0);
            assert forall|j: int| 0 <= j < group.deep_view().len() implies (#[trigger] group.deep_view()[j]).pcr
                == group.deep_view()[0].pcr by {
                assert(group.deep_view()[j] == register_events(evs, reg)[j]);
                assert(group.deep_view()[0] == register_events(evs, reg)[0]);
            }
            assert(same_register(group.deep_view()));
        }
        let ghost r_pre = r.deep_view();
        match Pcr::compile_from(&group) {
            Ok(p) => {
                r.push(p);
                proof {
                    assert forall|t: int| 0 <= t < k + 1 implies r.deep_view()[t]
                        == compiled_solution(evs)[t] by {
                        if t < k {
                            assert(r.deep_view()[t] == r_pre[t]);
                        } else {
                            assert(r.deep_view()[t] == compiled_pcr(
                                register_events(evs, regs@[k as int]),
                            ));
                        }
                    }
                }
            },
            Err(_) => {
                proof {
                    assert(false);
                }
            },
        }
        k += 1;
    }
    proof {
        assert(r.deep_view() =~= compiled_solution(evs));
    }
    r
}

} // verus!
