use vstd::prelude::*;

verus! {

/// Mathematical view of one measurement event: canonical identifier,
/// owning register number, digest bytes, and descriptive name.
#[verifier::ext_equal]
pub struct EventView {
    pub id: usize,
    pub pcr: u8,
    pub hash: Seq<u8>,
    pub name: Seq<char>,
}

/// One recorded measurement event. The identifier is an index into the
/// oracle's canonical identifier order.
#[derive(Clone, PartialEq, Eq, Debug)]
pub struct TPMEvent {
    pub id: usize,
    pub pcr: u8,
    pub hash: Vec<u8>,
    pub name: String,
}

impl View for TPMEvent {
    type V = EventView;

    open spec fn view(&self) -> EventView {
        EventView { id: self.id, pcr: self.pcr, hash: self.hash@, name: self.name@ }
    }
}

impl DeepView for TPMEvent {
    type V = EventView;

    open spec fn deep_view(&self) -> EventView {
        self.view()
    }
}

/// Byte-for-byte copy of a digest vector.
pub fn clone_bytes(v: &Vec<u8>) -> (r: Vec<u8>)
    ensures
        r@ == v@,
{
    let r = v.clone();
    proof {
        assert forall|i: int| 0 <= i < v@.len() implies r@[i] == v@[i] by {
            assert(cloned::<u8>(v@[i], r@[i]));
        }
        assert(r@ =~= v@);
    }
    r
}

/// Copy of a per-image group-ownership mask vector.
pub fn clone_masks(v: &Vec<u32>) -> (r: Vec<u32>)
    ensures
        r@ == v@,
{
    let r = v.clone();
    proof {
        assert forall|i: int| 0 <= i < v@.len() implies r@[i] == v@[i] by {
            assert(cloned::<u32>(v@[i], r@[i]));
        }
        assert(r@ =~= v@);
    }
    r
}

impl TPMEvent {
    /// Copy of the event, equal to the original in view.
    pub fn duplicate(&self) -> (r: TPMEvent)
        ensures
            r@ == self@,
    {
        let r = TPMEvent {
            id: self.id,
            pcr: self.pcr,
            hash: clone_bytes(&self.hash),
            name: self.name.clone(),
        };
        proof {
            assert(r@ =~= self@);
        }
        r
    }

    /// Structural equality of two events, decided over their views.
    pub fn same_event(&self, other: &TPMEvent) -> (r: bool)
        ensures
            r == (self@ == other@),
    {
        if self.id != other.id || self.pcr != other.pcr {
            return false;
        }
        if !bytes_eq(&self.hash, &other.hash) {
            return false;
        }
        if self.name != other.name {
            return false;
        }
        proof {
            assert(self@ =~= other@);
        }
        true
    }
}

/// Equality of two digest vectors, decided over their views.
pub fn bytes_eq(a: &Vec<u8>, b: &Vec<u8>) -> (r: bool)
    ensures
        r == (a@ == b@),
{
    if a.len() != b.len() {
        return false;
    }
    let mut i: usize = 0;
    while i < a.len()
        invariant
            i <= a@.len(),
            a@.len() == b@.len(),
            forall|j: int| 0 <= j < i ==> a@[j] == b@[j],
        decreases a@.len() - i,
    {
        if a[i] != b[i] {
            return false;
        }
        i += 1;
    }
    proof {
        assert(a@ =~= b@);
    }
    true
}

/// The event identifier oracle: `masks[k]` is the bitmask of the logical
/// measurement groups that the `k`-th identifier of the canonical order
/// belongs to. The canonical total order over identifiers is the index
/// order; the enumeration ends after the last index.
pub struct EventOracle {
    pub masks: Vec<u32>,
}

impl EventOracle {
    /// Oracle over the given group-mask table, one entry per identifier
    /// in canonical order.
    pub fn new(masks: Vec<u32>) -> (r: EventOracle)
        ensures
            r.masks@ == masks@,
    {
        EventOracle { masks }
    }

    /// Number of identifiers in the canonical enumeration.
    pub fn count(&self) -> (r: usize)
        ensures
            r == self.masks@.len(),
    {
        self.masks.len()
    }

    /// Bitmask of the groups that identifier `id` participates in.
    pub fn group_mask(&self, id: usize) -> (m: u32)
        requires
            id < self.masks@.len(),
        ensures
            m == self.masks@[id as int],
    {
        self.masks[id]
    }

    /// Next identifier in the canonical order, or `None` at the end.
    pub fn successor(&self, id: usize) -> (r: Option<usize>)
        requires
            id < self.masks@.len(),
        ensures
            match r {
                Some(s) => s == id + 1 && s < self.masks@.len(),
                None => id + 1 == self.masks@.len(),
            },
    {
        let n = self.masks.len();
        if n - id > 1 {
            Some(id + 1)
        } else {
            None
        }
    }
}

} // verus!
