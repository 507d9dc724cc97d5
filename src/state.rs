use vstd::prelude::*;

verus! {

/// The longest n-gram order a model may have.
pub const MAX_ORDER: usize = 6;

/// The most word ids a context state can hold (one less than `MAX_ORDER`).
pub const MAX_CONTEXT: usize = 5;

/// The recent word ids that matter for scoring the next word, oldest first.
///
/// A plain value: copying it yields an independent state. Slots past `len`
/// are kept at zero, so two states are equal exactly when their id
/// sequences are equal. A state is read against the model it is scored
/// with; ids that model does not know simply match none of its n-grams, so
/// carrying a state between models is the caller's concern.
#[derive(Clone, Copy, Debug, PartialEq, Eq)]
pub struct State {
    ids: [u32; 5],
    len: usize,
}

impl State {
    pub closed spec fn wf(&self) -> bool {
        &&& self.len <= MAX_CONTEXT
        &&& forall|i: int| self.len <= i < MAX_CONTEXT ==> self.ids@[i] == 0
    }

    pub closed spec fn view(&self) -> Seq<u32> {
        self.ids@.subrange(0, self.len as int)
    }

    /// The empty state: no known history.
    pub fn new() -> (r: State)
        ensures
            r.wf(),
            r@ == Seq::<u32>::empty(),
    {
        let r = State { ids: [0u32; 5], len: 0 };
        assert(r@ =~= Seq::<u32>::empty());
        r
    }

    /// A state holding exactly `ids`.
    pub fn from_ids(ids: &Vec<u32>) -> (r: State)
        requires
            ids@.len() <= MAX_CONTEXT,
        ensures
            r.wf(),
            r@ == ids@,
    {
        let mut buf: [u32; 5] = [0u32; 5];
        let mut i: usize = 0;
        while i < ids.len()
            invariant
                i <= ids@.len() <= MAX_CONTEXT,
                forall|j: int| 0 <= j < i ==> buf@[j] == ids@[j],
                forall|j: int| i <= j < MAX_CONTEXT ==> buf@[j] == 0,
            decreases ids@.len() - i,
        {
            buf[i] = ids[i];
            i = i + 1;
        }
        let r = State { ids: buf, len: ids.len() };
        assert(r@ =~= ids@);
        r
    }

    pub fn len(&self) -> (r: usize)
        requires
            self.wf(),
        ensures
            r == self@.len(),
    {
        self.len
    }

    pub fn get(&self, i: usize) -> (r: u32)
        requires
            self.wf(),
            i < self@.len(),
        ensures
            r == self@[i as int],
    {
        self.ids[i]
    }
}

impl Default for State {
    /// The empty state, as `State::new`.
    fn default() -> (r: State)
        ensures
            r.wf(),
            r@ == Seq::<u32>::empty(),
    {
        State::new()
    }
}

} // verus!
