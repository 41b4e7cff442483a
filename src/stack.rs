use vstd::prelude::*;

verus! {

/// Largest number of frames kept for one call stack.
pub const MAX_DEPTH: usize = 32;

/// A call stack of raw program counters, innermost frame first, with room for
/// `MAX_DEPTH` frames and no heap storage. Slots past `len` always hold zero,
/// so two stacks with equal frames are equal field by field.
#[derive(Clone, Copy, Debug, Hash)]
pub struct Stack {
    frames: [usize; MAX_DEPTH],
    len: usize,
}

/// A stack in the plain form that hashing collections key by.
pub type StackKey = ([usize; MAX_DEPTH], usize);

/// The frames that a key stands for: its first `len` slots, at most the
/// capacity.
pub open spec fn key_frames(k: StackKey) -> Seq<usize> {
    k.0@.subrange(0, if k.1 <= MAX_DEPTH { k.1 as int } else { MAX_DEPTH as int })
}

impl View for Stack {
    type V = Seq<usize>;

    closed spec fn view(&self) -> Seq<usize> {
        self.frames@.subrange(0, self.len as int)
    }
}

impl Stack {
    #[verifier::type_invariant]
    closed spec fn inv(self) -> bool {
        &&& self.len <= MAX_DEPTH
        &&& forall|i: int| self.len <= i < MAX_DEPTH ==> #[trigger] self.frames@[i] == 0
    }

    /// The empty stack.
    pub fn new() -> (r: Stack)
        ensures
            r@ == Seq::<usize>::empty(),
    {
        let r = Stack { frames: [0usize; MAX_DEPTH], len: 0 };
        assert(r@ =~= Seq::<usize>::empty());
        r
    }

    /// Appends one frame (outward from the innermost). A frame that finds the
    /// stack full is dropped. Returns whether room is left after the call,
    /// which tells an unwinder whether to go on.
    pub fn push(&mut self, pc: usize) -> (more: bool)
        ensures
            old(self)@.len() < MAX_DEPTH ==> final(self)@ == old(self)@.push(pc),
            old(self)@.len() >= MAX_DEPTH ==> final(self)@ == old(self)@,
            more == (final(self)@.len() < MAX_DEPTH),
    {
        proof {
            use_type_invariant(&*self);
        }
        if self.len < MAX_DEPTH {
            let ghost before = self@;
            let n = self.len;
            let mut frames = self.frames;
            frames[n] = pc;
            *self = Stack { frames, len: n + 1 };
            assert(self@ =~= before.push(pc));
        }
        proof {
            use_type_invariant(&*self);
        }
        self.len < MAX_DEPTH
    }

    /// Number of frames held.
    pub fn len(&self) -> (r: usize)
        ensures
            r as int == self@.len(),
            r <= MAX_DEPTH,
    {
        proof {
            use_type_invariant(self);
        }
        self.len
    }

    /// The frame at position `i`, counting from the innermost.
    pub fn frame(&self, i: usize) -> (r: usize)
        requires
            i < self@.len(),
        ensures
            r == self@[i as int],
    {
        proof {
            use_type_invariant(self);
        }
        self.frames[i]
    }

    /// The frames as a vector, innermost first.
    pub fn to_vec(&self) -> (r: Vec<usize>)
        ensures
            r@ == self@,
    {
        proof {
            use_type_invariant(self);
        }
        let mut r: Vec<usize> = Vec::new();
        let mut i: usize = 0;
        while i < self.len
            invariant
                self.inv(),
                i <= self.len,
                r@ == self@.subrange(0, i as int),
            decreases self.len - i,
        {
            r.push(self.frames[i]);
            i = i + 1;
            assert(r@ =~= self@.subrange(0, i as int));
        }
        assert(r@ =~= self@);
        r
    }

    /// A stack of the innermost `MAX_DEPTH` frames of a call chain given
    /// innermost first; outer frames beyond the capacity are dropped.
    pub fn from_frames(chain: &[usize]) -> (r: Stack)
        ensures
            chain@.len() <= MAX_DEPTH ==> r@ == chain@,
            chain@.len() > MAX_DEPTH ==> r@ == chain@.subrange(0, MAX_DEPTH as int),
    {
        let mut r = Stack::new();
        let mut i: usize = 0;
        while i < chain.len() && i < MAX_DEPTH
            invariant
                i <= chain@.len(),
                i <= MAX_DEPTH,
                r@ == chain@.subrange(0, i as int),
            decreases chain@.len() - i,
        {
            r.push(chain[i]);
            i = i + 1;
            assert(r@ =~= chain@.subrange(0, i as int));
        }
        assert(chain@.len() <= MAX_DEPTH ==> chain@.subrange(0, i as int) =~= chain@);
        r
    }

    /// The plain form of this stack, as a collection keys it: the frames,
    /// zeros in the free slots, and the length. It depends on the frames
    /// alone, so equal stacks have equal keys and equal hashes.
    pub fn key(&self) -> (r: StackKey)
        ensures
            key_frames(r) == self@,
            r.1 as int == self@.len(),
            r.0@ == self@ + Seq::new((MAX_DEPTH - self@.len()) as nat, |i: int| 0usize),
    {
        proof {
            use_type_invariant(self);
        }
        let r = (self.frames, self.len);
        assert(r.0@ =~= self@ + Seq::new((MAX_DEPTH - self@.len()) as nat, |i: int| 0usize));
        r
    }

    /// The stack that a key stands for.
    pub fn from_key(k: &StackKey) -> (r: Stack)
        ensures
            r@ == key_frames(*k),
    {
        let bound: usize = if k.1 <= MAX_DEPTH { k.1 } else { MAX_DEPTH };
        let mut r = Stack::new();
        let mut i: usize = 0;
        while i < bound
            invariant
                bound <= MAX_DEPTH,
                bound as int == (if k.1 <= MAX_DEPTH { k.1 as int } else { MAX_DEPTH as int }),
                i <= bound,
                r@ == k.0@.subrange(0, i as int),
            decreases bound - i,
        {
            r.push(k.0[i]);
            i = i + 1;
            assert(r@ =~= k.0@.subrange(0, i as int));
        }
        r
    }

    /// Stack identity: equal exactly when both hold the same frames in the
    /// same order.
    pub fn same_as(&self, other: &Stack) -> (r: bool)
        ensures
            r == (self@ == other@),
    {
        proof {
            use_type_invariant(self);
            use_type_invariant(other);
        }
        if self.len != other.len {
            assert(self@.len() != other@.len());
            return false;
        }
        let mut i: usize = 0;
        while i < self.len
            invariant
                self.inv(),
                other.inv(),
                self.len == other.len,
                i <= self.len,
                forall|j: int| 0 <= j < i ==> self@[j] == other@[j],
            decreases self.len - i,
        {
            if self.frames[i] != other.frames[i] {
                assert(self@[i as int] != other@[i as int]);
                return false;
            }
            i = i + 1;
        }
        assert(self@ =~= other@);
        true
    }
}

impl PartialEq for Stack {
    fn eq(&self, other: &Stack) -> (r: bool) {
        self.same_as(other)
    }
}

impl vstd::std_specs::cmp::PartialEqSpecImpl for Stack {
    open spec fn obeys_eq_spec() -> bool {
        true
    }

    open spec fn eq_spec(&self, other: &Stack) -> bool {
        self@ == other@
    }
}

impl Eq for Stack {

}

} // verus!
