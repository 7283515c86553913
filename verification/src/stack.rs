use vstd::prelude::*;

verus! {

/// The failure of a query whose recursion went beyond the configured limit.
/// It is no answer to the goal: the query is given up.
#[derive(Clone, Copy, Debug, PartialEq, Eq, Structural)]
pub struct Overflow;

/// The position of an open goal on the stack, counted from the bottom.
#[derive(Clone, Copy, Debug, PartialEq, Eq, Structural)]
pub struct StackDepth {
    pub depth: usize,
}

/// What the stack holds of one open goal.
#[derive(Clone, Copy, Debug, PartialEq, Eq, Structural)]
pub struct StackEntry {
    /// Whether the goal is coinductive. Fixed when the goal is pushed.
    pub coinductive_goal: bool,
    /// Whether a deeper goal has looped back to this one since the flag was
    /// last read.
    pub cycle: bool,
}

impl StackEntry {
    /// Records that a deeper goal depends on this one.
    pub fn flag_cycle(&mut self)
        ensures
            *final(self) == (StackEntry { cycle: true, ..*old(self) }),
    {
        self.cycle = true;
    }

    /// Reads the cycle flag and clears it.
    pub fn read_and_reset_cycle_flag(&mut self) -> (flag: bool)
        ensures
            flag == old(self).cycle,
            *final(self) == (StackEntry { cycle: false, ..*old(self) }),
    {
        let flag = self.cycle;
        self.cycle = false;
        flag
    }
}

/// The goals that are being solved, innermost last, with a limit on how many
/// there may be.
pub struct Stack {
    entries: Vec<StackEntry>,
    overflow_depth: usize,
}

/// Whether every entry of `entries` from position `from` on is coinductive.
pub open spec fn all_coinductive_from(entries: Seq<StackEntry>, from: int) -> bool {
    forall|i: int| from <= i < entries.len() ==> (#[trigger] entries[i]).coinductive_goal
}

impl View for Stack {
    type V = Seq<StackEntry>;

    closed spec fn view(&self) -> Seq<StackEntry> {
        self.entries@
    }
}

impl Stack {
    /// The number of entries beyond which a push is refused.
    pub closed spec fn limit(&self) -> nat {
        self.overflow_depth as nat
    }

    /// The stack never holds more entries than its limit.
    pub closed spec fn wf(&self) -> bool {
        self.entries@.len() <= self.overflow_depth
    }

    /// A well-formed stack is within its limit, which fits a machine word.
    pub proof fn lemma_within_limit(&self)
        requires
            self.wf(),
        ensures
            self@.len() <= self.limit() <= usize::MAX,
    {
    }

    /// An empty stack that refuses to grow beyond `overflow_depth` entries.
    pub fn new(overflow_depth: usize) -> (stack: Stack)
        ensures
            stack.wf(),
            stack@ == Seq::<StackEntry>::empty(),
            stack.limit() == overflow_depth,
    {
        Stack { entries: Vec::new(), overflow_depth }
    }

    pub fn is_empty(&self) -> (r: bool)
        ensures
            r == (self@.len() == 0),
    {
        self.entries.len() == 0
    }

    /// The number of open goals.
    pub fn len(&self) -> (n: usize)
        ensures
            n == self@.len(),
    {
        self.entries.len()
    }

    /// Opens a goal on top of the stack, with its cycle flag clear, and gives
    /// its depth; refuses with `Overflow`, and changes nothing, where the
    /// stack has reached its limit.
    pub fn push(&mut self, coinductive_goal: bool) -> (r: Result<StackDepth, Overflow>)
        requires
            old(self).wf(),
        ensures
            final(self).wf(),
            final(self).limit() == old(self).limit(),
            match r {
                Ok(depth) => {
                    &&& old(self)@.len() < old(self).limit()
                    &&& depth.depth == old(self)@.len()
                    &&& final(self)@ == old(self)@.push(
                        StackEntry { coinductive_goal, cycle: false },
                    )
                },
                Err(_) => {
                    &&& old(self)@.len() >= old(self).limit()
                    &&& final(self)@ == old(self)@
                },
            },
    {
        let depth = StackDepth { depth: self.entries.len() };
        if depth.depth >= self.overflow_depth {
            return Err(Overflow);
        }
        self.entries.push(StackEntry { coinductive_goal, cycle: false });
        Ok(depth)
    }

    /// Closes the goal on top of the stack, which must be the one at `depth`.
    pub fn pop(&mut self, depth: StackDepth)
        requires
            old(self).wf(),
            depth.depth + 1 == old(self)@.len(),
        ensures
            final(self).wf(),
            final(self).limit() == old(self).limit(),
            final(self)@ == old(self)@.drop_last(),
    {
        self.entries.pop();
    }

    /// Closes every open goal.
    pub fn clear(&mut self)
        requires
            old(self).wf(),
        ensures
            final(self).wf(),
            final(self).limit() == old(self).limit(),
            final(self)@ == Seq::<StackEntry>::empty(),
    {
        self.entries.clear();
    }

    /// The entry at `depth`.
    pub fn index(&self, depth: StackDepth) -> (entry: &StackEntry)
        requires
            depth.depth < self@.len(),
        ensures
            *entry == self@[depth.depth as int],
    {
        &self.entries[depth.depth]
    }

    /// The entry at `depth`, to be changed in place.
    pub fn index_mut(&mut self, depth: StackDepth) -> (entry: &mut StackEntry)
        requires
            old(self).wf(),
            depth.depth < old(self)@.len(),
        ensures
            *entry == old(self)@[depth.depth as int],
            final(self)@ == old(self)@.update(depth.depth as int, *final(entry)),
            final(self).wf(),
            final(self).limit() == old(self).limit(),
    {
        &mut self.entries[depth.depth]
    }

    /// Whether every goal from `depth` to the top of the stack is
    /// coinductive.
    pub fn coinductive_cycle_from(&self, depth: StackDepth) -> (r: bool)
        requires
            depth.depth < self@.len(),
        ensures
            r == all_coinductive_from(self@, depth.depth as int),
    {
        let mut i: usize = depth.depth;
        while i < self.entries.len()
            invariant
                depth.depth <= i <= self.entries@.len(),
                forall|j: int|
                    depth.depth <= j < i ==> (#[trigger] self.entries@[j]).coinductive_goal,
            decreases self.entries@.len() - i,
        {
            if !self.entries[i].coinductive_goal {
                return false;
            }
            i = i + 1;
        }
        true
    }
}

} // verus!
