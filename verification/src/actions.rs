//! The sequence of actions that leads to a search state, with its counts.

use crate::position::Action;
use vstd::prelude::*;

verus! {

/// The number of pushes in a sequence of actions.
pub open spec fn count_pushes(s: Seq<Action>) -> nat
    decreases s.len(),
{
    if s.len() == 0 {
        0
    } else {
        count_pushes(s.drop_last()) + if s.last() is Push {
            1nat
        } else {
            0nat
        }
    }
}

/// A growable sequence of actions that keeps count of its pushes.
#[derive(Clone, Debug)]
pub struct Actions {
    pub actions: Vec<Action>,
    pub pushes: usize,
}

impl View for Actions {
    type V = Seq<Action>;

    open spec fn view(&self) -> Seq<Action> {
        self.actions@
    }
}

impl Actions {
    /// The stored count is the number of pushes in the sequence.
    pub open spec fn wf(&self) -> bool {
        self.pushes == count_pushes(self.actions@)
    }

    /// The empty sequence.
    pub fn new() -> (r: Actions)
        ensures
            r.wf(),
            r@ == Seq::<Action>::empty(),
    {
        Actions { actions: Vec::new(), pushes: 0 }
    }

    /// The number of actions, moves and pushes together.
    pub fn moves(&self) -> (n: usize)
        ensures
            n == self@.len(),
    {
        self.actions.len()
    }

    /// The number of pushes.
    pub fn pushes(&self) -> (n: usize)
        requires
            self.wf(),
        ensures
            n == count_pushes(self@),
    {
        self.pushes
    }

    /// Appends one action.
    pub fn push(&mut self, action: Action)
        requires
            old(self).wf(),
        ensures
            final(self).wf(),
            final(self)@ == old(self)@.push(action),
    {
        proof {
            lemma_count_bound(self.actions@);
            assert(self.actions@.push(action).drop_last() =~= self.actions@);
        }
        self.actions.push(action);
        let n = self.actions.len();
        assert(self.pushes < n);
        match action {
            Action::Push(_) => {
                self.pushes = self.pushes + 1;
            },
            Action::Move(_) => {},
        }
    }

    /// A copy of the sequence.
    pub fn duplicate(&self) -> (r: Actions)
        requires
            self.wf(),
        ensures
            r.wf(),
            r@ == self@,
    {
        let mut actions: Vec<Action> = Vec::new();
        let mut i: usize = 0;
        while i < self.actions.len()
            invariant
                i <= self.actions@.len(),
                actions@ == self.actions@.subrange(0, i as int),
            decreases self.actions@.len() - i,
        {
            actions.push(self.actions[i]);
            assert(actions@ =~= self.actions@.subrange(0, i + 1));
            i = i + 1;
        }
        assert(actions@ =~= self.actions@);
        Actions { actions, pushes: self.pushes }
    }

    /// The actions as a vector.
    pub fn to_vec(&self) -> (r: Vec<Action>)
        requires
            self.wf(),
        ensures
            r@ == self@,
    {
        self.duplicate().actions
    }
}

/// A sequence holds no more pushes than actions.
pub proof fn lemma_count_bound(s: Seq<Action>)
    ensures
        count_pushes(s) <= s.len(),
    decreases s.len(),
{
    if s.len() > 0 {
        lemma_count_bound(s.drop_last());
    }
}

/// The pushes of a concatenation are those of its two parts.
pub proof fn lemma_count_concat(a: Seq<Action>, b: Seq<Action>)
    ensures
        count_pushes(a + b) == count_pushes(a) + count_pushes(b),
    decreases b.len(),
{
    if b.len() == 0 {
        assert(a + b =~= a);
    } else {
        assert((a + b).drop_last() =~= a + b.drop_last());
        lemma_count_concat(a, b.drop_last());
    }
}

} // verus!
