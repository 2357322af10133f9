//! Topological depth of drawn segments.
//!
//! Topological depth is the number of drawn `F` segments from the initial
//! segment along the current branch path. The first emitted `F` has depth `0`;
//! each emitted `F` increments depth after emission (saturating at
//! `u32::MAX`); `[` saves the depth and `]` restores the last saved one, so a
//! branch does not count towards what follows it. Every other symbol leaves
//! the depth alone.

use vstd::prelude::*;

verus! {

/// The symbol byte of a drawn segment.
pub const DRAW: u8 = 70;

/// The symbol byte that saves turtle state.
pub const PUSH: u8 = 91;

/// The symbol byte that restores turtle state.
pub const POP: u8 = 93;

/// Change of the number of open branches caused by one symbol.
pub open spec fn branch_change(symbol: u8) -> int {
    if symbol == PUSH {
        1
    } else if symbol == POP {
        -1
    } else {
        0
    }
}

/// Number of `[` minus number of `]` in `s`.
pub open spec fn branch_depth(s: Seq<u8>) -> int
    decreases s.len(),
{
    if s.len() == 0 {
        0
    } else {
        branch_depth(s.drop_last()) + branch_change(s.last())
    }
}

/// `d + 1`, or `d` at `u32::MAX`.
pub open spec fn saturating_inc(d: u32) -> u32 {
    if d == u32::MAX {
        d
    } else {
        (d + 1) as u32
    }
}

/// Depth and saved depths after one symbol.
pub open spec fn depth_step(state: (u32, Seq<u32>), symbol: u8) -> (u32, Seq<u32>) {
    if symbol == DRAW {
        (saturating_inc(state.0), state.1)
    } else if symbol == PUSH {
        (state.0, state.1.push(state.0))
    } else if symbol == POP {
        if state.1.len() > 0 {
            (state.1.last(), state.1.drop_last())
        } else {
            state
        }
    } else {
        state
    }
}

/// Depth and saved depths after a string of symbols.
pub open spec fn depth_run(state: (u32, Seq<u32>), s: Seq<u8>) -> (u32, Seq<u32>)
    decreases s.len(),
{
    if s.len() == 0 {
        state
    } else {
        depth_step(depth_run(state, s.drop_last()), s.last())
    }
}

/// The depth of every segment a string of symbols draws, in order.
pub open spec fn segment_depths(state: (u32, Seq<u32>), s: Seq<u8>) -> Seq<u32>
    decreases s.len(),
{
    if s.len() == 0 {
        Seq::empty()
    } else if s.last() == DRAW {
        segment_depths(state, s.drop_last()).push(depth_run(state, s.drop_last()).0)
    } else {
        segment_depths(state, s.drop_last())
    }
}

/// The depth bookkeeping of a turtle: the current depth and the depths saved
/// by open branches.
pub struct DepthTracker {
    depth: u32,
    stack: Vec<u32>,
}

impl DepthTracker {
    /// The current depth and the saved depths, innermost branch last.
    pub closed spec fn state(&self) -> (u32, Seq<u32>) {
        (self.depth, self.stack@)
    }

    /// A tracker before any symbol: depth zero, no open branch.
    pub fn new() -> (t: Self)
        ensures
            t.state() == (0u32, Seq::<u32>::empty()),
    {
        DepthTracker { depth: 0, stack: Vec::new() }
    }

    /// The depth the next drawn segment gets.
    pub fn topological_depth(&self) -> (d: u32)
        ensures
            d == self.state().0,
    {
        self.depth
    }

    /// Whether no branch is open.
    pub fn stack_is_empty(&self) -> (b: bool)
        ensures
            b == (self.state().1.len() == 0),
    {
        self.stack.len() == 0
    }

    /// Consumes one symbol; a drawn segment (`F`) reports its depth.
    pub fn apply(&mut self, symbol: u8) -> (r: Option<u32>)
        ensures
            final(self).state() == depth_step(old(self).state(), symbol),
            r == (if symbol == DRAW {
                Some(old(self).state().0)
            } else {
                None::<u32>
            }),
    {
        if symbol == DRAW {
            let d = self.depth;
            self.depth = self.depth.saturating_add(1);
            Some(d)
        } else if symbol == PUSH {
            self.stack.push(self.depth);
            None
        } else if symbol == POP {
            match self.stack.pop() {
                Some(d) => {
                    self.depth = d;
                },
                None => {},
            }
            None
        } else {
            None
        }
    }
}

/// The topological depth of every segment `symbols` draws, in order.
pub fn topological_depths(symbols: &Vec<u8>) -> (r: Vec<u32>)
    ensures
        r@ == segment_depths((0u32, Seq::<u32>::empty()), symbols@),
{
    let mut tracker = DepthTracker::new();
    let mut out: Vec<u32> = Vec::new();
    let ghost start = tracker.state();
    let mut i: usize = 0;
    while i < symbols.len()
        invariant
            0 <= i <= symbols@.len(),
            start == (0u32, Seq::<u32>::empty()),
            tracker.state() == depth_run(start, symbols@.take(i as int)),
            out@ == segment_depths(start, symbols@.take(i as int)),
        decreases symbols@.len() - i,
    {
        let symbol = symbols[i];
        proof {
            assert(symbols@.take(i + 1).drop_last() =~= symbols@.take(i as int));
            assert(symbols@.take(i + 1).last() == symbol);
        }
        match tracker.apply(symbol) {
            Some(d) => out.push(d),
            None => {},
        }
        i = i + 1;
    }
    proof {
        assert(symbols@.take(symbols@.len() as int) =~= symbols@);
    }
    out
}

/// Running a concatenation is running its parts in turn.
pub proof fn lemma_depth_run_concat(state: (u32, Seq<u32>), a: Seq<u8>, b: Seq<u8>)
    ensures
        depth_run(state, a + b) == depth_run(depth_run(state, a), b),
    decreases b.len(),
{
    if b.len() == 0 {
        assert(a + b =~= a);
    } else {
        assert((a + b).drop_last() =~= a + b.drop_last());
        assert((a + b).last() == b.last());
        lemma_depth_run_concat(state, a, b.drop_last());
    }
}

/// While no prefix of `s` closes more branches than it opens, running `s`
/// only adds saved depths on top of those already there: one per branch left
/// open, and the depth below them is untouched.
proof fn lemma_depth_run_nested(state: (u32, Seq<u32>), s: Seq<u8>)
    requires
        forall|p: int| 0 <= p <= s.len() ==> branch_depth(#[trigger] s.take(p)) >= 0,
    ensures
        depth_run(state, s).1.len() == state.1.len() + branch_depth(s),
        depth_run(state, s).1.subrange(0, state.1.len() as int) == state.1,
    decreases s.len(),
{
    if s.len() > 0 {
        let t = s.drop_last();
        assert forall|p: int| 0 <= p <= t.len() implies branch_depth(#[trigger] t.take(p)) >= 0 by {
            assert(t.take(p) =~= s.take(p));
        }
        lemma_depth_run_nested(state, t);
        assert(s.take(s.len() as int) =~= s);
        assert(branch_depth(s) == branch_depth(t) + branch_change(s.last()));
        let before = depth_run(state, t);
        if s.last() == POP {
            assert(branch_depth(s) >= 0);
            assert(before.1.len() > state.1.len());
            assert(before.1.drop_last().subrange(0, state.1.len() as int) =~= before.1.subrange(
                0,
                state.1.len() as int,
            ));
        } else if s.last() == PUSH {
            assert(before.1.push(before.0).subrange(0, state.1.len() as int) =~= before.1.subrange(
                0,
                state.1.len() as int,
            ));
        }
    }
}

/// A balanced branch `[w]` restores the depth and the saved depths it found:
/// `[` and `]` save and restore depth together with turtle state.
pub proof fn lemma_branch_restores_depth(state: (u32, Seq<u32>), w: Seq<u8>)
    requires
        forall|p: int| 0 <= p <= w.len() ==> branch_depth(#[trigger] w.take(p)) >= 0,
        branch_depth(w) == 0,
    ensures
        depth_run(state, seq![PUSH] + w + seq![POP]) == state,
{
    let opened = depth_step(state, PUSH);
    assert(depth_run(state, seq![PUSH]) == opened) by {
        assert(seq![PUSH].drop_last() =~= Seq::<u8>::empty());
        assert(seq![PUSH].last() == PUSH);
        assert(depth_run(state, Seq::<u8>::empty()) == state);
    }
    lemma_depth_run_concat(state, seq![PUSH], w);
    lemma_depth_run_nested(opened, w);
    let inner = depth_run(opened, w);
    assert(inner.1 =~= opened.1);
    lemma_depth_run_concat(state, seq![PUSH] + w, seq![POP]);
    assert(depth_run(inner, seq![POP]) == depth_step(inner, POP)) by {
        assert(seq![POP].drop_last() =~= Seq::<u8>::empty());
        assert(seq![POP].last() == POP);
        assert(depth_run(inner, Seq::<u8>::empty()) == inner);
    }
    assert(state.1.push(state.0).drop_last() =~= state.1);
}

/// Symbols other than `F`, `[` and `]` never change the depth bookkeeping,
/// and each `F` raises the depth by one (up to `u32::MAX`).
pub proof fn lemma_only_drawing_deepens(state: (u32, Seq<u32>), symbol: u8)
    ensures
        symbol != DRAW && symbol != PUSH && symbol != POP ==> depth_step(state, symbol) == state,
        symbol == DRAW ==> depth_step(state, symbol) == (saturating_inc(state.0), state.1),
{
}

} // verus!
