//! Bookkeeping of which pieces of a torrent are missing, being downloaded or
//! complete, and which piece to download next.
use vstd::prelude::*;

use crate::PieceIndex;

verus! {

/// The download state of a piece.
#[derive(Debug, Clone, Copy, PartialEq, Eq, Structural)]
pub enum PieceState {
    Missing,
    Downloading,
    Complete,
}

/// The index of the first missing piece, if any.
pub open spec fn first_missing(s: Seq<PieceState>) -> Option<int> {
    if exists|i: int| 0 <= i < s.len() && s[i] == PieceState::Missing {
        Some(
            choose|i: int|
                0 <= i < s.len() && s[i] == PieceState::Missing && forall|j: int|
                    0 <= j < i ==> s[j] != PieceState::Missing,
        )
    } else {
        None
    }
}

/// Whether every piece is complete.
pub open spec fn all_complete(s: Seq<PieceState>) -> bool {
    forall|i: int| 0 <= i < s.len() ==> s[i] == PieceState::Complete
}

/// The states after a pick: the first missing piece, if any, is being downloaded.
pub open spec fn after_pick(s: Seq<PieceState>) -> Seq<PieceState> {
    match first_missing(s) {
        Some(i) => s.update(i, PieceState::Downloading),
        None => s,
    }
}

/// The first missing piece is well defined: it is missing and every piece
/// before it is not.
pub proof fn lemma_first_missing(s: Seq<PieceState>)
    ensures
        first_missing(s) matches Some(i) ==> {
            &&& 0 <= i < s.len()
            &&& s[i] == PieceState::Missing
            &&& forall|j: int| 0 <= j < i ==> s[j] != PieceState::Missing
        },
        first_missing(s) is None ==> forall|j: int| 0 <= j < s.len() ==> s[j] != PieceState::Missing,
{
    if exists|i: int| 0 <= i < s.len() && s[i] == PieceState::Missing {
        let w = choose|i: int| 0 <= i < s.len() && s[i] == PieceState::Missing;
        lemma_least_missing(s, w);
    }
}

proof fn lemma_least_missing(s: Seq<PieceState>, w: int)
    requires
        0 <= w < s.len(),
        s[w] == PieceState::Missing,
    ensures
        exists|i: int|
            0 <= i < s.len() && s[i] == PieceState::Missing && forall|j: int|
                0 <= j < i ==> s[j] != PieceState::Missing,
    decreases w,
{
    if exists|j: int| 0 <= j < w && s[j] == PieceState::Missing {
        let j = choose|j: int| 0 <= j < w && s[j] == PieceState::Missing;
        lemma_least_missing(s, j);
    } else {
        assert(0 <= w < s.len() && s[w] == PieceState::Missing && forall|j: int|
            0 <= j < w ==> s[j] != PieceState::Missing);
    }
}

/// Decides which piece to download next and tracks the state of every piece.
pub struct PiecePicker {
    need: Vec<PieceState>,
}

impl PiecePicker {
    /// The state of each piece, by index.
    pub closed spec fn states(&self) -> Seq<PieceState> {
        self.need@
    }

    /// The number of pieces fits a `usize`.
    pub proof fn lemma_states_len(&self)
        ensures
            self.states().len() <= usize::MAX,
    {
        assert(self.need.len() == self.need@.len());
    }

    /// A picker for `piece_count` pieces, all missing.
    pub fn new(piece_count: usize) -> (p: Self)
        ensures
            p.states().len() == piece_count,
            forall|i: int| 0 <= i < piece_count ==> p.states()[i] == PieceState::Missing,
    {
        let mut need: Vec<PieceState> = Vec::new();
        let mut i: usize = 0;
        while i < piece_count
            invariant
                i <= piece_count,
                need@.len() == i,
                forall|j: int| 0 <= j < i ==> need@[j] == PieceState::Missing,
            decreases piece_count - i,
        {
            need.push(PieceState::Missing);
            i = i + 1;
        }
        PiecePicker { need }
    }

    /// Picks the first missing piece, marks it as being downloaded and returns
    /// its index; `None`, with nothing changed, if no piece is missing.
    pub fn pick(&mut self) -> (r: Option<PieceIndex>)
        ensures
            match first_missing(old(self).states()) {
                Some(i) => r == Some(i as usize),
                None => r is None,
            },
            final(self).states() == after_pick(old(self).states()),
    {
        proof {
            lemma_first_missing(self.need@);
        }
        let mut index: usize = 0;
        while index < self.need.len()
            invariant
                index <= self.need@.len(),
                self.need@ == old(self).states(),
                forall|j: int| 0 <= j < index ==> self.need@[j] != PieceState::Missing,
            decreases self.need@.len() - index,
        {
            if self.need[index] == PieceState::Missing {
                proof {
                    let f = first_missing(self.need@);
                    assert(f == Some(index as int)) by {
                        let k = f->0;
                        if k < index {
                        } else if k > index {
                        }
                    }
                }
                self.need.set(index, PieceState::Downloading);
                return Some(index);
            }
            index = index + 1;
        }
        None
    }

    /// Marks a piece as complete; returns whether every piece is now complete.
    pub fn mark_complete(&mut self, index: PieceIndex) -> (done: bool)
        requires
            index < old(self).states().len(),
        ensures
            final(self).states() == old(self).states().update(index as int, PieceState::Complete),
            done == all_complete(final(self).states()),
    {
        self.need.set(index, PieceState::Complete);
        let mut i: usize = 0;
        while i < self.need.len()
            invariant
                i <= self.need@.len(),
                index < old(self).states().len(),
                self.need@ == old(self).states().update(index as int, PieceState::Complete),
                forall|j: int| 0 <= j < i ==> self.need@[j] == PieceState::Complete,
            decreases self.need@.len() - i,
        {
            if self.need[i] != PieceState::Complete {
                return false;
            }
            i = i + 1;
        }
        true
    }

    /// Marks a piece as missing, so that it is picked again.
    pub fn mark_missing(&mut self, index: PieceIndex)
        requires
            index < old(self).states().len(),
        ensures
            final(self).states() == old(self).states().update(index as int, PieceState::Missing),
    {
        self.need.set(index, PieceState::Missing);
    }
}

/// A piece once picked is not picked again until it is marked missing: the
/// next pick returns another index, or none.
pub proof fn lemma_pick_not_repeated(s: Seq<PieceState>)
    ensures
        first_missing(s) matches Some(i) ==> first_missing(after_pick(s)) != Some(i),
{
    lemma_first_missing(s);
    lemma_first_missing(after_pick(s));
}

/// A piece marked missing is picked again once every piece before it is
/// taken: if no earlier piece is missing, the next pick returns it.
pub proof fn lemma_missing_is_picked(s: Seq<PieceState>, i: int)
    requires
        0 <= i < s.len(),
        forall|j: int| 0 <= j < i ==> s[j] != PieceState::Missing,
    ensures
        first_missing(s.update(i, PieceState::Missing)) == Some(i),
{
    let t = s.update(i, PieceState::Missing);
    lemma_first_missing(t);
}

/// Once every piece has been marked complete, in any order, the picker
/// reports the torrent complete and has nothing left to pick.
pub proof fn lemma_all_marked_complete(s: Seq<PieceState>, order: Seq<int>)
    requires
        forall|i: int| 0 <= i < s.len() ==> order.contains(i),
        forall|k: int| 0 <= k < order.len() ==> 0 <= #[trigger] order[k] < s.len(),
    ensures
        all_complete(mark_all(s, order)),
        first_missing(mark_all(s, order)) is None,
{
    lemma_mark_all(s, order);
    let t = mark_all(s, order);
    assert forall|i: int| 0 <= i < t.len() implies t[i] == PieceState::Complete by {
        assert(order.contains(i));
    }
    lemma_first_missing(t);
}

/// A call on the picker: `pick`, `mark_complete(i)` or `mark_missing(i)`.
pub enum PickerOp {
    Pick,
    Complete(int),
    Missing(int),
}

/// The states after one call, as the calls' contracts state them.
pub open spec fn apply_op(s: Seq<PieceState>, op: PickerOp) -> Seq<PieceState> {
    match op {
        PickerOp::Pick => after_pick(s),
        PickerOp::Complete(j) => s.update(j, PieceState::Complete),
        PickerOp::Missing(j) => s.update(j, PieceState::Missing),
    }
}

/// The states after a run of calls, in order.
pub open spec fn run_ops(s: Seq<PieceState>, ops: Seq<PickerOp>) -> Seq<PieceState>
    decreases ops.len(),
{
    if ops.len() == 0 {
        s
    } else {
        apply_op(run_ops(s, ops.drop_last()), ops.last())
    }
}

/// Whether every call of a run names an existing piece and none marks `i`
/// missing.
pub open spec fn keeps_claim(ops: Seq<PickerOp>, n: nat, i: int) -> bool {
    forall|k: int|
        0 <= k < ops.len() ==> match #[trigger] ops[k] {
            PickerOp::Pick => true,
            PickerOp::Complete(j) => 0 <= j < n,
            PickerOp::Missing(j) => 0 <= j < n && j != i,
        }
}

proof fn lemma_run_keeps_claim(t: Seq<PieceState>, ops: Seq<PickerOp>, i: int)
    requires
        0 <= i < t.len(),
        t[i] != PieceState::Missing,
        keeps_claim(ops, t.len(), i),
    ensures
        run_ops(t, ops).len() == t.len(),
        run_ops(t, ops)[i] != PieceState::Missing,
    decreases ops.len(),
{
    if ops.len() > 0 {
        let rest = ops.drop_last();
        assert forall|k: int| 0 <= k < rest.len() implies match #[trigger] rest[k] {
            PickerOp::Pick => true,
            PickerOp::Complete(j) => 0 <= j < t.len(),
            PickerOp::Missing(j) => 0 <= j < t.len() && j != i,
        } by {
            assert(rest[k] == ops[k]);
        }
        lemma_run_keeps_claim(t, rest, i);
        let x = run_ops(t, rest);
        lemma_first_missing(x);
        let last = ops.last();
        assert(match last {
            PickerOp::Pick => true,
            PickerOp::Complete(j) => 0 <= j < t.len(),
            PickerOp::Missing(j) => 0 <= j < t.len() && j != i,
        });
    }
}

/// No piece is handed out twice while it is claimed: once `pick` returned
/// `i`, no later `pick` returns `i` in any run of calls that does not mark
/// `i` missing.
pub proof fn lemma_no_double_claim(s: Seq<PieceState>, ops: Seq<PickerOp>, i: int)
    requires
        first_missing(s) == Some(i),
        keeps_claim(ops, s.len(), i),
    ensures
        forall|k: int|
            0 <= k <= ops.len() ==> first_missing(#[trigger] run_ops(after_pick(s), ops.take(k)))
                != Some(i),
{
    lemma_first_missing(s);
    let t = after_pick(s);
    assert forall|k: int|
        0 <= k <= ops.len() implies first_missing(#[trigger] run_ops(t, ops.take(k))) != Some(i) by {
        let pre = ops.take(k);
        assert forall|m: int| 0 <= m < pre.len() implies match #[trigger] pre[m] {
            PickerOp::Pick => true,
            PickerOp::Complete(j) => 0 <= j < t.len(),
            PickerOp::Missing(j) => 0 <= j < t.len() && j != i,
        } by {
            assert(pre[m] == ops[m]);
        }
        lemma_run_keeps_claim(t, pre, i);
        lemma_first_missing(run_ops(t, pre));
    }
}

/// The states after marking each index of `order` complete, in turn.
pub open spec fn mark_all(s: Seq<PieceState>, order: Seq<int>) -> Seq<PieceState>
    decreases order.len(),
{
    if order.len() == 0 {
        s
    } else {
        mark_all(s, order.drop_last()).update(order.last(), PieceState::Complete)
    }
}

proof fn lemma_mark_all(s: Seq<PieceState>, order: Seq<int>)
    requires
        forall|k: int| 0 <= k < order.len() ==> 0 <= #[trigger] order[k] < s.len(),
    ensures
        mark_all(s, order).len() == s.len(),
        forall|i: int|
            0 <= i < s.len() && order.contains(i) ==> mark_all(s, order)[i] == PieceState::Complete,
    decreases order.len(),
{
    if order.len() > 0 {
        let rest = order.drop_last();
        assert forall|k: int| 0 <= k < rest.len() implies 0 <= #[trigger] rest[k] < s.len() by {
            assert(rest[k] == order[k]);
        }
        lemma_mark_all(s, rest);
        assert forall|i: int|
            0 <= i < s.len() && order.contains(i) implies mark_all(s, order)[i]
            == PieceState::Complete by {
            if i != order.last() {
                let k = choose|k: int| 0 <= k < order.len() && order[k] == i;
                assert(k != order.len() - 1);
                assert(rest[k] == i);
                assert(rest.contains(i));
            }
        }
    }
}

} // verus!
