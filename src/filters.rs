use vstd::prelude::*;

use crate::commit::CommitChange;
use crate::graph::CommitTime;

verus! {

/// The changes of `s` recorded at or after `window`, in their order.
pub open spec fn kept_since(s: Seq<CommitChange>, window: CommitTime) -> Seq<CommitChange>
    decreases s.len(),
{
    if s.len() == 0 {
        seq![]
    } else {
        kept_since(s.drop_last(), window) + if s.last().time.at_least(window) {
            seq![s.last()]
        } else {
            seq![]
        }
    }
}

/// A list of changes that can be cut down to those of a time window.
pub trait Filterable {
    spec fn changes(&self) -> Seq<CommitChange>;

    /// The changes recorded at or after `window`, in their order.
    fn since(&self, window: CommitTime) -> (r: Vec<CommitChange>)
        ensures
            r@ == kept_since(self.changes(), window),
    ;
}

impl Filterable for Vec<CommitChange> {
    open spec fn changes(&self) -> Seq<CommitChange> {
        self@
    }

    fn since(&self, window: CommitTime) -> (r: Vec<CommitChange>) {
        let mut filtered: Vec<CommitChange> = Vec::new();
        let mut i: usize = 0;
        while i < self.len()
            invariant
                i <= self@.len(),
                filtered@ == kept_since(self@.subrange(0, i as int), window),
            decreases self.len() - i,
        {
            let ghost before = self@.subrange(0, i as int);
            assert(self@.subrange(0, i + 1).drop_last() =~= before);
            if self[i].time.is_at_least(&window) {
                filtered.push(self[i].clone());
                assert(filtered@ =~= kept_since(self@.subrange(0, i + 1), window));
            } else {
                assert(filtered@ =~= kept_since(self@.subrange(0, i + 1), window));
            }
            i = i + 1;
        }
        assert(self@.subrange(0, self@.len() as int) =~= self@);
        filtered
    }
}

/// Every change kept by the filter is one of the input's and lies in the window.
pub proof fn lemma_since_kept(s: Seq<CommitChange>, window: CommitTime)
    ensures
        forall|c: CommitChange|
            #[trigger] kept_since(s, window).contains(c) <==> s.contains(c) && c.time.at_least(window),
    decreases s.len(),
{
    if s.len() > 0 {
        lemma_since_kept(s.drop_last(), window);
        let head = kept_since(s.drop_last(), window);
        let all = kept_since(s, window);
        assert forall|c: CommitChange| #[trigger] all.contains(c) <==> s.contains(c) && c.time.at_least(window) by {
            if all.contains(c) {
                let q = choose|q: int| 0 <= q < all.len() && all[q] == c;
                if q < head.len() {
                    assert(head.contains(c));
                    let p = choose|p: int| 0 <= p < s.drop_last().len() && s.drop_last()[p] == c;
                    assert(s[p] == c);
                } else {
                    assert(s[s.len() - 1] == c);
                }
            }
            if s.contains(c) && c.time.at_least(window) {
                let p = choose|p: int| 0 <= p < s.len() && s[p] == c;
                if p < s.len() - 1 {
                    assert(s.drop_last()[p] == c);
                    assert(head.contains(c));
                    let q = choose|q: int| 0 <= q < head.len() && head[q] == c;
                    assert(all[q] == c);
                } else {
                    assert(all[all.len() - 1] == c);
                }
            }
        }
    }
}

/// Filtering with a window `late` at or after `early` keeps the same changes
/// whether or not the input was first filtered with `early`.
pub proof fn lemma_since_narrows(s: Seq<CommitChange>, early: CommitTime, late: CommitTime)
    requires
        late.at_least(early),
    ensures
        kept_since(kept_since(s, early), late) == kept_since(s, late),
    decreases s.len(),
{
    if s.len() > 0 {
        lemma_since_narrows(s.drop_last(), early, late);
        let head = kept_since(s.drop_last(), early);
        if s.last().time.at_least(early) {
            let once = head.push(s.last());
            assert(kept_since(s, early) =~= once);
            assert(once.drop_last() =~= head);
            assert(kept_since(once, late) =~= kept_since(s, late));
        } else {
            assert(kept_since(s, early) =~= head);
            assert(kept_since(s, late) =~= kept_since(s.drop_last(), late));
        }
    }
}

/// Filtering twice with one window gives what filtering once gives.
pub proof fn lemma_since_idempotent(s: Seq<CommitChange>, window: CommitTime)
    ensures
        kept_since(kept_since(s, window), window) == kept_since(s, window),
{
    lemma_since_narrows(s, window, window);
}

/// A later window keeps a part of what an earlier window keeps: every change
/// kept with `late` is kept with `early` too.
pub proof fn lemma_since_monotonic(s: Seq<CommitChange>, early: CommitTime, late: CommitTime)
    requires
        late.at_least(early),
    ensures
        forall|c: CommitChange|
            #[trigger] kept_since(s, late).contains(c) ==> kept_since(s, early).contains(c),
        kept_since(kept_since(s, early), late) == kept_since(s, late),
{
    lemma_since_narrows(s, early, late);
    lemma_since_kept(s, early);
    lemma_since_kept(s, late);
}

} // verus!
