use vstd::prelude::*;

use crate::commit::{
    authored_by, authored_keep, authored_nodes, branch_keep, branch_nodes, has_message, is_ignored,
    lemma_kept_asc, lemma_kept_desc, unmerged_nodes, walks_branch, Branch,
};
use crate::graph::CommitGraph;

verus! {

/// The commits selected by author are exactly the commits reachable from the
/// tip whose author email equals the queried email and whose message was
/// read, each once, whatever the shape of the graph.
pub proof fn lemma_author_filter_exact(g: &CommitGraph, tip: int, email: Seq<char>)
    ensures
        forall|j: int|
            authored_nodes(g, tip, email).contains(j) <==> 0 <= j < g.len() && g.reachable(tip, j)
                && authored_by(g, j, email) && has_message(g, j),
        forall|a: int, b: int|
            0 <= a < b < authored_nodes(g, tip, email).len() ==> authored_nodes(g, tip, email)[a]
                != authored_nodes(g, tip, email)[b],
{
    lemma_kept_desc(authored_keep(g, tip, email), 0, g.len() as int);
}

/// Within one branch's walk every commit is reported once, parents first.
pub proof fn lemma_branch_reports_once(g: &CommitGraph, base: int, tip: int, email: Seq<char>)
    ensures
        forall|j: int|
            branch_nodes(g, base, tip, email).contains(j) <==> 0 <= j < g.len() && g.reachable(tip, j)
                && !g.reachable(base, j) && authored_by(g, j, email),
        forall|a: int, b: int|
            0 <= a < b < branch_nodes(g, base, tip, email).len() ==> branch_nodes(g, base, tip, email)[a]
                < branch_nodes(g, base, tip, email)[b],
{
    lemma_kept_asc(branch_keep(g, base, tip, email), 0, g.len() as int);
}

/// Every unmerged commit comes from a walked branch's own walk.
pub proof fn lemma_unmerged_origin(
    g: &CommitGraph,
    base: int,
    branches: Seq<Branch>,
    ignored: Seq<String>,
    owner: Seq<char>,
    email: Seq<char>,
)
    ensures
        forall|j: int|
            #[trigger] unmerged_nodes(g, base, branches, ignored, owner, email).contains(j) ==> exists|k: int|
                0 <= k < branches.len() && walks_branch((#[trigger] branches[k]).name@, ignored, owner)
                    && branch_nodes(g, base, branches[k].tip as int, email).contains(j),
    decreases branches.len(),
{
    if branches.len() > 0 {
        let pre = branches.drop_last();
        let b = branches.last();
        lemma_unmerged_origin(g, base, pre, ignored, owner, email);
        let part = if walks_branch(b.name@, ignored, owner) {
            branch_nodes(g, base, b.tip as int, email)
        } else {
            seq![]
        };
        let head = unmerged_nodes(g, base, pre, ignored, owner, email);
        assert forall|j: int| #[trigger] unmerged_nodes(g, base, branches, ignored, owner, email).contains(j) implies exists|k: int|
            0 <= k < branches.len() && walks_branch((#[trigger] branches[k]).name@, ignored, owner)
                && branch_nodes(g, base, branches[k].tip as int, email).contains(j) by {
            let all = head + part;
            let q = choose|q: int| 0 <= q < all.len() && all[q] == j;
            if q < head.len() {
                assert(head.contains(j));
                let k = choose|k: int|
                    0 <= k < pre.len() && walks_branch((#[trigger] pre[k]).name@, ignored, owner)
                        && branch_nodes(g, base, pre[k].tip as int, email).contains(j);
                assert(branches[k] == pre[k]);
            } else {
                assert(part.contains(j)) by {
                    assert(part[q - head.len()] == j);
                }
                assert(branches[branches.len() - 1] == b);
            }
        }
    }
}

/// No unmerged commit is reachable from the base tip, even where it is also
/// reachable from a walked branch's tip.
pub proof fn lemma_unmerged_excludes_base(
    g: &CommitGraph,
    base: int,
    branches: Seq<Branch>,
    ignored: Seq<String>,
    owner: Seq<char>,
    email: Seq<char>,
)
    ensures
        forall|j: int|
            #[trigger] unmerged_nodes(g, base, branches, ignored, owner, email).contains(j) ==> !g.reachable(base, j),
{
    lemma_unmerged_origin(g, base, branches, ignored, owner, email);
    assert forall|j: int| #[trigger] unmerged_nodes(g, base, branches, ignored, owner, email).contains(j) implies !g.reachable(base, j) by {
        let k = choose|k: int|
            0 <= k < branches.len() && walks_branch((#[trigger] branches[k]).name@, ignored, owner)
                && branch_nodes(g, base, branches[k].tip as int, email).contains(j);
        lemma_branch_reports_once(g, base, branches[k].tip as int, email);
    }
}

/// A branch whose name is in the ignore list contributes no commit: every
/// unmerged commit comes from the walk of a branch that is not ignored.
pub proof fn lemma_ignored_branches_contribute_nothing(
    g: &CommitGraph,
    base: int,
    branches: Seq<Branch>,
    ignored: Seq<String>,
    owner: Seq<char>,
    email: Seq<char>,
)
    ensures
        forall|j: int|
            #[trigger] unmerged_nodes(g, base, branches, ignored, owner, email).contains(j) ==> exists|k: int|
                0 <= k < branches.len() && !is_ignored((#[trigger] branches[k]).name@, ignored)
                    && branch_nodes(g, base, branches[k].tip as int, email).contains(j),
{
    lemma_unmerged_origin(g, base, branches, ignored, owner, email);
}

/// How many times `n` occurs in `s`.
pub open spec fn occurrences(s: Seq<int>, n: int) -> nat
    decreases s.len(),
{
    if s.len() == 0 {
        0
    } else {
        occurrences(s.drop_last(), n) + if s.last() == n {
            1nat
        } else {
            0nat
        }
    }
}

/// How many walked branches have `n` among their own unmerged commits.
pub open spec fn branches_reporting(
    g: &CommitGraph,
    base: int,
    branches: Seq<Branch>,
    ignored: Seq<String>,
    owner: Seq<char>,
    email: Seq<char>,
    n: int,
) -> nat
    decreases branches.len(),
{
    if branches.len() == 0 {
        0
    } else {
        let b = branches.last();
        branches_reporting(g, base, branches.drop_last(), ignored, owner, email, n) + if walks_branch(
            b.name@,
            ignored,
            owner,
        ) && branch_nodes(g, base, b.tip as int, email).contains(n) {
            1nat
        } else {
            0nat
        }
    }
}

proof fn lemma_occurrences_concat(a: Seq<int>, b: Seq<int>, n: int)
    ensures
        occurrences(a + b, n) == occurrences(a, n) + occurrences(b, n),
    decreases b.len(),
{
    if b.len() == 0 {
        assert(a + b =~= a);
    } else {
        lemma_occurrences_concat(a, b.drop_last(), n);
        assert((a + b).drop_last() =~= a + b.drop_last());
    }
}

proof fn lemma_occurrences_increasing(s: Seq<int>, n: int)
    requires
        forall|i: int, j: int| 0 <= i < j < s.len() ==> s[i] < s[j],
    ensures
        occurrences(s, n) == if s.contains(n) {
            1nat
        } else {
            0nat
        },
    decreases s.len(),
{
    if s.len() > 0 {
        let d = s.drop_last();
        lemma_occurrences_increasing(d, n);
        if s.last() == n {
            assert(!d.contains(n)) by {
                if d.contains(n) {
                    let q = choose|q: int| 0 <= q < d.len() && d[q] == n;
                    assert(s[q] < s[s.len() - 1]);
                }
            }
        } else {
            assert(s.contains(n) == d.contains(n)) by {
                if s.contains(n) {
                    let q = choose|q: int| 0 <= q < s.len() && s[q] == n;
                    assert(d[q] == n);
                }
                if d.contains(n) {
                    let q = choose|q: int| 0 <= q < d.len() && d[q] == n;
                    assert(s[q] == n);
                }
            }
        }
    }
}

/// Across branches a commit may be reported more than once: it occurs in the
/// unmerged result exactly once for each walked branch whose own walk holds
/// it, and never twice for one branch.
pub proof fn lemma_unmerged_count(
    g: &CommitGraph,
    base: int,
    branches: Seq<Branch>,
    ignored: Seq<String>,
    owner: Seq<char>,
    email: Seq<char>,
    n: int,
)
    ensures
        occurrences(unmerged_nodes(g, base, branches, ignored, owner, email), n) == branches_reporting(
            g,
            base,
            branches,
            ignored,
            owner,
            email,
            n,
        ),
    decreases branches.len(),
{
    if branches.len() > 0 {
        let b = branches.last();
        lemma_unmerged_count(g, base, branches.drop_last(), ignored, owner, email, n);
        let part = if walks_branch(b.name@, ignored, owner) {
            branch_nodes(g, base, b.tip as int, email)
        } else {
            seq![]
        };
        lemma_occurrences_concat(
            unmerged_nodes(g, base, branches.drop_last(), ignored, owner, email),
            part,
            n,
        );
        lemma_branch_reports_once(g, base, b.tip as int, email);
        lemma_occurrences_increasing(part, n);
        if !walks_branch(b.name@, ignored, owner) {
            assert(!part.contains(n));
        }
    }
}

} // verus!
