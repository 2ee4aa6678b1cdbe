use vstd::prelude::*;
use vstd::string::*;

use crate::graph::{CommitGraph, CommitTime, GraphError};
use crate::text::{contains_text, is_infix, same_text};
use crate::walker::{as_ints, reach_excluding_keep, reach_keep, walk, walk_excluding};

verus! {

/// The message reported for a commit whose message could not be read.
pub const NO_MESSAGE: &'static str = "<No message>";

/// A commit selected for a report: its message and its recorded instant.
#[derive(Debug)]
pub struct CommitChange {
    pub message: String,
    pub time: CommitTime,
}

impl Clone for CommitChange {
    fn clone(&self) -> (r: Self)
        ensures
            r == *self,
    {
        CommitChange { message: self.message.clone(), time: self.time }
    }
}

/// The UTC calendar day of a Unix timestamp written as `YYYY-MM-DD`, or
/// nothing where the timestamp lies outside the representable range.
pub uninterp spec fn utc_day_text(seconds: i64) -> Option<Seq<char>>;

/// Relies on chrono's `DateTime::from_timestamp`, which gives the UTC
/// date-time of a Unix timestamp or `None` out of range, and on its
/// `format("%Y-%m-%d")` to write the day.
#[verifier::external_body]
fn utc_day(seconds: i64) -> (r: Option<String>)
    ensures
        match r {
            Some(s) => utc_day_text(seconds) == Some(s@),
            None => utc_day_text(seconds) is None,
        },
{
    match chrono::DateTime::from_timestamp(seconds, 0) {
        Some(t) => Some(t.format("%Y-%m-%d").to_string()),
        None => None,
    }
}

/// The day written for a change: its UTC day, or empty where there is none.
pub open spec fn day_of(time: CommitTime) -> Seq<char> {
    match utc_day_text(time.seconds) {
        Some(d) => d,
        None => seq![],
    }
}

impl CommitChange {
    /// The UTC day of the change as `YYYY-MM-DD`, or the empty string.
    pub fn get_time(&self) -> (r: String)
        ensures
            r@ == day_of(self.time),
    {
        match utc_day(self.time.seconds) {
            Some(d) => d,
            None => String::new(),
        }
    }

    /// The report line of the change: `<day>: <message>`.
    pub fn to_line(&self) -> (r: String)
        ensures
            r@ == day_of(self.time) + ": "@ + self.message@,
    {
        let mut line = self.get_time();
        line.append(": ");
        line.append(self.message.as_str());
        line
    }
}

/// A local branch: its name and the node its tip resolves to.
#[derive(Debug)]
pub struct Branch {
    pub name: String,
    pub tip: usize,
}

/// The indices in `[lo, hi)` that `keep` holds of, highest first.
pub open spec fn kept_desc(keep: spec_fn(int) -> bool, lo: int, hi: int) -> Seq<int>
    decreases hi - lo,
{
    if lo >= hi {
        seq![]
    } else {
        kept_desc(keep, lo + 1, hi) + if keep(lo) {
            seq![lo]
        } else {
            seq![]
        }
    }
}

/// The indices in `[lo, hi)` that `keep` holds of, lowest first.
pub open spec fn kept_asc(keep: spec_fn(int) -> bool, lo: int, hi: int) -> Seq<int>
    decreases hi - lo,
{
    if lo >= hi {
        seq![]
    } else {
        kept_asc(keep, lo, hi - 1) + if keep(hi - 1) {
            seq![hi - 1]
        } else {
            seq![]
        }
    }
}

/// The author email of node `j` was read and equals `email`.
pub open spec fn authored_by(g: &CommitGraph, j: int, email: Seq<char>) -> bool {
    match g.nodes()[j].record.author_email {
        Some(e) => e@ == email,
        None => false,
    }
}

/// The message of node `j` was read and is not empty.
pub open spec fn has_message(g: &CommitGraph, j: int) -> bool {
    match g.nodes()[j].record.message {
        Some(m) => m@.len() > 0,
        None => false,
    }
}

/// The message reported for node `j`.
pub open spec fn message_text(g: &CommitGraph, j: int) -> Seq<char> {
    match g.nodes()[j].record.message {
        Some(m) => m@,
        None => NO_MESSAGE@,
    }
}

/// `r` reports the nodes `ns`, in that order.
pub open spec fn reports(g: &CommitGraph, ns: Seq<int>, r: Seq<CommitChange>) -> bool {
    &&& r.len() == ns.len()
    &&& forall|i: int|
        0 <= i < r.len() ==> (#[trigger] r[i]).time == g.nodes()[ns[i]].record.time
            && r[i].message@ == message_text(g, ns[i])
}

/// The commits by `email` with a message that are reachable from `tip`,
/// highest index first.
pub open spec fn authored_nodes(g: &CommitGraph, tip: int, email: Seq<char>) -> Seq<int> {
    kept_desc(authored_keep(g, tip, email), 0, g.len() as int)
}

pub open spec fn authored_keep(g: &CommitGraph, tip: int, email: Seq<char>) -> spec_fn(int) -> bool {
    |j: int| g.reachable(tip, j) && authored_by(g, j, email) && has_message(g, j)
}

/// The commits by `email` reachable from `tip` and not from `base`, parents
/// before children.
pub open spec fn branch_nodes(g: &CommitGraph, base: int, tip: int, email: Seq<char>) -> Seq<int> {
    kept_asc(branch_keep(g, base, tip, email), 0, g.len() as int)
}

pub open spec fn branch_keep(g: &CommitGraph, base: int, tip: int, email: Seq<char>) -> spec_fn(int) -> bool {
    |j: int| g.reachable(tip, j) && !g.reachable(base, j) && authored_by(g, j, email)
}

pub open spec fn is_ignored(name: Seq<char>, ignored: Seq<String>) -> bool {
    exists|k: int| 0 <= k < ignored.len() && (#[trigger] ignored[k])@ == name
}

/// A branch is walked when it is not ignored and its name holds the owner's mark.
pub open spec fn walks_branch(name: Seq<char>, ignored: Seq<String>, owner: Seq<char>) -> bool {
    !is_ignored(name, ignored) && is_infix(owner, name)
}

pub open spec fn ignored_view(ignored: Option<Vec<String>>) -> Seq<String> {
    match ignored {
        Some(v) => v@,
        None => seq![],
    }
}

/// The nodes reported for `branches`, branch after branch.
pub open spec fn unmerged_nodes(
    g: &CommitGraph,
    base: int,
    branches: Seq<Branch>,
    ignored: Seq<String>,
    owner: Seq<char>,
    email: Seq<char>,
) -> Seq<int>
    decreases branches.len(),
{
    if branches.len() == 0 {
        seq![]
    } else {
        let b = branches.last();
        unmerged_nodes(g, base, branches.drop_last(), ignored, owner, email) + if walks_branch(
            b.name@,
            ignored,
            owner,
        ) {
            branch_nodes(g, base, b.tip as int, email)
        } else {
            seq![]
        }
    }
}

/// The branch is walked and its tip names no node.
pub open spec fn walked_bad(g: &CommitGraph, b: Branch, ignored: Seq<String>, owner: Seq<char>) -> bool {
    walks_branch(b.name@, ignored, owner) && b.tip >= g.len()
}

/// Branch `k` is the first in list order that is walked and whose tip names
/// no node.
pub open spec fn first_bad_tip(
    g: &CommitGraph,
    branches: Seq<Branch>,
    ignored: Seq<String>,
    owner: Seq<char>,
    k: int,
) -> bool {
    &&& 0 <= k < branches.len()
    &&& walked_bad(g, branches[k], ignored, owner)
    &&& forall|q: int| 0 <= q < k ==> !walked_bad(g, #[trigger] branches[q], ignored, owner)
}

/// Some walked branch has a tip that names no node.
pub open spec fn bad_tip(
    g: &CommitGraph,
    branches: Seq<Branch>,
    ignored: Seq<String>,
    owner: Seq<char>,
) -> bool {
    exists|k: int|
        0 <= k < branches.len() && walks_branch((#[trigger] branches[k]).name@, ignored, owner)
            && branches[k].tip >= g.len()
}

pub proof fn lemma_kept_desc(keep: spec_fn(int) -> bool, lo: int, hi: int)
    ensures
        forall|j: int| kept_desc(keep, lo, hi).contains(j) <==> lo <= j < hi && keep(j),
        forall|a: int, b: int|
            0 <= a < b < kept_desc(keep, lo, hi).len() ==> kept_desc(keep, lo, hi)[a] > kept_desc(
                keep,
                lo,
                hi,
            )[b],
    decreases hi - lo,
{
    if lo < hi {
        lemma_kept_desc(keep, lo + 1, hi);
        let rest = kept_desc(keep, lo + 1, hi);
        let s = kept_desc(keep, lo, hi);
        assert forall|j: int| s.contains(j) <==> lo <= j < hi && keep(j) by {
            if s.contains(j) {
                let q = choose|q: int| 0 <= q < s.len() && s[q] == j;
                if q < rest.len() {
                    assert(rest.contains(j));
                }
            }
            if lo <= j < hi && keep(j) {
                if j == lo {
                    assert(s[s.len() - 1] == lo);
                } else {
                    assert(rest.contains(j));
                    let q = choose|q: int| 0 <= q < rest.len() && rest[q] == j;
                    assert(s[q] == j);
                }
            }
        }
        assert forall|a: int, b: int| 0 <= a < b < s.len() implies s[a] > s[b] by {
            if b < rest.len() {
                assert(s[a] == rest[a] && s[b] == rest[b]);
            } else {
                assert(rest.contains(s[a]));
            }
        }
    }
}

pub proof fn lemma_kept_asc(keep: spec_fn(int) -> bool, lo: int, hi: int)
    ensures
        forall|j: int| kept_asc(keep, lo, hi).contains(j) <==> lo <= j < hi && keep(j),
        forall|a: int, b: int|
            0 <= a < b < kept_asc(keep, lo, hi).len() ==> kept_asc(keep, lo, hi)[a] < kept_asc(
                keep,
                lo,
                hi,
            )[b],
    decreases hi - lo,
{
    if lo < hi {
        lemma_kept_asc(keep, lo, hi - 1);
        let rest = kept_asc(keep, lo, hi - 1);
        let s = kept_asc(keep, lo, hi);
        assert forall|j: int| s.contains(j) <==> lo <= j < hi && keep(j) by {
            if s.contains(j) {
                let q = choose|q: int| 0 <= q < s.len() && s[q] == j;
                if q < rest.len() {
                    assert(rest.contains(j));
                }
            }
            if lo <= j < hi && keep(j) {
                if j == hi - 1 {
                    assert(s[s.len() - 1] == hi - 1);
                } else {
                    assert(rest.contains(j));
                    let q = choose|q: int| 0 <= q < rest.len() && rest[q] == j;
                    assert(s[q] == j);
                }
            }
        }
        assert forall|a: int, b: int| 0 <= a < b < s.len() implies s[a] < s[b] by {
            if b < rest.len() {
                assert(s[a] == rest[a] && s[b] == rest[b]);
            } else {
                assert(rest.contains(s[a]));
            }
        }
    }
}

proof fn lemma_reports_push(g: &CommitGraph, ns: Seq<int>, r: Seq<CommitChange>, j: int, c: CommitChange)
    requires
        reports(g, ns, r),
        c.time == g.nodes()[j].record.time,
        c.message@ == message_text(g, j),
    ensures
        reports(g, ns.push(j), r.push(c)),
{
    assert forall|i: int| 0 <= i < r.len() + 1 implies (#[trigger] r.push(c)[i]).time == g.nodes()[ns.push(j)[i]].record.time
        && r.push(c)[i].message@ == message_text(g, ns.push(j)[i]) by {
        if i < r.len() {
            assert(r.push(c)[i] == r[i] && ns.push(j)[i] == ns[i]);
        }
    }
}

fn is_authored_by(g: &CommitGraph, j: usize, email: &str) -> (r: bool)
    requires
        j < g.len(),
    ensures
        r == authored_by(g, j as int, email@),
{
    match &g.node(j).record.author_email {
        Some(e) => same_text(e.as_str(), email),
        None => false,
    }
}

fn change_of(g: &CommitGraph, j: usize) -> (r: CommitChange)
    requires
        j < g.len(),
    ensures
        r.time == g.nodes()[j as int].record.time,
        r.message@ == message_text(g, j as int),
{
    let rec = &g.node(j).record;
    let message = match &rec.message {
        Some(m) => m.clone(),
        None => String::from_str(NO_MESSAGE),
    };
    CommitChange { message, time: rec.time }
}

/// The nodes of `s` that `q` holds of, in their order.
pub open spec fn select(s: Seq<int>, q: spec_fn(int) -> bool) -> Seq<int>
    decreases s.len(),
{
    if s.len() == 0 {
        seq![]
    } else {
        select(s.drop_last(), q) + if q(s.last()) {
            seq![s.last()]
        } else {
            seq![]
        }
    }
}

/// Keeping the indices that `p` holds of and then those that `q` holds of is
/// keeping those that both hold of.
pub proof fn lemma_select_kept_desc(p: spec_fn(int) -> bool, q: spec_fn(int) -> bool, pq: spec_fn(int) -> bool, lo: int, hi: int)
    requires
        forall|j: int| #[trigger] pq(j) == (p(j) && q(j)),
    ensures
        select(kept_desc(p, lo, hi), q) == kept_desc(pq, lo, hi),
    decreases hi - lo,
{
    if lo < hi {
        lemma_select_kept_desc(p, q, pq, lo + 1, hi);
        let rest = kept_desc(p, lo + 1, hi);
        if p(lo) {
            assert(kept_desc(p, lo, hi) =~= rest.push(lo));
            assert(rest.push(lo).drop_last() =~= rest);
        } else {
            assert(kept_desc(p, lo, hi) =~= rest);
        }
        assert(pq(lo) == (p(lo) && q(lo)));
    }
}

pub proof fn lemma_select_kept_asc(p: spec_fn(int) -> bool, q: spec_fn(int) -> bool, pq: spec_fn(int) -> bool, lo: int, hi: int)
    requires
        forall|j: int| #[trigger] pq(j) == (p(j) && q(j)),
    ensures
        select(kept_asc(p, lo, hi), q) == kept_asc(pq, lo, hi),
    decreases hi - lo,
{
    if lo < hi {
        lemma_select_kept_asc(p, q, pq, lo, hi - 1);
        let rest = kept_asc(p, lo, hi - 1);
        if p(hi - 1) {
            assert(kept_asc(p, lo, hi) =~= rest.push(hi - 1));
            assert(rest.push(hi - 1).drop_last() =~= rest);
        } else {
            assert(kept_asc(p, lo, hi) =~= rest);
        }
        assert(pq(hi - 1) == (p(hi - 1) && q(hi - 1)));
    }
}

/// The author filter: the node is by `email`, and has a message where one is
/// asked for.
pub open spec fn author_keep(g: &CommitGraph, email: Seq<char>, need_message: bool) -> spec_fn(int) -> bool {
    |j: int| authored_by(g, j, email) && (!need_message || has_message(g, j))
}

/// Appends to `commits` the changes of the walked `nodes` that pass the
/// author filter, in walk order.
fn append_authored(graph: &CommitGraph, nodes: &Vec<usize>, email: &str, need_message: bool, commits: &mut Vec<CommitChange>)
    requires
        forall|k: int| 0 <= k < nodes@.len() ==> #[trigger] nodes@[k] < graph.len(),
        reports(graph, seq![], old(commits)@),
    ensures
        reports(graph, select(as_ints(nodes@), author_keep(graph, email@, need_message)), final(commits)@),
{
    let ghost keep = author_keep(graph, email@, need_message);
    let mut k: usize = 0;
    while k < nodes.len()
        invariant
            forall|q: int| 0 <= q < nodes@.len() ==> #[trigger] nodes@[q] < graph.len(),
            k <= nodes@.len(),
            keep == author_keep(graph, email@, need_message),
            reports(graph, select(as_ints(nodes@.subrange(0, k as int)), keep), commits@),
        decreases nodes.len() - k,
    {
        let j = nodes[k];
        let ghost pre = as_ints(nodes@.subrange(0, k as int));
        let ghost next = as_ints(nodes@.subrange(0, k + 1));
        assert(next.drop_last() =~= pre);
        assert(next.last() == j as int);
        let ghost before = commits@;
        let by_author = is_authored_by(graph, j, email);
        let has_msg = match &graph.node(j).record.message {
            Some(m) => !m.as_str().is_empty(),
            None => false,
        };
        let take = by_author && (!need_message || has_msg);
        assert(has_msg == has_message(graph, j as int));
        assert(take == keep(j as int));
        if take {
            let c = change_of(graph, j);
            proof {
                lemma_reports_push(graph, select(pre, keep), before, j as int, c);
            }
            commits.push(c);
            assert(select(next, keep) =~= select(pre, keep).push(j as int));
        } else {
            assert(select(next, keep) =~= select(pre, keep));
        }
        k = k + 1;
    }
    assert(nodes@.subrange(0, nodes@.len() as int) =~= nodes@);
}

/// The commits by `email` that are reachable from the node `tip`, children
/// before parents (highest node index first); a commit whose message could
/// not be read or is empty is left out.
pub fn get_commits_by_email(graph: &CommitGraph, email: &str, tip: usize) -> (r: Result<
    Vec<CommitChange>,
    GraphError,
>)
    requires
        graph.wf(),
    ensures
        tip >= graph.len() <==> r == Err::<Vec<CommitChange>, GraphError>(
            GraphError::UnknownNode { index: tip },
        ),
        r.is_ok() <==> tip < graph.len(),
        r matches Ok(v) ==> reports(graph, authored_nodes(graph, tip as int, email@), v@),
{
    let nodes = match walk(graph, tip) {
        Ok(nodes) => nodes,
        Err(e) => return Err(e),
    };
    proof {
        lemma_walk_in_graph(graph, reach_keep(graph, tip as int), nodes@, false);
    }
    let mut commits: Vec<CommitChange> = Vec::new();
    append_authored(graph, &nodes, email, true, &mut commits);
    proof {
        lemma_select_kept_desc(
            reach_keep(graph, tip as int),
            author_keep(graph, email@, true),
            authored_keep(graph, tip as int, email@),
            0,
            graph.len() as int,
        );
    }
    Ok(commits)
}

/// A walk lists nodes of the graph only.
proof fn lemma_walk_in_graph(g: &CommitGraph, keep: spec_fn(int) -> bool, v: Seq<usize>, ascending: bool)
    requires
        ascending ==> as_ints(v) == kept_asc(keep, 0, g.len() as int),
        !ascending ==> as_ints(v) == kept_desc(keep, 0, g.len() as int),
    ensures
        forall|k: int| 0 <= k < v.len() ==> #[trigger] v[k] < g.len(),
{
    lemma_kept_desc(keep, 0, g.len() as int);
    lemma_kept_asc(keep, 0, g.len() as int);
    assert forall|k: int| 0 <= k < v.len() implies #[trigger] v[k] < g.len() by {
        assert(as_ints(v)[k] == v[k] as int);
        if ascending {
            assert(kept_asc(keep, 0, g.len() as int).contains(v[k] as int));
        } else {
            assert(kept_desc(keep, 0, g.len() as int).contains(v[k] as int));
        }
    }
}

fn is_listed(name: &String, ignored: &Vec<String>) -> (r: bool)
    ensures
        r == is_ignored(name@, ignored@),
{
    let mut k: usize = 0;
    while k < ignored.len()
        invariant
            k <= ignored@.len(),
            forall|q: int| 0 <= q < k ==> (#[trigger] ignored@[q])@ != name@,
        decreases ignored.len() - k,
    {
        if same_text(ignored[k].as_str(), name.as_str()) {
            return true;
        }
        k = k + 1;
    }
    false
}

proof fn lemma_reports_concat(g: &CommitGraph, ns1: Seq<int>, r1: Seq<CommitChange>, ns2: Seq<int>, r2: Seq<CommitChange>)
    requires
        reports(g, ns1, r1),
        reports(g, ns2, r2),
    ensures
        reports(g, ns1 + ns2, r1 + r2),
{
    assert forall|i: int| 0 <= i < r1.len() + r2.len() implies (#[trigger] (r1 + r2)[i]).time == g.nodes()[(ns1 + ns2)[i]].record.time
        && (r1 + r2)[i].message@ == message_text(g, (ns1 + ns2)[i]) by {
        if i < r1.len() {
            assert((r1 + r2)[i] == r1[i] && (ns1 + ns2)[i] == ns1[i]);
        } else {
            assert((r1 + r2)[i] == r2[i - r1.len()] && (ns1 + ns2)[i] == ns2[i - r1.len()]);
        }
    }
}

/// The commits by `email` on the walked local branches that are not
/// reachable from the base node `base_tip`, branch after branch, each
/// branch's commits parents first. A branch is walked when its name is not
/// among `ignored_branches` and holds `owner`. A base or walked branch tip
/// that names no node is an error.
pub fn get_unmerged_commits(
    graph: &CommitGraph,
    email: &str,
    base_tip: usize,
    branches: &Vec<Branch>,
    ignored_branches: Option<Vec<String>>,
    owner: &str,
) -> (r: Result<Vec<CommitChange>, GraphError>)
    requires
        graph.wf(),
    ensures
        r.is_err() <==> base_tip >= graph.len() || bad_tip(
            graph,
            branches@,
            ignored_view(ignored_branches),
            owner@,
        ),
        base_tip >= graph.len() ==> r == Err::<Vec<CommitChange>, GraphError>(
            GraphError::UnknownNode { index: base_tip },
        ),
        base_tip < graph.len() ==> (r matches Err(GraphError::UnknownNode { index }) ==> exists|k: int|
            first_bad_tip(graph, branches@, ignored_view(ignored_branches), owner@, k)
                && branches@[k].tip == index),
        r matches Ok(v) ==> reports(
            graph,
            unmerged_nodes(
                graph,
                base_tip as int,
                branches@,
                ignored_view(ignored_branches),
                owner@,
                email@,
            ),
            v@,
        ),
{
    let ignored = match ignored_branches {
        Some(v) => v,
        None => Vec::new(),
    };
    let ghost ig = ignored@;
    if base_tip >= graph.node_count() {
        return Err(GraphError::UnknownNode { index: base_tip });
    }
    let mut commits: Vec<CommitChange> = Vec::new();
    let mut k: usize = 0;
    while k < branches.len()
        invariant
            graph.wf(),
            base_tip < graph.len(),
            ig == ignored@,
            ig == ignored_view(ignored_branches),
            k <= branches@.len(),
            !bad_tip(graph, branches@.subrange(0, k as int), ig, owner@),
            reports(
                graph,
                unmerged_nodes(graph, base_tip as int, branches@.subrange(0, k as int), ig, owner@, email@),
                commits@,
            ),
        decreases branches.len() - k,
    {
        let branch = &branches[k];
        let ghost pre = branches@.subrange(0, k as int);
        let ghost next = branches@.subrange(0, k + 1);
        assert(next.drop_last() =~= pre);
        assert(next.last() == branches@[k as int]);
        let walk = !is_listed(&branch.name, &ignored) && contains_text(branch.name.as_str(), owner);
        if walk {
            if branch.tip >= graph.node_count() {
                assert(branches@[k as int] == *branch);
                assert(walks_branch(branches@[k as int].name@, ig, owner@));
                assert(bad_tip(graph, branches@, ig, owner@));
                assert forall|q: int| 0 <= q < k implies !walked_bad(graph, #[trigger] branches@[q], ig, owner@) by {
                    assert(pre[q] == branches@[q]);
                }
                assert(first_bad_tip(graph, branches@, ig, owner@, k as int));
                return Err(GraphError::UnknownNode { index: branch.tip });
            }
            let nodes = match walk_excluding(graph, branch.tip, base_tip) {
                Ok(nodes) => nodes,
                Err(e) => return Err(e),
            };
            let ghost before = commits@;
            let mut added: Vec<CommitChange> = Vec::new();
            proof {
                lemma_walk_in_graph(graph, reach_excluding_keep(graph, branch.tip as int, base_tip as int), nodes@, true);
            }
            append_authored(graph, &nodes, email, false, &mut added);
            let ghost added_v = added@;
            commits.append(&mut added);
            proof {
                lemma_select_kept_asc(
                    reach_excluding_keep(graph, branch.tip as int, base_tip as int),
                    author_keep(graph, email@, false),
                    branch_keep(graph, base_tip as int, branch.tip as int, email@),
                    0,
                    graph.len() as int,
                );
                lemma_reports_concat(
                    graph,
                    unmerged_nodes(graph, base_tip as int, pre, ig, owner@, email@),
                    before,
                    branch_nodes(graph, base_tip as int, branch.tip as int, email@),
                    added_v,
                );
            }
        } else {
            assert(unmerged_nodes(graph, base_tip as int, next, ig, owner@, email@) =~= unmerged_nodes(graph, base_tip as int, pre, ig, owner@, email@));
        }
        assert(!bad_tip(graph, next, ig, owner@)) by {
            if bad_tip(graph, next, ig, owner@) {
                let q = choose|q: int| 0 <= q < next.len() && walks_branch((#[trigger] next[q]).name@, ig, owner@) && next[q].tip >= graph.len();
                if q < k {
                    assert(pre[q] == next[q]);
                }
            }
        }
        k = k + 1;
    }
    assert(branches@.subrange(0, branches@.len() as int) =~= branches@);
    Ok(commits)
}

} // verus!
