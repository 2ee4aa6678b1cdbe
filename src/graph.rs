use vstd::prelude::*;

verus! {

/// The instant recorded with a commit: seconds since the Unix epoch and the
/// author's offset from UTC in minutes.
#[derive(Clone, Copy, Debug, PartialEq, Eq, Structural)]
pub struct CommitTime {
    pub seconds: i64,
    pub offset_minutes: i32,
}

impl CommitTime {
    /// Two recorded instants are ordered by their seconds first and by their
    /// offsets second, as the version-control backend orders them.
    pub open spec fn at_least(self, other: CommitTime) -> bool {
        self.seconds > other.seconds || (self.seconds == other.seconds
            && self.offset_minutes >= other.offset_minutes)
    }

    pub fn is_at_least(&self, other: &CommitTime) -> (r: bool)
        ensures
            r == self.at_least(*other),
    {
        self.seconds > other.seconds || (self.seconds == other.seconds
            && self.offset_minutes >= other.offset_minutes)
    }
}

/// What is read from one commit: its message and author email, where the
/// backend could read them, and its recorded instant.
#[derive(Debug)]
pub struct CommitRecord {
    pub message: Option<String>,
    pub time: CommitTime,
    pub author_email: Option<String>,
}

/// One node of the graph: its record and the indices of its parents.
#[derive(Debug)]
pub struct CommitNode {
    pub record: CommitRecord,
    pub parents: Vec<usize>,
}

/// A commit graph whose nodes are numbered so that every parent comes before
/// each of its children.
#[derive(Debug)]
pub struct CommitGraph {
    nodes: Vec<CommitNode>,
}

#[derive(Debug, Clone, Copy, PartialEq, Eq, Structural)]
pub enum GraphError {
    /// A node index names no node of the graph.
    UnknownNode { index: usize },
}

impl CommitGraph {
    pub closed spec fn nodes(&self) -> Seq<CommitNode> {
        self.nodes@
    }

    pub open spec fn len(&self) -> nat {
        self.nodes().len()
    }

    /// Node `p` is a parent of node `c`.
    pub open spec fn parent_of(&self, c: int, p: int) -> bool {
        0 <= c < self.len() && 0 <= p < self.len() && self.nodes()[c].parents@.contains(p as usize)
    }

    /// Every parent index is smaller than its child's index.
    pub open spec fn wf(&self) -> bool {
        forall|c: int, k: int|
            0 <= c < self.len() && 0 <= k < self.nodes()[c].parents@.len() ==> (
            #[trigger] self.nodes()[c].parents@[k]) < c
    }

    /// `p` is a path in the graph: each node after the first is a parent of
    /// the one before it.
    pub open spec fn is_path(&self, p: Seq<int>) -> bool {
        &&& p.len() >= 1
        &&& forall|k: int| 0 <= k < p.len() ==> 0 <= #[trigger] p[k] < self.len()
        &&& forall|k: int| 0 <= k < p.len() - 1 ==> self.parent_of(#[trigger] p[k], p[k + 1])
    }

    /// Node `t` is an ancestor of node `s`, or `s` itself.
    pub open spec fn reachable(&self, s: int, t: int) -> bool {
        exists|p: Seq<int>| #[trigger] self.is_path(p) && p[0] == s && p.last() == t
    }

    pub fn new() -> (r: CommitGraph)
        ensures
            r.wf(),
            r.len() == 0,
    {
        CommitGraph { nodes: Vec::new() }
    }

    pub fn node_count(&self) -> (r: usize)
        ensures
            r == self.len(),
    {
        self.nodes.len()
    }

    pub fn node(&self, i: usize) -> (r: &CommitNode)
        requires
            i < self.len(),
        ensures
            *r == self.nodes()[i as int],
    {
        &self.nodes[i]
    }

    /// Adds a commit whose parents are already in the graph and returns its
    /// index; a parent index that names no node yet is refused.
    pub fn push_commit(&mut self, record: CommitRecord, parents: Vec<usize>) -> (r: Result<
        usize,
        GraphError,
    >)
        requires
            old(self).wf(),
        ensures
            final(self).wf(),
            match r {
                Ok(i) => {
                    &&& i == old(self).len()
                    &&& (forall|k: int| 0 <= k < parents@.len() ==> parents@[k] < i)
                    &&& final(self).nodes() == old(self).nodes().push(
                        CommitNode { record, parents },
                    )
                },
                Err(GraphError::UnknownNode { index }) => {
                    &&& *final(self) == *old(self)
                    &&& exists|k: int|
                        0 <= k < parents@.len() && parents@[k] == index && index >= old(
                            self,
                        ).len()
                },
            },
            r.is_err() <==> exists|k: int|
                0 <= k < parents@.len() && parents@[k] >= old(self).len(),
    {
        let n = self.nodes.len();
        let mut k: usize = 0;
        while k < parents.len()
            invariant
                n == self.nodes@.len(),
                self.wf(),
                *self == *old(self),
                k <= parents@.len(),
                forall|j: int| 0 <= j < k ==> parents@[j] < n,
            decreases parents.len() - k,
        {
            if parents[k] >= n {
                return Err(GraphError::UnknownNode { index: parents[k] });
            }
            k = k + 1;
        }
        let ghost old_nodes = self.nodes@;
        self.nodes.push(CommitNode { record, parents });
        assert(self.nodes@ == old_nodes.push(self.nodes@[n as int]));
        Ok(n)
    }

    /// The nodes reachable from `tip`: entry `j` of the result says whether
    /// node `j` is `tip` or one of its ancestors.
    pub fn ancestor_mask(&self, tip: usize) -> (r: Vec<bool>)
        requires
            self.wf(),
            tip < self.len(),
        ensures
            r@.len() == self.len(),
            forall|j: int| 0 <= j < self.len() ==> (r@[j] <==> self.reachable(tip as int, j)),
    {
        let n = self.nodes.len();
        let mut mask: Vec<bool> = Vec::new();
        let mut i: usize = 0;
        while i < n
            invariant
                i <= n,
                n == self.len(),
                mask@.len() == i,
                forall|j: int| 0 <= j < i ==> mask@[j] == (j == tip),
            decreases n - i,
        {
            mask.push(i == tip);
            i = i + 1;
        }
        proof {
            let p = seq![tip as int];
            assert(self.is_path(p));
        }
        let mut i: usize = tip + 1;
        while i > 0
            invariant
                0 <= i <= tip + 1,
                tip < n,
                n == self.len(),
                self.wf(),
                mask@.len() == n,
                mask@[tip as int],
                forall|j: int| 0 <= j < n && #[trigger] mask@[j] ==> self.reachable(tip as int, j),
                forall|j: int| tip < j < n ==> !#[trigger] mask@[j],
                forall|c: int, p: int|
                    i <= c < n && mask@[c] && #[trigger] self.parent_of(c, p) ==> mask@[p],
            decreases i,
        {
            let c = i - 1;
            if mask[c] {
                let parents = &self.nodes[c].parents;
                let mut k: usize = 0;
                while k < parents.len()
                    invariant
                        c < n,
                        c <= tip,
                        i == c + 1,
                        n == self.len(),
                        self.wf(),
                        *parents == self.nodes()[c as int].parents,
                        k <= parents@.len(),
                        mask@.len() == n,
                        mask@[tip as int],
                        mask@[c as int],
                        forall|j: int|
                            0 <= j < n && #[trigger] mask@[j] ==> self.reachable(tip as int, j),
                        forall|j: int| tip < j < n ==> !#[trigger] mask@[j],
                        forall|cc: int, p: int|
                            i <= cc < n && mask@[cc] && #[trigger] self.parent_of(cc, p)
                                ==> mask@[p],
                        forall|q: int| 0 <= q < k ==> mask@[#[trigger] parents@[q] as int],
                    decreases parents.len() - k,
                {
                    let p = parents[k];
                    proof {
                        assert(self.nodes()[c as int].parents@[k as int] == p);
                        self.lemma_reach_parent(tip as int, c as int, p as int);
                    }
                    mask.set(p, true);
                    k = k + 1;
                }
                proof {
                    assert forall|pp: int| self.parent_of(c as int, pp) implies mask@[pp] by {
                        let q = choose|q: int|
                            0 <= q < parents@.len() && parents@[q] == pp as usize;
                        assert(mask@[parents@[q] as int]);
                    }
                }
            }
            i = c;
        }
        proof {
            assert forall|j: int| 0 <= j < self.len() && self.reachable(tip as int, j) implies mask@[j] by {
                let path = choose|path: Seq<int>|
                    #[trigger] self.is_path(path) && path[0] == tip && path.last() == j;
                self.lemma_closed_set_holds_path(mask@, path);
            }
        }
        mask
    }

    /// A parent of a node reachable from `s` is reachable from `s`.
    pub proof fn lemma_reach_parent(&self, s: int, c: int, p: int)
        requires
            self.reachable(s, c),
            self.parent_of(c, p),
        ensures
            self.reachable(s, p),
    {
        let path = choose|path: Seq<int>| #[trigger] self.is_path(path) && path[0] == s && path.last() == c;
        let longer = path.push(p);
        assert forall|q: int| 0 <= q < longer.len() - 1 implies self.parent_of(
            #[trigger] longer[q],
            longer[q + 1],
        ) by {
            if q < longer.len() - 2 {
                assert(longer[q] == path[q] && longer[q + 1] == path[q + 1]);
            }
        }
        assert(self.is_path(longer));
        assert(longer[0] == s && longer.last() == p);
    }

    /// A set of nodes that holds the start of a path and every parent of each
    /// of its nodes holds the whole path.
    proof fn lemma_closed_set_holds_path(&self, m: Seq<bool>, p: Seq<int>)
        requires
            self.is_path(p),
            m.len() == self.len(),
            m[p[0]],
            forall|c: int, q: int| 0 <= c < self.len() && m[c] && #[trigger] self.parent_of(c, q) ==> m[q],
        ensures
            m[p.last()],
        decreases p.len(),
    {
        if p.len() > 1 {
            let shorter = p.drop_last();
            assert(self.is_path(shorter)) by {
                assert forall|q: int| 0 <= q < shorter.len() - 1 implies self.parent_of(
                    #[trigger] shorter[q],
                    shorter[q + 1],
                ) by {
                    assert(shorter[q] == p[q] && shorter[q + 1] == p[q + 1]);
                }
            }
            self.lemma_closed_set_holds_path(m, shorter);
            assert(self.parent_of(p[p.len() - 2], p.last()));
        }
    }
}

} // verus!
