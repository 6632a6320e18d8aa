use vstd::prelude::*;
use vstd::pervasive::VecAdditionalExecFns;
use crate::artifact::{Artifact, ArtifactModel, has_id, models};
use crate::error::ClosureError;
use crate::graph::{contains_index, find_index, lemma_n_bound, DependencyGraph};

verus! {

/// The upload scheduler: owns a dependency graph together with the set of
/// artifacts already confirmed uploaded, hands out the artifacts that are
/// ready to upload now, and unlocks dependents the moment their last
/// outstanding dependency completes.
///
/// All three index vectors run over the node positions of `graph`. An
/// artifact is *pending* while its `uploaded` flag is false; it is
/// *delivered* once it has been pushed onto the ready queue, which happens
/// exactly once, at the moment it first becomes ready. `queue` holds the
/// delivered artifacts a consumer has not pulled yet, oldest first.
pub struct Scheduler {
    pub graph: DependencyGraph,
    pub uploaded: Vec<bool>,
    pub delivered: Vec<bool>,
    pub queue: Vec<usize>,
}

/// Are all dependencies of node `i` of `g` uploaded, according to the flag
/// sequence `up`?
pub open spec fn ready_in(g: DependencyGraph, up: Seq<bool>, i: int) -> bool {
    forall|j: int| 0 <= j < g.n() && #[trigger] g.is_dep(i, j) ==> up[j]
}

/// Every index of `row` is flagged in `up`.
pub open spec fn row_uploaded(row: Seq<usize>, up: Seq<bool>) -> bool {
    forall|k: int| #![trigger row[k]] 0 <= k < row.len() ==> up[row[k] as int]
}

/// Walking a dependency row is the same as checking readiness, node by node.
proof fn lemma_row_ready(g: DependencyGraph, up: Seq<bool>, i: int)
    requires
        g.wf(),
        up.len() == g.n(),
        0 <= i < g.n(),
    ensures
        row_uploaded(g.dep_at(i), up) <==> ready_in(g, up, i),
{
    lemma_n_bound(&g);
    if row_uploaded(g.dep_at(i), up) {
        assert forall|j: int| 0 <= j < g.n() && #[trigger] g.is_dep(i, j) implies up[j] by {
            assert(g.dep_at(i).contains(j as usize));
            let k = choose|k: int| 0 <= k < g.dep_at(i).len() && g.dep_at(i)[k] == j as usize;
            assert(up[g.dep_at(i)[k] as int]);
        }
    }
    if ready_in(g, up, i) {
        assert forall|k: int| 0 <= k < g.dep_at(i).len() implies up[#[trigger] g.dep_at(i)[k] as int] by {
            assert(g.dep_at(i)[k] < g.n());
            assert(g.dep_at(i).contains(g.dep_at(i)[k]));
            assert(g.is_dep(i, g.dep_at(i)[k] as int));
        }
    }
}

/// Does `up` flag every index that `row` holds? Executable mirror of
/// [`row_uploaded`].
fn row_all_uploaded(row: &Vec<usize>, up: &Vec<bool>) -> (r: bool)
    requires
        forall|k: int| #![trigger row@[k]] 0 <= k < row@.len() ==> row@[k] < up@.len(),
    ensures
        r == row_uploaded(row@, up@),
{
    let mut k: usize = 0;
    while k < row.len()
        invariant
            k <= row@.len(),
            forall|m: int| #![trigger row@[m]] 0 <= m < row@.len() ==> row@[m] < up@.len(),
            forall|m: int| #![trigger row@[m]] 0 <= m < k ==> up@[row@[m] as int],
        decreases row@.len() - k,
    {
        if !up[row[k]] {
            return false;
        }
        k += 1;
    }
    true
}

/// The node indices of `g` below `m` whose dependency row is empty, in
/// ascending order.
pub open spec fn initial_ready(g: DependencyGraph, m: int) -> Seq<usize>
    decreases m,
{
    if m <= 0 {
        Seq::empty()
    } else {
        let p = initial_ready(g, m - 1);
        if g.dep_at(m - 1).len() == 0 {
            p.push((m - 1) as usize)
        } else {
            p
        }
    }
}

impl Scheduler {
    /// Number of nodes of the underlying graph.
    pub open spec fn n(&self) -> int {
        self.graph.n()
    }

    /// The artifacts of the underlying graph, by model.
    pub open spec fn arts(&self) -> Seq<ArtifactModel> {
        self.graph.arts()
    }

    /// Are all dependencies of node `i` uploaded?
    pub open spec fn spec_ready(&self, i: int) -> bool {
        ready_in(self.graph, self.uploaded@, i)
    }

    /// Is every artifact uploaded?
    pub open spec fn spec_complete(&self) -> bool {
        forall|i: int| 0 <= i < self.uploaded@.len() ==> self.uploaded@[i]
    }

    /// The identities of the uploaded artifacts.
    pub open spec fn uploaded_ids(&self) -> Set<Seq<char>> {
        Set::new(
            |id: Seq<char>|
                exists|i: int|
                    0 <= i < self.n() && #[trigger] self.arts()[i].identity == id
                        && self.uploaded@[i],
        )
    }

    /// Well-formedness. Beyond the obvious shape conditions this carries the
    /// two facts the scheduling laws rest on: a delivered artifact has all
    /// its dependencies uploaded, and a ready artifact has always been
    /// delivered already unless it is itself uploaded. The queue holds only
    /// delivered artifacts, each at most once.
    pub open spec fn wf(&self) -> bool {
        &&& self.graph.wf()
        &&& self.uploaded@.len() == self.n()
        &&& self.delivered@.len() == self.n()
        &&& forall|k: int| 0 <= k < self.queue@.len() ==> (#[trigger] self.queue@[k]) < self.n()
        &&& forall|k: int|
            #![trigger self.queue@[k]]
            0 <= k < self.queue@.len() ==> self.delivered@[self.queue@[k] as int]
        &&& forall|k1: int, k2: int|
            0 <= k1 < k2 < self.queue@.len() ==> self.queue@[k1] != self.queue@[k2]
        &&& forall|i: int| 0 <= i < self.n() && #[trigger] self.delivered@[i] ==> self.spec_ready(i)
        &&& forall|i: int|
            0 <= i < self.n() && #[trigger] self.spec_ready(i) ==> (self.delivered@[i]
                || self.uploaded@[i])
    }

    /// Creates a scheduler for `graph` with nothing uploaded yet. The ready
    /// queue starts out holding exactly the artifacts without dependencies,
    /// in node order, so that the first wave is available before any
    /// `mark_uploaded` call.
    pub fn new(graph: DependencyGraph) -> (s: Scheduler)
        requires
            graph.wf(),
        ensures
            s.wf(),
            s.graph == graph,
            forall|i: int| 0 <= i < s.n() ==> !s.uploaded@[i],
            s.uploaded@.len() == graph.n(),
            forall|i: int|
                0 <= i < s.n() ==> (#[trigger] s.delivered@[i] <==> graph.dep_at(i).len() == 0),
            s.queue@ == initial_ready(graph, graph.n()),
    {
        let n = graph.nodes.len();
        let uploaded: Vec<bool> = vec![false; n];
        let mut delivered: Vec<bool> = Vec::new();
        let mut queue: Vec<usize> = Vec::new();
        let mut i: usize = 0;
        while i < n
            invariant
                graph.wf(),
                n == graph.nodes@.len(),
                i <= n,
                delivered@.len() == i,
                forall|m: int|
                    0 <= m < i ==> (#[trigger] delivered@[m] <==> graph.dep_at(m).len() == 0),
                queue@ == initial_ready(graph, i as int),
            decreases n - i,
        {
            if graph.deps[i].len() == 0 {
                delivered.push(true);
                queue.push(i);
            } else {
                delivered.push(false);
            }
            i += 1;
        }
        let s = Scheduler { graph, uploaded, delivered, queue };
        proof {
            assert forall|i: int| 0 <= i < s.n() && #[trigger] s.delivered@[i] implies s.spec_ready(
                i,
            ) by {
                lemma_row_ready(s.graph, s.uploaded@, i);
            }
            assert forall|i: int| 0 <= i < s.n() && #[trigger] s.spec_ready(i) implies (
            s.delivered@[i] || s.uploaded@[i]) by {
                lemma_row_ready(s.graph, s.uploaded@, i);
                if s.graph.dep_at(i).len() > 0 {
                    assert(s.graph.dep_at(i).contains(s.graph.dep_at(i)[0]));
                    assert(s.graph.is_dep(i, s.graph.dep_at(i)[0] as int));
                    assert(false);
                }
            }
            lemma_n_bound(&s.graph);
            lemma_initial_ready_props(s.graph, s.n());
        }
        s
    }

    /// Is the run over, that is, is every artifact confirmed uploaded?
    pub fn is_complete(&self) -> (r: bool)
        ensures
            r == self.spec_complete(),
    {
        let mut i: usize = 0;
        while i < self.uploaded.len()
            invariant
                i <= self.uploaded@.len(),
                forall|m: int| 0 <= m < i ==> self.uploaded@[m],
            decreases self.uploaded@.len() - i,
        {
            if !self.uploaded[i] {
                return false;
            }
            i += 1;
        }
        true
    }

    /// The pending artifacts all of whose dependencies are uploaded, in node
    /// order: everything that could be uploaded right now.
    pub fn ready_now(&self) -> (r: Vec<Artifact>)
        requires
            self.wf(),
        ensures
            models(r@) == self.spec_ready_now(self.n()),
    {
        let mut r: Vec<Artifact> = Vec::new();
        let mut i: usize = 0;
        while i < self.graph.nodes.len()
            invariant
                self.wf(),
                i <= self.n(),
                models(r@) == self.spec_ready_now(i as int),
            decreases self.n() - i,
        {
            proof {
                lemma_row_ready(self.graph, self.uploaded@, i as int);
            }
            if !self.uploaded[i] && row_all_uploaded(&self.graph.deps[i], &self.uploaded) {
                r.push(self.graph.nodes[i].clone());
                proof {
                    assert(models(r@) =~= self.spec_ready_now(i as int).push(
                        self.arts()[i as int],
                    ));
                }
            }
            i += 1;
        }
        r
    }

    /// The models of the pending-and-ready artifacts among the first `m`
    /// nodes, in node order.
    pub open spec fn spec_ready_now(&self, m: int) -> Seq<ArtifactModel>
        decreases m,
    {
        if m <= 0 {
            Seq::empty()
        } else {
            let p = self.spec_ready_now(m - 1);
            if !self.uploaded@[m - 1] && self.spec_ready(m - 1) {
                p.push(self.arts()[m - 1])
            } else {
                p
            }
        }
    }

    /// The node that carries identity `id`, where one exists.
    pub open spec fn index_of_id(&self, id: Seq<char>) -> int {
        choose|i: int| 0 <= i < self.n() && self.arts()[i].identity == id
    }

    /// Is a `mark_uploaded` call for `id` legal: the identity names a node
    /// and that node is still pending?
    pub open spec fn mark_ok(&self, id: Seq<char>) -> bool {
        has_id(self.arts(), id) && !self.uploaded@[self.index_of_id(id)]
    }

    /// Would marking node `idx` uploaded unlock node `j`: pending, not yet
    /// delivered, a dependent of `idx`, and with every other dependency
    /// already uploaded?
    pub open spec fn newly_ready(&self, idx: int, j: int) -> bool {
        &&& 0 <= j < self.n()
        &&& j != idx
        &&& !self.delivered@[j]
        &&& !self.uploaded@[j]
        &&& self.graph.is_dep(j, idx)
        &&& forall|k: int|
            0 <= k < self.n() && #[trigger] self.graph.is_dep(j, k) ==> (self.uploaded@[k] || k
                == idx)
    }

    /// The nodes below `m` that marking `idx` unlocks, in ascending order.
    pub open spec fn newly_ready_seq(&self, idx: int, m: int) -> Seq<usize>
        decreases m,
    {
        if m <= 0 {
            Seq::empty()
        } else {
            let p = self.newly_ready_seq(idx, m - 1);
            if self.newly_ready(idx, m - 1) {
                p.push((m - 1) as usize)
            } else {
                p
            }
        }
    }

    /// Reports that the artifact named `identity` finished uploading.
    ///
    /// A name no node carries is the caller's error `UnknownArtifact`; a
    /// node already uploaded is the caller's error `AlreadyUploaded`; both
    /// leave the scheduler untouched. Otherwise the node moves from pending
    /// to uploaded, and exactly the dependents whose last outstanding
    /// dependency this was are delivered: each is returned, flagged
    /// delivered, and appended to the ready queue, in node order.
    pub fn mark_uploaded(&mut self, identity: &String) -> (r: Result<
        Vec<Artifact>,
        ClosureError,
    >)
        requires
            old(self).wf(),
        ensures
            final(self).wf(),
            final(self).graph == old(self).graph,
            r is Ok <==> old(self).mark_ok(identity@),
            !has_id(old(self).arts(), identity@) ==> (*final(self) == *old(self) && (r matches Err(
                ClosureError::UnknownArtifact(id),
            ) && id@ == identity@)),
            has_id(old(self).arts(), identity@) && !old(self).mark_ok(identity@) ==> (*final(self)
                == *old(self) && (r matches Err(ClosureError::AlreadyUploaded(id)) && id@
                == identity@)),
            old(self).mark_ok(identity@) ==> spec_marked(
                *old(self),
                *final(self),
                old(self).index_of_id(identity@),
            ),
            r matches Ok(v) ==> models(v@) == arts_at(
                *old(self),
                old(self).newly_ready_seq(old(self).index_of_id(identity@), old(self).n()),
            ),
    {
        let ghost pre = *self;
        let idx: usize = match find_index(&self.graph.nodes, identity) {
            None => {
                return Err(ClosureError::UnknownArtifact(identity.clone()));
            },
            Some(i) => i,
        };
        proof {
            assert(has_id(pre.arts(), identity@)) by {
                assert(pre.arts()[idx as int].identity == identity@);
            }
            let i0 = pre.index_of_id(identity@);
            assert(0 <= i0 < pre.n() && pre.arts()[i0].identity == identity@);
            assert(i0 == idx as int) by {
                if i0 != idx as int {
                    assert(pre.arts()[i0].identity == pre.arts()[idx as int].identity);
                    assert(false);
                }
            }
        }
        if self.uploaded[idx] {
            return Err(ClosureError::AlreadyUploaded(identity.clone()));
        }
        self.uploaded.set(idx, true);
        let mut unlocked: Vec<Artifact> = Vec::new();
        let mut j: usize = 0;
        while j < self.graph.nodes.len()
            invariant
                pre.wf(),
                0 <= idx < pre.n(),
                !pre.uploaded@[idx as int],
                self.graph == pre.graph,
                self.uploaded@ == pre.uploaded@.update(idx as int, true),
                self.delivered@.len() == pre.n(),
                forall|m: int|
                    #![trigger self.delivered@[m]]
                    0 <= m < pre.n() ==> self.delivered@[m] == (pre.delivered@[m] || (m < j
                        && pre.newly_ready(idx as int, m))),
                self.queue@ == pre.queue@ + pre.newly_ready_seq(idx as int, j as int),
                models(unlocked@) == arts_at(pre, pre.newly_ready_seq(idx as int, j as int)),
                j <= pre.n(),
            decreases pre.n() - j,
        {
            let ghost jj = j as int;
            let ghost ii = idx as int;
            let dep_on_idx = contains_index(&self.graph.deps[j], idx);
            let pending = !self.delivered[j] && !self.uploaded[j];
            let mut is_new = false;
            if pending && dep_on_idx {
                proof {
                    assert forall|k: int|
                        0 <= k < self.graph.deps@[jj]@.len() implies self.graph.deps@[jj]@[k]
                        < self.uploaded@.len() by {
                        assert(self.graph.dep_at(jj)[k] < self.graph.n());
                    }
                }
                is_new = row_all_uploaded(&self.graph.deps[j], &self.uploaded);
            }
            proof {
                lemma_row_ready(pre.graph, self.uploaded@, jj);
                assert(self.graph.deps@[jj]@ == pre.graph.dep_at(jj));
                if pre.newly_ready(ii, jj) && !is_new {
                    assert(!pre.delivered@[jj]);
                    assert(self.delivered@[jj] == pre.delivered@[jj]);
                    assert(!self.uploaded@[jj]);
                    assert(pre.graph.is_dep(jj, ii));
                    assert(self.graph.deps@[jj]@.contains(idx));
                    assert(dep_on_idx && pending);
                    assert(ready_in(pre.graph, self.uploaded@, jj)) by {
                        assert forall|k: int|
                            0 <= k < pre.graph.n() && #[trigger] pre.graph.is_dep(jj, k) implies self
                            .uploaded@[k] by {
                            assert(pre.uploaded@[k] || k == ii);
                        }
                    }
                    assert(row_uploaded(pre.graph.dep_at(jj), self.uploaded@));
                    assert(is_new);
                    assert(false);
                }
                if is_new && !pre.newly_ready(ii, jj) {
                    assert(pending && dep_on_idx);
                    assert(!pre.delivered@[jj]);
                    assert(!pre.uploaded@[jj]);
                    assert(self.uploaded@[ii]);
                    assert(jj != ii);
                    assert(pre.graph.is_dep(jj, ii)) by {
                        assert(self.graph.deps@[jj]@.contains(idx));
                    }
                    assert(row_uploaded(pre.graph.dep_at(jj), self.uploaded@));
                    assert(ready_in(pre.graph, self.uploaded@, jj));
                    assert forall|k: int|
                        0 <= k < pre.n() && #[trigger] pre.graph.is_dep(jj, k) implies (pre
                        .uploaded@[k] || k == ii) by {
                        assert(self.uploaded@[k]);
                    }
                    assert(pre.newly_ready(ii, jj));
                    assert(false);
                }
                assert(is_new == pre.newly_ready(ii, jj));
                assert(pre.newly_ready_seq(ii, jj + 1) == if pre.newly_ready(ii, jj) {
                    pre.newly_ready_seq(ii, jj).push(j)
                } else {
                    pre.newly_ready_seq(ii, jj)
                });
            }
            if is_new {
                let ghost unlocked0 = unlocked@;
                self.delivered.set(j, true);
                self.queue.push(j);
                let an = self.graph.nodes[j].clone();
                let ghost ang = an;
                unlocked.push(an);
                proof {
                    let prev = pre.newly_ready_seq(ii, jj);
                    assert(self.queue@ =~= pre.queue@ + prev.push(j));
                    assert(unlocked@ == unlocked0.push(ang));
                    assert(ang@ == pre.arts()[jj]);
                    unlocked0.lemma_push_map_commute(|a: Artifact| a@, ang);
                    assert(models(unlocked@) == models(unlocked0).push(ang@));
                    prev.lemma_push_map_commute(|x: usize| pre.arts()[x as int], j);
                    assert(arts_at(pre, prev.push(j)) == arts_at(pre, prev).push(
                        pre.arts()[j as int],
                    ));
                    assert(models(unlocked@) == arts_at(pre, pre.newly_ready_seq(ii, jj + 1)));
                }
            }
            proof {
                assert forall|m: int|
                    #![trigger self.delivered@[m]]
                    0 <= m < pre.n() implies self.delivered@[m] == (pre.delivered@[m] || (m < jj
                    + 1 && pre.newly_ready(ii, m))) by {
                    if m == jj {
                        assert(self.delivered@[jj] == (pre.delivered@[jj] || pre.newly_ready(
                            ii,
                            jj,
                        )));
                    }
                }
            }
            j += 1;
        }
        proof {
            lemma_n_bound(&pre.graph);
            lemma_newly_seq_props(pre, idx as int, pre.n());
            assert(j as int == pre.n());
            let newly = pre.newly_ready_seq(idx as int, pre.n());
            assert(self.queue@ == pre.queue@ + newly);
            assert forall|k: int|
                #![trigger self.queue@[k]]
                0 <= k < self.queue@.len() implies self.queue@[k] < self.n()
                && self.delivered@[self.queue@[k] as int] by {
                if k < pre.queue@.len() {
                    assert(self.queue@[k] == pre.queue@[k]);
                    assert(pre.delivered@[pre.queue@[k] as int]);
                } else {
                    assert(self.queue@[k] == newly[k - pre.queue@.len()]);
                    let y = newly[k - pre.queue@.len()];
                    assert(pre.newly_ready(idx as int, y as int));
                    assert(self.delivered@[y as int] == (pre.delivered@[y as int]
                        || pre.newly_ready(idx as int, y as int)));
                }
            }
            assert forall|k1: int, k2: int| 0 <= k1 < k2 < self.queue@.len() implies self
                .queue@[k1] != self.queue@[k2] by {
                if k2 < pre.queue@.len() {
                    assert(self.queue@[k1] == pre.queue@[k1]);
                    assert(self.queue@[k2] == pre.queue@[k2]);
                } else if k1 >= pre.queue@.len() {
                    assert(self.queue@[k1] == newly[k1 - pre.queue@.len()]);
                    assert(self.queue@[k2] == newly[k2 - pre.queue@.len()]);
                    assert(newly[k1 - pre.queue@.len()] < newly[k2 - pre.queue@.len()]);
                } else {
                    let x = pre.queue@[k1];
                    let y = newly[k2 - pre.queue@.len()];
                    assert(self.queue@[k1] == x);
                    assert(self.queue@[k2] == y);
                    assert(pre.delivered@[x as int]);
                    assert(pre.newly_ready(idx as int, y as int));
                    assert(!pre.delivered@[y as int]);
                }
            }
            assert forall|i: int|
                0 <= i < self.n() && #[trigger] self.delivered@[i] implies self.spec_ready(i) by {
                assert forall|k: int|
                    0 <= k < self.graph.n() && #[trigger] self.graph.is_dep(i, k) implies self
                    .uploaded@[k] by {
                    assert(pre.graph.is_dep(i, k));
                    if pre.delivered@[i] {
                        assert(pre.spec_ready(i));
                        assert(pre.uploaded@[k]);
                    } else {
                        assert(pre.newly_ready(idx as int, i));
                        assert(pre.uploaded@[k] || k == idx as int);
                    }
                }
            }
            assert forall|i: int|
                0 <= i < self.n() && #[trigger] self.spec_ready(i) implies (self.delivered@[i]
                || self.uploaded@[i]) by {
                if !self.uploaded@[i] && !pre.delivered@[i] {
                    assert(!pre.uploaded@[i] && i != idx as int);
                    if pre.graph.is_dep(i, idx as int) {
                        assert forall|k: int|
                            0 <= k < pre.n() && #[trigger] pre.graph.is_dep(i, k) implies (pre
                            .uploaded@[k] || k == idx as int) by {
                            assert(self.graph.is_dep(i, k));
                            assert(self.uploaded@[k]);
                        }
                        assert(pre.newly_ready(idx as int, i));
                        assert(self.delivered@[i] == (pre.delivered@[i] || pre.newly_ready(
                            idx as int,
                            i,
                        )));
                    } else {
                        assert(pre.spec_ready(i)) by {
                            assert forall|k: int|
                                0 <= k < pre.n() && #[trigger] pre.graph.is_dep(i, k) implies pre
                                .uploaded@[k] by {
                                assert(self.graph.is_dep(i, k));
                                assert(self.uploaded@[k]);
                                assert(k != idx as int);
                            }
                        }
                        assert(pre.delivered@[i] || pre.uploaded@[i]);
                        assert(false);
                    }
                }
            }
            assert(self.wf());
            assert(spec_marked(pre, *self, idx as int));
        }
        Ok(unlocked)
    }
}

impl Scheduler {
    /// The identities of the pending artifacts among the first `m` nodes,
    /// in node order.
    pub open spec fn pending_ids(&self, m: int) -> Seq<Seq<char>>
        decreases m,
    {
        if m <= 0 {
            Seq::empty()
        } else {
            let p = self.pending_ids(m - 1);
            if !self.uploaded@[m - 1] {
                p.push(self.arts()[m - 1].identity)
            } else {
                p
            }
        }
    }

    /// Pulls the next artifact from the ready queue: the oldest delivered
    /// artifact not yet handed to the consumer, or `None` when the queue is
    /// momentarily empty. Together with the queue ensures of `new` and
    /// `mark_uploaded` this is the ready sequence, one element per call.
    pub fn next_ready(&mut self) -> (r: Option<Artifact>)
        requires
            old(self).wf(),
        ensures
            final(self).wf(),
            final(self).graph == old(self).graph,
            final(self).uploaded@ == old(self).uploaded@,
            final(self).delivered@ == old(self).delivered@,
            old(self).queue@.len() == 0 ==> (r is None && final(self).queue@ == old(self).queue@),
            old(self).queue@.len() > 0 ==> (final(self).queue@ == old(self).queue@.drop_first() && (
            r matches Some(a) && a@ == old(self).arts()[old(self).queue@[0] as int])),
    {
        if self.queue.len() == 0 {
            None
        } else {
            let ghost pre = *self;
            let i = self.queue.remove(0);
            let a = self.graph.nodes[i].clone();
            proof {
                assert(self.queue@ =~= pre.queue@.drop_first());
                assert forall|k: int|
                    #![trigger self.queue@[k]]
                    0 <= k < self.queue@.len() implies self.queue@[k] < self.n()
                    && self.delivered@[self.queue@[k] as int] by {
                    assert(self.queue@[k] == pre.queue@[k + 1]);
                }
                assert forall|k1: int, k2: int| 0 <= k1 < k2 < self.queue@.len() implies self
                    .queue@[k1] != self.queue@[k2] by {
                    assert(self.queue@[k1] == pre.queue@[k1 + 1]);
                    assert(self.queue@[k2] == pre.queue@[k2 + 1]);
                }
                assert(self.graph == pre.graph && self.uploaded@ == pre.uploaded@
                    && self.delivered@ == pre.delivered@);
                assert forall|ii: int|
                    0 <= ii < self.n() && #[trigger] self.delivered@[ii] implies self.spec_ready(
                    ii,
                ) by {
                    assert(pre.delivered@[ii]);
                    assert(ready_in(pre.graph, pre.uploaded@, ii));
                    assert(ready_in(self.graph, self.uploaded@, ii));
                }
                assert forall|ii: int|
                    0 <= ii < self.n() && #[trigger] self.spec_ready(ii) implies (self
                    .delivered@[ii] || self.uploaded@[ii]) by {
                    assert(ready_in(pre.graph, pre.uploaded@, ii));
                    assert(pre.spec_ready(ii));
                    assert(pre.delivered@[ii] || pre.uploaded@[ii]);
                }
                assert(self.wf());
            }
            Some(a)
        }
    }

    /// Checks that the run can still make progress. `Ok` while some pending
    /// artifact is ready, or when nothing is pending any more; otherwise the
    /// artifacts left pending can only be waiting on one another, and they
    /// are returned as `CycleDetected`. (A caller with uploads still in
    /// flight should ask again after they complete rather than treat a
    /// momentary stall as a cycle.)
    pub fn cycle_check(&self) -> (r: Result<(), ClosureError>)
        requires
            self.wf(),
        ensures
            r is Ok <==> (self.spec_complete() || exists|i: int|
                0 <= i < self.n() && !self.uploaded@[i] && self.spec_ready(i)),
            r matches Err(ClosureError::CycleDetected(ids)) ==> ids@.map_values(|s: String| s@)
                == self.pending_ids(self.n()),
            r matches Err(e) ==> e matches ClosureError::CycleDetected(_),
    {
        let mut i: usize = 0;
        let mut any_pending = false;
        while i < self.graph.nodes.len()
            invariant
                self.wf(),
                i <= self.n(),
                any_pending == exists|m: int| 0 <= m < i && !self.uploaded@[m],
                forall|m: int| 0 <= m < i && !self.uploaded@[m] ==> !self.spec_ready(m),
            decreases self.n() - i,
        {
            if !self.uploaded[i] {
                any_pending = true;
                proof {
                    assert forall|k: int|
                        0 <= k < self.graph.deps@[i as int]@.len() implies self.graph.deps@[i as int]@[k]
                        < self.uploaded@.len() by {
                        assert(self.graph.dep_at(i as int)[k] < self.graph.n());
                    }
                    lemma_row_ready(self.graph, self.uploaded@, i as int);
                }
                if row_all_uploaded(&self.graph.deps[i], &self.uploaded) {
                    proof {
                        assert(row_uploaded(self.graph.dep_at(i as int), self.uploaded@));
                        assert(self.spec_ready(i as int));
                    }
                    return Ok(());
                }
            }
            i += 1;
        }
        if !any_pending {
            return Ok(());
        }
        let mut ids: Vec<String> = Vec::new();
        let mut i: usize = 0;
        while i < self.graph.nodes.len()
            invariant
                self.wf(),
                i <= self.n(),
                ids@.map_values(|s: String| s@) == self.pending_ids(i as int),
            decreases self.n() - i,
        {
            if !self.uploaded[i] {
                let ghost ids0 = ids@;
                let idc = self.graph.nodes[i].identity.clone();
                let ghost idg = idc;
                ids.push(idc);
                proof {
                    assert(ids@ == ids0.push(idg));
                    ids0.lemma_push_map_commute(|s: String| s@, idg);
                    assert(ids@.map_values(|s: String| s@) == ids0.map_values(|s: String| s@).push(
                        idg@,
                    ));
                    assert(idg@ == self.arts()[i as int].identity);
                    assert(self.pending_ids(i + 1) == self.pending_ids(i as int).push(
                        self.arts()[i as int].identity,
                    ));
                }
            }
            i += 1;
        }
        Err(ClosureError::CycleDetected(ids))
    }
}

/// No premature upload: once the ready sequence has carried an artifact,
/// every identity its reference list names — other than its own — belongs
/// to an already-uploaded artifact. A consumer that marks only artifacts
/// the sequence delivered therefore never uploads anything before its
/// dependencies, whatever order its `mark_uploaded` calls arrive in.
pub proof fn lemma_no_premature_upload(s: Scheduler, i: int, k: int)
    requires
        s.wf(),
        0 <= i < s.n(),
        s.delivered@[i],
        0 <= k < s.arts()[i].references.len(),
        s.arts()[i].references[k] != s.arts()[i].identity,
    ensures
        s.uploaded_ids().contains(s.arts()[i].references[k]),
{
    let id = s.arts()[i].references[k];
    assert(has_id(s.arts(), id));
    let j = choose|j: int| 0 <= j < s.arts().len() && s.arts()[j].identity == id;
    assert(j != i);
    assert(s.arts()[i].references.contains(id)) by {
        assert(s.arts()[i].references[k] == id);
    }
    assert(s.graph.is_dep(i, j));
    assert(s.spec_ready(i));
    assert(s.uploaded@[j]);
    assert(s.arts()[j].identity == id);
}

/// Completeness, as a progress law: while an acyclic closure is not fully
/// uploaded, some pending artifact is ready and has already been delivered
/// by the ready sequence. A consumer that keeps draining the sequence and
/// marking what it drains therefore always has a next step, until
/// `uploaded` covers every node — and the delivered flags and the queue's
/// distinctness say each artifact is delivered at most once on the way.
pub proof fn lemma_acyclic_progress(s: Scheduler)
    requires
        s.wf(),
        s.graph.acyclic(),
        !s.spec_complete(),
    ensures
        exists|i: int|
            0 <= i < s.n() && !s.uploaded@[i] && s.spec_ready(i) && s.delivered@[i],
{
    let pend = Set::new(|i: int| 0 <= i < s.n() && !s.uploaded@[i]);
    assert(pend.subset_of(s.graph.index_set()));
    let w = choose|i: int| 0 <= i < s.uploaded@.len() && !s.uploaded@[i];
    assert(pend.contains(w));
    assert(pend != Set::<int>::empty());
    let i = choose|i: int| s.graph.source_in(pend, i);
    assert(pend.contains(i));
    assert(s.spec_ready(i)) by {
        assert forall|j: int| 0 <= j < s.n() && #[trigger] s.graph.is_dep(i, j) implies s
            .uploaded@[j] by {
            if !s.uploaded@[j] {
                assert(pend.contains(j));
                assert(!s.graph.is_dep(i, j));
            }
        }
    }
    assert(s.delivered@[i]);
}

/// A cycle verdict is never wrong: when artifacts remain pending and none
/// of them is ready, the dependency graph really does contain a cycle.
pub proof fn lemma_stall_implies_cycle(s: Scheduler)
    requires
        s.wf(),
        !s.spec_complete(),
        forall|i: int| 0 <= i < s.n() && !s.uploaded@[i] ==> !s.spec_ready(i),
    ensures
        !s.graph.acyclic(),
{
    if s.graph.acyclic() {
        lemma_acyclic_progress(s);
        let i = choose|i: int|
            0 <= i < s.n() && !s.uploaded@[i] && s.spec_ready(i) && s.delivered@[i];
        assert(false);
    }
}

/// The models of the artifacts of `s` at the node indices `ix`, in order.
pub open spec fn arts_at(s: Scheduler, ix: Seq<usize>) -> Seq<ArtifactModel> {
    ix.map_values(|x: usize| s.arts()[x as int])
}

/// The relation between a scheduler and its state after a successful
/// `mark_uploaded` of node `idx`: that node's flag is set, exactly the
/// newly unlocked dependents are flagged delivered, and the same dependents
/// are appended to the ready queue in node order. Everything else is
/// untouched.
pub open spec fn spec_marked(pre: Scheduler, post: Scheduler, idx: int) -> bool {
    &&& post.graph == pre.graph
    &&& post.uploaded@ == pre.uploaded@.update(idx, true)
    &&& post.delivered@.len() == pre.n()
    &&& forall|j: int|
        0 <= j < pre.n() ==> post.delivered@[j] == (pre.delivered@[j] || pre.newly_ready(idx, j))
    &&& post.queue@ == pre.queue@ + pre.newly_ready_seq(idx, pre.n())
}

/// The newly-unlocked sequence holds exactly the unlocked nodes below `m`,
/// each once, in ascending order.
proof fn lemma_newly_seq_props(s: Scheduler, idx: int, m: int)
    requires
        m <= usize::MAX,
    ensures
        forall|k: int|
            #![trigger s.newly_ready_seq(idx, m)[k]]
            0 <= k < s.newly_ready_seq(idx, m).len() ==> s.newly_ready_seq(idx, m)[k] < m
                && s.newly_ready(idx, s.newly_ready_seq(idx, m)[k] as int),
        forall|k1: int, k2: int|
            0 <= k1 < k2 < s.newly_ready_seq(idx, m).len() ==> s.newly_ready_seq(idx, m)[k1]
                < s.newly_ready_seq(idx, m)[k2],
    decreases m,
{
    if m > 0 {
        lemma_newly_seq_props(s, idx, m - 1);
        let p = s.newly_ready_seq(idx, m - 1);
        let q = s.newly_ready_seq(idx, m);
        if s.newly_ready(idx, m - 1) {
            assert(q == p.push((m - 1) as usize));
            assert forall|k: int| 0 <= k < q.len() implies q[k] < m && s.newly_ready(
                idx,
                q[k] as int,
            ) by {
                if k < p.len() {
                    assert(q[k] == p[k]);
                } else {
                    assert(q[k] == (m - 1) as usize);
                }
            }
            assert forall|k1: int, k2: int| 0 <= k1 < k2 < q.len() implies q[k1] < q[k2] by {
                if k2 < p.len() {
                    assert(q[k1] == p[k1] && q[k2] == p[k2]);
                } else {
                    assert(q[k2] == (m - 1) as usize);
                    assert(q[k1] == p[k1]);
                    assert(p[k1] < m - 1);
                }
            }
        } else {
            assert(q == p);
        }
    }
}

/// The initial ready queue holds exactly the nodes without dependencies,
/// each once, in ascending order.
proof fn lemma_initial_ready_props(g: DependencyGraph, m: int)
    requires
        m <= usize::MAX,
    ensures
        forall|k: int|
            #![trigger initial_ready(g, m)[k]]
            0 <= k < initial_ready(g, m).len() ==> initial_ready(g, m)[k] < m && g.dep_at(
                initial_ready(g, m)[k] as int,
            ).len() == 0,
        forall|k1: int, k2: int|
            0 <= k1 < k2 < initial_ready(g, m).len() ==> initial_ready(g, m)[k1] < initial_ready(
                g,
                m,
            )[k2],
    decreases m,
{
    if m > 0 {
        lemma_initial_ready_props(g, m - 1);
        let p = initial_ready(g, m - 1);
        let q = initial_ready(g, m);
        if g.dep_at(m - 1).len() == 0 {
            assert(q == p.push((m - 1) as usize));
            assert forall|k: int| 0 <= k < q.len() implies q[k] < m && g.dep_at(
                q[k] as int,
            ).len() == 0 by {
                if k < p.len() {
                    assert(q[k] == p[k]);
                } else {
                    assert(q[k] == (m - 1) as usize);
                }
            }
            assert forall|k1: int, k2: int| 0 <= k1 < k2 < q.len() implies q[k1] < q[k2] by {
                if k2 < p.len() {
                    assert(q[k1] == p[k1] && q[k2] == p[k2]);
                } else {
                    assert(q[k2] == (m - 1) as usize);
                    assert(q[k1] == p[k1]);
                    assert(p[k1] < m - 1);
                }
            }
        } else {
            assert(q == p);
        }
    }
}

} // verus!
