use vstd::prelude::*;
use crate::artifact::{Artifact, ArtifactModel, has_id, models};
use crate::error::ClosureError;

verus! {

/// The dependency graph of one closure.
///
/// Nodes are artifacts, deduplicated by identity; `deps[i]` lists the
/// indices of the nodes that `nodes[i]` references, self-references
/// excluded. An edge (source, target) of the graph means "source must be
/// uploaded before target" and exists exactly when target's reference list
/// names source's identity.
///
/// The representation is index-stable: rows of `deps` refer to positions in
/// `nodes`, which never change after construction.
pub struct DependencyGraph {
    pub nodes: Vec<Artifact>,
    pub deps: Vec<Vec<usize>>,
}

/// Removes every artifact whose identity already occurred earlier in the
/// sequence, keeping first occurrences in order.
pub open spec fn dedup_by_identity(s: Seq<ArtifactModel>) -> Seq<ArtifactModel>
    decreases s.len(),
{
    if s.len() == 0 {
        Seq::empty()
    } else {
        let rest = dedup_by_identity(s.drop_last());
        if has_id(rest, s.last().identity) {
            rest
        } else {
            rest.push(s.last())
        }
    }
}

/// Every identity named in a reference list of `s` belongs to some artifact
/// of `s`. (An artifact's own identity is always present, so a
/// self-reference never violates this.)
pub open spec fn all_refs_present(s: Seq<ArtifactModel>) -> bool {
    forall|i: int, k: int|
        0 <= i < s.len() && 0 <= k < s[i].references.len() ==> has_id(
            s,
            #[trigger] s[i].references[k],
        )
}

/// Does the `k`-th reference of the `i`-th artifact of `s` name an
/// identity that no artifact of `s` carries?
pub open spec fn missing_ref(s: Seq<ArtifactModel>, i: int, k: int) -> bool {
    0 <= i < s.len() && 0 <= k < s[i].references.len() && !has_id(s, s[i].references[k])
}

/// The edge set determined by a set of artifacts alone: (source, target) is
/// an edge exactly when two distinct identities of the set stand in the
/// "target references source" relation.
pub open spec fn edge_set_of(arts: Set<ArtifactModel>) -> Set<(Seq<char>, Seq<char>)> {
    Set::new(
        |e: (Seq<char>, Seq<char>)|
            exists|a: ArtifactModel, b: ArtifactModel|
                arts.contains(a) && arts.contains(b) && a.identity == e.0 && b.identity == e.1
                    && a.identity != b.identity && b.references.contains(a.identity),
    )
}

impl DependencyGraph {
    /// Number of nodes.
    pub open spec fn n(&self) -> int {
        self.nodes@.len() as int
    }

    /// The artifacts of the graph, by model.
    pub open spec fn arts(&self) -> Seq<ArtifactModel> {
        models(self.nodes@)
    }

    /// The dependency row of node `i`.
    pub open spec fn dep_at(&self, i: int) -> Seq<usize> {
        self.deps@[i]@
    }

    /// Does node `i` depend on node `j`?
    pub open spec fn is_dep(&self, i: int, j: int) -> bool {
        self.dep_at(i).contains(j as usize)
    }

    /// Well-formedness: one dependency row per node, rows hold valid indices,
    /// row membership mirrors the reference lists exactly (self-references
    /// excluded), identities are distinct, and every reference resolves to a
    /// node of the graph.
    pub open spec fn wf(&self) -> bool {
        &&& self.deps@.len() == self.n()
        &&& forall|i: int, k: int|
            0 <= i < self.n() && 0 <= k < self.dep_at(i).len() ==> (#[trigger] self.dep_at(i)[k])
                < self.n()
        &&& forall|i: int, j: int|
            0 <= i < self.n() && 0 <= j < self.n() ==> (#[trigger] self.is_dep(i, j) <==> (i != j
                && self.arts()[i].references.contains(self.arts()[j].identity)))
        &&& forall|i: int, j: int|
            0 <= i < j < self.n() ==> self.arts()[i].identity != self.arts()[j].identity
        &&& forall|i: int, k: int|
            0 <= i < self.n() && 0 <= k < self.arts()[i].references.len() ==> has_id(
                self.arts(),
                #[trigger] self.arts()[i].references[k],
            )
    }

    /// The node indices of the graph, as a set.
    pub open spec fn index_set(&self) -> Set<int> {
        Set::new(|i: int| 0 <= i < self.n())
    }

    /// Is `i` a member of `s` with no dependency inside `s`?
    pub open spec fn source_in(&self, s: Set<int>, i: int) -> bool {
        s.contains(i) && forall|j: int| s.contains(j) ==> !self.is_dep(i, j)
    }

    /// Acyclicity, stated as well-foundedness of the dependency relation:
    /// every non-empty set of nodes has a member that depends on nothing
    /// inside the set. On a finite graph this is exactly the absence of
    /// dependency cycles.
    pub open spec fn acyclic(&self) -> bool {
        forall|s: Set<int>|
            #![trigger s.subset_of(self.index_set())]
            (s.subset_of(self.index_set()) && s != Set::<int>::empty()) ==> exists|i: int|
                self.source_in(s, i)
    }

    /// The edge set of the graph: (source, target) identity pairs such that
    /// target depends on source.
    pub open spec fn edges(&self) -> Set<(Seq<char>, Seq<char>)> {
        Set::new(
            |e: (Seq<char>, Seq<char>)|
                exists|i: int, j: int|
                    0 <= i < self.n() && 0 <= j < self.n() && #[trigger] self.is_dep(j, i)
                        && self.arts()[i].identity == e.0 && self.arts()[j].identity == e.1,
        )
    }
}

/// Index of the first artifact in `nodes` whose identity is `id`, if any.
pub fn find_index(nodes: &Vec<Artifact>, id: &String) -> (r: Option<usize>)
    ensures
        match r {
            Some(k) => 0 <= k < nodes@.len() && models(nodes@)[k as int].identity == id@
                && forall|m: int| 0 <= m < k ==> models(nodes@)[m].identity != id@,
            None => !has_id(models(nodes@), id@),
        },
{
    let mut i: usize = 0;
    while i < nodes.len()
        invariant
            i <= nodes@.len(),
            forall|m: int| 0 <= m < i ==> models(nodes@)[m].identity != id@,
        decreases nodes@.len() - i,
    {
        if nodes[i].identity == *id {
            return Some(i);
        }
        i += 1;
    }
    None
}

/// Does the reference list `refs` name the identity `id`?
fn refs_name(refs: &Vec<String>, id: &String) -> (r: bool)
    ensures
        r == refs@.map_values(|s: String| s@).contains(id@),
{
    let ghost rs = refs@.map_values(|s: String| s@);
    let mut i: usize = 0;
    while i < refs.len()
        invariant
            i <= refs@.len(),
            rs == refs@.map_values(|s: String| s@),
            forall|m: int| 0 <= m < i ==> rs[m] != id@,
        decreases refs@.len() - i,
    {
        if refs[i] == *id {
            assert(rs[i as int] == id@);
            return true;
        }
        i += 1;
    }
    false
}

impl DependencyGraph {
    /// Builds the dependency graph of a closure.
    ///
    /// Nodes are the given artifacts with duplicate identities dropped
    /// (first occurrence kept); target depends on source exactly when
    /// target's reference list names source's identity and the two are
    /// distinct, so a self-reference never produces an edge. A reference to
    /// an identity that no artifact of the closure carries is rejected as
    /// `MalformedReference`.
    ///
    /// Every target is scanned against every candidate source, so build time
    /// is quadratic in the artifact count; that is acceptable into the tens
    /// of thousands of artifacts, and an identity index is the required
    /// optimization beyond that.
    pub fn build(artifacts: &Vec<Artifact>) -> (r: Result<DependencyGraph, ClosureError>)
        ensures
            r is Ok <==> all_refs_present(models(artifacts@)),
            r matches Ok(g) ==> g.wf() && g.arts() == dedup_by_identity(models(artifacts@)),
            r matches Err(e) ==> (e matches ClosureError::MalformedReference(id)
                && exists|i: int, k: int|
                #[trigger] missing_ref(models(artifacts@), i, k)
                    && models(artifacts@)[i].references[k] == id@ && (forall|i2: int, k2: int|
                    #[trigger] missing_ref(models(artifacts@), i2, k2) ==> (i2 > i || (i2 == i
                        && k2 >= k)))),
    {
        let ghost s = models(artifacts@);

        // Reject references that resolve to no artifact of the closure.
        let mut i: usize = 0;
        while i < artifacts.len()
            invariant
                s == models(artifacts@),
                i <= artifacts@.len(),
                forall|ii: int, k: int|
                    0 <= ii < i && 0 <= k < s[ii].references.len() ==> has_id(
                        s,
                        #[trigger] s[ii].references[k],
                    ),
            decreases artifacts@.len() - i,
        {
            let refs = &artifacts[i].references;
            let mut k: usize = 0;
            while k < refs.len()
                invariant
                    s == models(artifacts@),
                    i < artifacts@.len(),
                    refs == &artifacts@[i as int].references,
                    k <= refs@.len(),
                    forall|ii: int, kk: int|
                        0 <= ii < i && 0 <= kk < s[ii].references.len() ==> has_id(
                            s,
                            #[trigger] s[ii].references[kk],
                        ),
                    forall|kk: int| 0 <= kk < k ==> has_id(s, s[i as int].references[kk]),
                decreases refs@.len() - k,
            {
                assert(s[i as int].references[k as int] == refs@[k as int]@);
                if find_index(artifacts, &refs[k]).is_none() {
                    proof {
                        assert(missing_ref(s, i as int, k as int));
                        assert forall|i2: int, k2: int|
                            #[trigger] missing_ref(s, i2, k2) implies (i2 > i as int || (i2
                            == i as int && k2 >= k as int)) by {
                            if i2 < i as int {
                                assert(has_id(s, s[i2].references[k2]));
                            } else if i2 == i as int && k2 < k as int {
                                assert(has_id(s, s[i as int].references[k2]));
                                assert(s[i as int].references[k2] == s[i2].references[k2]);
                            }
                        }
                    }
                    return Err(ClosureError::MalformedReference(refs[k].clone()));
                }
                k += 1;
            }
            i += 1;
        }
        assert(all_refs_present(s));

        // Deduplicate by identity, keeping first occurrences in order.
        let mut nodes: Vec<Artifact> = Vec::new();
        let mut i: usize = 0;
        while i < artifacts.len()
            invariant
                s == models(artifacts@),
                i <= artifacts@.len(),
                models(nodes@) == dedup_by_identity(s.take(i as int)),
            decreases artifacts@.len() - i,
        {
            proof {
                assert(s.take(i + 1).drop_last() =~= s.take(i as int));
                assert(s.take(i + 1).last() == s[i as int]);
            }
            if find_index(&nodes, &artifacts[i].identity).is_none() {
                let a = artifacts[i].clone();
                assert(a@ == s[i as int]);
                nodes.push(a);
                proof {
                    assert(models(nodes@) =~= dedup_by_identity(s.take(i as int)).push(
                        s[i as int],
                    ));
                }
            } else {
                assert(has_id(dedup_by_identity(s.take(i as int)), s[i as int].identity));
            }
            i += 1;
        }
        proof {
            assert(s.take(artifacts@.len() as int) =~= s);
        }
        let ghost d = dedup_by_identity(s);
        assert(models(nodes@) == d);

        // Fill the dependency rows.
        let mut deps: Vec<Vec<usize>> = Vec::new();
        let mut i: usize = 0;
        while i < nodes.len()
            invariant
                models(nodes@) == d,
                i <= nodes@.len(),
                deps@.len() == i,
                forall|ii: int, x: usize|
                    0 <= ii < i ==> (#[trigger] deps@[ii]@.contains(x) <==> (x < nodes@.len() && ii
                        != x && d[ii].references.contains(d[x as int].identity))),
            decreases nodes@.len() - i,
        {
            let mut row: Vec<usize> = Vec::new();
            let mut j: usize = 0;
            while j < nodes.len()
                invariant
                    models(nodes@) == d,
                    i < nodes@.len(),
                    j <= nodes@.len(),
                    forall|x: usize|
                        #[trigger] row@.contains(x) <==> (x < j && i != x
                            && d[i as int].references.contains(d[x as int].identity)),
                decreases nodes@.len() - j,
            {
                if j != i && refs_name(&nodes[i].references, &nodes[j].identity) {
                    let ghost old_row = row@;
                    row.push(j);
                    proof {
                        assert forall|x: usize| #[trigger] row@.contains(x) implies (x < j + 1 && i
                            != x && d[i as int].references.contains(d[x as int].identity)) by {
                            if row@.last() == x {
                            } else {
                                assert(old_row.contains(x));
                            }
                        }
                        assert forall|x: usize|
                            x < j + 1 && i != x && d[i as int].references.contains(
                                d[x as int].identity,
                            ) implies #[trigger] row@.contains(x) by {
                            if x < j {
                                assert(old_row.contains(x));
                                assert(row@[choose|m: int|
                                    0 <= m < old_row.len() && old_row[m] == x] == x);
                            } else {
                                assert(row@.last() == x);
                            }
                        }
                    }
                } else {
                    proof {
                        if j != i {
                            assert(!d[i as int].references.contains(d[j as int].identity));
                        }
                        assert forall|x: usize|
                            x < j + 1 && i != x && d[i as int].references.contains(
                                d[x as int].identity,
                            ) implies #[trigger] row@.contains(x) by {
                            assert(x != j);
                            assert(x < j);
                        }
                    }
                }
                j += 1;
            }
            deps.push(row);
            i += 1;
        }

        let g = DependencyGraph { nodes, deps };
        proof {
            lemma_dedup_distinct(s);
            assert forall|i: int, k: int|
                0 <= i < g.n() && 0 <= k < g.dep_at(i).len() implies (#[trigger] g.dep_at(i)[k])
                < g.n() by {
            assert(g.dep_at(i).contains(g.dep_at(i)[k]));
            }
            assert forall|i: int, j: int| 0 <= i < g.n() && 0 <= j < g.n() implies (
            #[trigger] g.is_dep(i, j) <==> (i != j && g.arts()[i].references.contains(
                g.arts()[j].identity,
            ))) by {
                assert(g.deps@[i]@.contains(j as usize) <==> ((j as usize) < g.nodes@.len() && i
                    != j && d[i].references.contains(d[j].identity)));
            }
            assert forall|i: int, k: int|
                0 <= i < g.n() && 0 <= k < g.arts()[i].references.len() implies has_id(
                g.arts(),
                #[trigger] g.arts()[i].references[k],
            ) by {
                assert(d.contains(d[i]));
                lemma_dedup_subset(s, d[i]);
                let m = choose|m: int| 0 <= m < s.len() && s[m] == d[i];
                assert(has_id(s, s[m].references[k]));
                lemma_dedup_same_identities(s, d[i].references[k]);
            }
            assert(g.wf());
        }
        Ok(g)
    }
}

impl DependencyGraph {
    /// Is (source, target) an edge of the graph, that is, does the artifact
    /// with identity `target` depend on the one with identity `source`?
    pub fn has_edge(&self, source: &String, target: &String) -> (r: bool)
        requires
            self.wf(),
        ensures
            r == self.edges().contains((source@, target@)),
    {
        let si = find_index(&self.nodes, source);
        let ti = find_index(&self.nodes, target);
        match (si, ti) {
            (Some(s), Some(t)) => {
                let r = contains_index(&self.deps[t], s);
                proof {
                    if r {
                        assert(self.is_dep(t as int, s as int));
                    } else {
                        if self.edges().contains((source@, target@)) {
                            let (i, j) = choose|i: int, j: int|
                                0 <= i < self.n() && 0 <= j < self.n() && #[trigger] self.is_dep(
                                    j,
                                    i,
                                ) && self.arts()[i].identity == source@ && self.arts()[j].identity
                                    == target@;
                            assert(i == s as int && j == t as int) by {
                                if i != s as int {
                                    assert(self.arts()[i].identity == self.arts()[s as int].identity);
                                    assert(false);
                                }
                                if j != t as int {
                                    assert(self.arts()[j].identity == self.arts()[t as int].identity);
                                    assert(false);
                                }
                            }
                            assert(false);
                        }
                    }
                }
                r
            },
            _ => {
                proof {
                    if self.edges().contains((source@, target@)) {
                        let (i, j) = choose|i: int, j: int|
                            0 <= i < self.n() && 0 <= j < self.n() && #[trigger] self.is_dep(j, i)
                                && self.arts()[i].identity == source@ && self.arts()[j].identity
                                == target@;
                        assert(has_id(self.arts(), source@));
                        assert(has_id(self.arts(), target@));
                        assert(false);
                    }
                }
                false
            },
        }
    }
}

/// Does the index list `row` hold the value `x`?
pub(crate) fn contains_index(row: &Vec<usize>, x: usize) -> (r: bool)
    ensures
        r == row@.contains(x),
{
    let mut i: usize = 0;
    while i < row.len()
        invariant
            i <= row@.len(),
            forall|m: int| 0 <= m < i ==> row@[m] != x,
        decreases row@.len() - i,
    {
        if row[i] == x {
            return true;
        }
        i += 1;
    }
    false
}

/// A well-formed graph never has a self-edge: no node depends on itself,
/// whatever its reference list says.
pub proof fn lemma_no_self_edges(g: DependencyGraph, i: int)
    requires
        g.wf(),
        0 <= i < g.n(),
    ensures
        !g.is_dep(i, i),
        !g.edges().contains((g.arts()[i].identity, g.arts()[i].identity)),
{
    if g.edges().contains((g.arts()[i].identity, g.arts()[i].identity)) {
        let (a, b) = choose|a: int, b: int|
            0 <= a < g.n() && 0 <= b < g.n() && #[trigger] g.is_dep(b, a) && g.arts()[a].identity
                == g.arts()[i].identity && g.arts()[b].identity == g.arts()[i].identity;
        assert(g.arts()[a].identity == g.arts()[b].identity);
        assert(a == b) by {
            if a != b {
                assert(false);
            }
        }
        assert(false);
    }
}

/// The edge set of a well-formed graph is determined by its artifact set
/// alone.
pub proof fn lemma_wf_edges(g: DependencyGraph)
    requires
        g.wf(),
    ensures
        g.edges() == edge_set_of(g.arts().to_set()),
{
    let arts = g.arts();
    assert forall|e: (Seq<char>, Seq<char>)| g.edges().contains(e) implies edge_set_of(
        arts.to_set(),
    ).contains(e) by {
        let (i, j) = choose|i: int, j: int|
            0 <= i < g.n() && 0 <= j < g.n() && #[trigger] g.is_dep(j, i) && arts[i].identity == e.0
                && arts[j].identity == e.1;
        assert(arts.to_set().contains(arts[i]));
        assert(arts.to_set().contains(arts[j]));
        assert(i != j && arts[j].references.contains(arts[i].identity));
        assert(arts[i].identity != arts[j].identity);
    }
    assert forall|e: (Seq<char>, Seq<char>)| edge_set_of(arts.to_set()).contains(e) implies g
        .edges().contains(e) by {
        let (a, b) = choose|a: ArtifactModel, b: ArtifactModel|
            arts.to_set().contains(a) && arts.to_set().contains(b) && a.identity == e.0
                && b.identity == e.1 && a.identity != b.identity && b.references.contains(
                a.identity,
            );
        assert(arts.contains(a));
        assert(arts.contains(b));
        let i = choose|i: int| 0 <= i < arts.len() && arts[i] == a;
        let j = choose|j: int| 0 <= j < arts.len() && arts[j] == b;
        assert(i != j);
        assert(g.is_dep(j, i));
    }
    assert(g.edges() =~= edge_set_of(arts.to_set()));
}

/// Two well-formed graphs over the same set of artifacts have identical
/// edge sets, whatever order their nodes stand in: rebuilding a graph from
/// a reordered closure description changes nothing about its edges.
pub proof fn lemma_build_order_independent(g1: DependencyGraph, g2: DependencyGraph)
    requires
        g1.wf(),
        g2.wf(),
        g1.arts().to_set() == g2.arts().to_set(),
    ensures
        g1.edges() == g2.edges(),
{
    lemma_wf_edges(g1);
    lemma_wf_edges(g2);
}

/// Node indices fit in `usize`: the nodes live in a vector.
pub proof fn lemma_n_bound(g: &DependencyGraph)
    ensures
        g.n() <= usize::MAX,
{
    assert(vstd::std_specs::vec::spec_vec_len(&g.nodes) == g.nodes@.len());
}

/// Every artifact of the deduplicated sequence comes from the original.
proof fn lemma_dedup_subset(s: Seq<ArtifactModel>, x: ArtifactModel)
    requires
        dedup_by_identity(s).contains(x),
    ensures
        s.contains(x),
    decreases s.len(),
{
    if s.len() > 0 {
        let rest = dedup_by_identity(s.drop_last());
        if has_id(rest, s.last().identity) {
            lemma_dedup_subset(s.drop_last(), x);
            assert(s.drop_last().contains(x));
            let i = choose|i: int| 0 <= i < s.drop_last().len() && s.drop_last()[i] == x;
            assert(s[i] == x);
        } else {
            if x == s.last() {
                assert(s[s.len() - 1] == x);
            } else {
                assert(rest.contains(x));
                lemma_dedup_subset(s.drop_last(), x);
                let i = choose|i: int| 0 <= i < s.drop_last().len() && s.drop_last()[i] == x;
                assert(s[i] == x);
            }
        }
    }
}

/// Deduplication keeps exactly the identities of the original sequence.
pub proof fn lemma_dedup_same_identities(s: Seq<ArtifactModel>, id: Seq<char>)
    ensures
        has_id(dedup_by_identity(s), id) <==> has_id(s, id),
    decreases s.len(),
{
    if s.len() > 0 {
        let rest = dedup_by_identity(s.drop_last());
        lemma_dedup_same_identities(s.drop_last(), id);
        if has_id(s, id) {
            let i = choose|i: int| 0 <= i < s.len() && s[i].identity == id;
            if i < s.len() - 1 {
                assert(s.drop_last()[i].identity == id);
                assert(has_id(s.drop_last(), id));
            } else {
                assert(s.last().identity == id);
            }
            assert(has_id(dedup_by_identity(s), id)) by {
                let d = dedup_by_identity(s);
                if has_id(rest, id) {
                    let k = choose|k: int| 0 <= k < rest.len() && rest[k].identity == id;
                    assert(d[k].identity == id);
                } else {
                    assert(!has_id(s.drop_last(), id));
                    assert(i == s.len() - 1);
                    assert(!has_id(rest, s.last().identity));
                    assert(d.last().identity == id);
                }
            }
        }
        if has_id(dedup_by_identity(s), id) {
            let d = dedup_by_identity(s);
            let k = choose|k: int| 0 <= k < d.len() && d[k].identity == id;
            lemma_dedup_subset(s, d[k]);
            let i = choose|i: int| 0 <= i < s.len() && s[i] == d[k];
            assert(s[i].identity == id);
        }
    }
}

/// Deduplication leaves no two artifacts with the same identity.
pub proof fn lemma_dedup_distinct(s: Seq<ArtifactModel>)
    ensures
        forall|i: int, j: int|
            0 <= i < j < dedup_by_identity(s).len() ==> dedup_by_identity(s)[i].identity
                != dedup_by_identity(s)[j].identity,
    decreases s.len(),
{
    if s.len() > 0 {
        let rest = dedup_by_identity(s.drop_last());
        lemma_dedup_distinct(s.drop_last());
        if !has_id(rest, s.last().identity) {
            let d = dedup_by_identity(s);
            assert forall|i: int, j: int| 0 <= i < j < d.len() implies d[i].identity
                != d[j].identity by {
                if j < d.len() - 1 {
                    assert(rest[i].identity != rest[j].identity);
                } else {
                    assert(d[j] == s.last());
                    assert(rest[i] == d[i]);
                    assert(!(exists|k: int|
                        0 <= k < rest.len() && rest[k].identity == s.last().identity));
                }
            }
        }
    }
}

/// On a sequence whose identities are already pairwise distinct,
/// deduplication changes nothing.
pub proof fn lemma_dedup_distinct_noop(s: Seq<ArtifactModel>)
    requires
        forall|i: int, j: int| 0 <= i < j < s.len() ==> s[i].identity != s[j].identity,
    ensures
        dedup_by_identity(s) == s,
    decreases s.len(),
{
    if s.len() == 0 {
        assert(dedup_by_identity(s) =~= s);
    } else {
        lemma_dedup_distinct_noop(s.drop_last());
        let rest = dedup_by_identity(s.drop_last());
        assert(rest == s.drop_last());
        if has_id(rest, s.last().identity) {
            let k = choose|k: int| 0 <= k < rest.len() && rest[k].identity == s.last().identity;
            assert(s[k].identity == s[s.len() - 1].identity);
            assert(false);
        }
        assert(dedup_by_identity(s) =~= s);
    }
}

} // verus!
