//! Client-side model of the property-graph store protocol.
//!
//! A store holds projects; a project owns users (keyed by address) and at
//! most one undirected relationship edge per pair of users. The operations
//! here are the logical write protocol: create a project, upsert one
//! relationship (create-if-absent users and edge, then overwrite the edge's
//! fields), delete a project with everything it owns, and list project names.
//!
//! The executable structures mirror the remote store's state; the driver that
//! speaks to a real store issues one query per operation, in the same order,
//! so the contracts here state exactly what each query leaves behind.

use vstd::prelude::*;

verus! {

/// Why a store operation failed.
#[derive(Clone, Copy, Debug, PartialEq, Eq, Structural)]
pub enum GraphError {
    /// Transport, authentication or configuration failure; fatal.
    Connection,
    /// The named project does not exist.
    NotFound,
}

impl GraphError {
    /// A user-actionable description of the failure.
    pub fn describe(&self) -> (r: String)
        ensures
            *self == GraphError::Connection ==> r@ == "Could not connect to database. Is your .env okay?"@,
            *self == GraphError::NotFound ==> r@ == "Graph with that name does not exist"@,
    {
        match self {
            GraphError::Connection => "Could not connect to database. Is your .env okay?".to_owned(),
            GraphError::NotFound => "Graph with that name does not exist".to_owned(),
        }
    }
}

/// The mathematical content of one relationship edge.
#[verifier::ext_equal]
pub struct EdgeView {
    pub a: Seq<char>,
    pub b: Seq<char>,
    pub sentiment_milli: int,
    pub emails_sent: int,
}

/// The mathematical content of one project.
#[verifier::ext_equal]
pub struct ProjectView {
    pub name: Seq<char>,
    pub users: Seq<Seq<char>>,
    pub edges: Seq<EdgeView>,
}

/// An edge connects the unordered pair `{x, y}`.
pub open spec fn edge_matches(e: EdgeView, x: Seq<char>, y: Seq<char>) -> bool {
    (e.a == x && e.b == y) || (e.a == y && e.b == x)
}

/// How many edges of `es` connect the unordered pair `{x, y}`.
pub open spec fn edge_count(es: Seq<EdgeView>, x: Seq<char>, y: Seq<char>) -> nat
    decreases es.len(),
{
    if es.len() == 0 {
        0
    } else {
        (if edge_matches(es[0], x, y) {
            1nat
        } else {
            0nat
        }) + edge_count(es.drop_first(), x, y)
    }
}

/// The first index of an edge connecting `{x, y}`, or `-1` if there is none.
pub open spec fn first_edge_idx(es: Seq<EdgeView>, x: Seq<char>, y: Seq<char>) -> int
    decreases es.len(),
{
    if es.len() == 0 {
        -1
    } else if edge_matches(es[0], x, y) {
        0
    } else {
        let r = first_edge_idx(es.drop_first(), x, y);
        if r == -1 {
            -1
        } else {
            r + 1
        }
    }
}

/// The project knows the user `u`.
pub open spec fn has_user(p: ProjectView, u: Seq<char>) -> bool {
    p.users.contains(u)
}

/// Well-formedness of one project: users are distinct, edges connect known
/// users, and no two edges connect the same unordered pair.
pub open spec fn project_wf(p: ProjectView) -> bool {
    &&& forall|i: int, j: int|
        0 <= i < p.users.len() && 0 <= j < p.users.len() && i != j ==> #[trigger] p.users[i]
            != #[trigger] p.users[j]
    &&& forall|i: int|
        0 <= i < p.edges.len() ==> has_user(p, #[trigger] p.edges[i].a) && has_user(
            p,
            p.edges[i].b,
        )
    &&& forall|i: int, j: int|
        0 <= i < p.edges.len() && 0 <= j < p.edges.len() && i != j ==> !edge_matches(
            #[trigger] p.edges[j],
            #[trigger] p.edges[i].a,
            p.edges[i].b,
        )
}

/// Well-formedness of the whole store.
pub open spec fn store_wf(sv: Seq<ProjectView>) -> bool {
    forall|i: int| 0 <= i < sv.len() ==> project_wf(#[trigger] sv[i])
}

/// The store holds a project with the name `n`.
pub open spec fn has_project(sv: Seq<ProjectView>, n: Seq<char>) -> bool {
    exists|i: int| 0 <= i < sv.len() && (#[trigger] sv[i]).name == n
}

/// A freshly created project: a name owning nothing yet.
pub open spec fn empty_project(n: Seq<char>) -> ProjectView {
    ProjectView { name: n, users: Seq::empty(), edges: Seq::empty() }
}

/// The user set after a create-if-absent of `u`.
pub open spec fn add_user(us: Seq<Seq<char>>, u: Seq<char>) -> Seq<Seq<char>> {
    if us.contains(u) {
        us
    } else {
        us.push(u)
    }
}

/// The edge set after an upsert of the pair `{from, to}` with new fields.
pub open spec fn upsert_edge(
    es: Seq<EdgeView>,
    from: Seq<char>,
    to: Seq<char>,
    sentiment_milli: int,
    emails_sent: int,
) -> Seq<EdgeView> {
    let i = first_edge_idx(es, from, to);
    if i == -1 {
        es.push(EdgeView { a: from, b: to, sentiment_milli, emails_sent })
    } else {
        es.update(
            i,
            EdgeView { a: es[i].a, b: es[i].b, sentiment_milli, emails_sent },
        )
    }
}

/// One project after an upsert of the pair `{from, to}`.
pub open spec fn upsert_project(
    p: ProjectView,
    from: Seq<char>,
    to: Seq<char>,
    sentiment_milli: int,
    emails_sent: int,
) -> ProjectView {
    ProjectView {
        name: p.name,
        users: add_user(add_user(p.users, from), to),
        edges: upsert_edge(p.edges, from, to, sentiment_milli, emails_sent),
    }
}

/// The store after an upsert: every project with the given name takes the
/// relationship; the others are untouched. A store without the project is
/// left unchanged, as a write scoped to an unknown name touches nothing.
pub open spec fn spec_upsert(
    sv: Seq<ProjectView>,
    project: Seq<char>,
    from: Seq<char>,
    to: Seq<char>,
    sentiment_milli: int,
    emails_sent: int,
) -> Seq<ProjectView> {
    Seq::new(
        sv.len(),
        |i: int|
            if sv[i].name == project {
                upsert_project(sv[i], from, to, sentiment_milli, emails_sent)
            } else {
                sv[i]
            },
    )
}

/// The store after a deletion: every project with the given name is removed
/// together with everything it owns.
pub open spec fn spec_delete(sv: Seq<ProjectView>, n: Seq<char>) -> Seq<ProjectView>
    decreases sv.len(),
{
    if sv.len() == 0 {
        Seq::empty()
    } else {
        let t = spec_delete(sv.drop_last(), n);
        if sv.last().name == n {
            t
        } else {
            t.push(sv.last())
        }
    }
}

/// The names of all projects, in store order.
pub open spec fn spec_list(sv: Seq<ProjectView>) -> Seq<Seq<char>> {
    sv.map_values(|p: ProjectView| p.name)
}

/// One relationship edge as stored: an unordered pair of user addresses with
/// the overwritable statistics fields.
pub struct RelEdge {
    pub a: String,
    pub b: String,
    pub sentiment_milli: i64,
    pub emails_sent: u32,
}

impl View for RelEdge {
    type V = EdgeView;

    open spec fn view(&self) -> EdgeView {
        EdgeView {
            a: self.a@,
            b: self.b@,
            sentiment_milli: self.sentiment_milli as int,
            emails_sent: self.emails_sent as int,
        }
    }
}

/// One project as stored.
pub struct Project {
    pub name: String,
    pub users: Vec<String>,
    pub edges: Vec<RelEdge>,
}

impl View for Project {
    type V = ProjectView;

    open spec fn view(&self) -> ProjectView {
        ProjectView {
            name: self.name@,
            users: self.users@.map_values(|u: String| u@),
            edges: self.edges@.map_values(|e: RelEdge| e@),
        }
    }
}

/// The modeled store state: the projects it currently holds.
pub struct GraphStore {
    pub projects: Vec<Project>,
}

impl View for GraphStore {
    type V = Seq<ProjectView>;

    open spec fn view(&self) -> Seq<ProjectView> {
        self.projects@.map_values(|p: Project| p@)
    }
}

/// A scan that saw no match up to `i` and a match at `i` pins the first
/// matching index down; a scan that saw none at all pins it to `-1`.
proof fn lemma_first_edge_idx_at(es: Seq<EdgeView>, x: Seq<char>, y: Seq<char>, i: int)
    requires
        0 <= i <= es.len(),
        forall|j: int| 0 <= j < i ==> !edge_matches(#[trigger] es[j], x, y),
        i < es.len() ==> edge_matches(es[i], x, y),
    ensures
        first_edge_idx(es, x, y) == if i == es.len() {
            -1
        } else {
            i
        },
    decreases es.len(),
{
    if es.len() > 0 {
        if i == 0 {
        } else {
            assert(!edge_matches(es[0], x, y));
            lemma_first_edge_idx_at(es.drop_first(), x, y, i - 1);
        }
    }
}

/// Counting edges of a pair after appending one more edge.
proof fn lemma_edge_count_push(es: Seq<EdgeView>, e: EdgeView, x: Seq<char>, y: Seq<char>)
    ensures
        edge_count(es.push(e), x, y) == edge_count(es, x, y) + if edge_matches(e, x, y) {
            1int
        } else {
            0int
        },
    decreases es.len(),
{
    if es.len() == 0 {
        assert(es.push(e)[0] == e);
        assert(es.push(e).drop_first() =~= Seq::<EdgeView>::empty());
        assert(edge_count(es.push(e), x, y) == (if edge_matches(e, x, y) {
            1nat
        } else {
            0nat
        }) + edge_count(es.push(e).drop_first(), x, y));
    } else {
        assert(es.push(e)[0] == es[0]);
        assert(es.push(e).drop_first() =~= es.drop_first().push(e));
        lemma_edge_count_push(es.drop_first(), e, x, y);
        assert(edge_count(es.push(e), x, y) == (if edge_matches(es[0], x, y) {
            1nat
        } else {
            0nat
        }) + edge_count(es.drop_first().push(e), x, y));
    }
}

/// A pair that no edge connects has count zero.
proof fn lemma_edge_count_zero(es: Seq<EdgeView>, x: Seq<char>, y: Seq<char>)
    requires
        forall|j: int| 0 <= j < es.len() ==> !edge_matches(#[trigger] es[j], x, y),
    ensures
        edge_count(es, x, y) == 0,
    decreases es.len(),
{
    if es.len() > 0 {
        lemma_edge_count_zero(es.drop_first(), x, y);
    }
}

/// A pair that exactly one edge connects has count one.
proof fn lemma_edge_count_one(es: Seq<EdgeView>, i: int, x: Seq<char>, y: Seq<char>)
    requires
        0 <= i < es.len(),
        edge_matches(es[i], x, y),
        forall|j: int| 0 <= j < es.len() && j != i ==> !edge_matches(#[trigger] es[j], x, y),
    ensures
        edge_count(es, x, y) == 1,
    decreases es.len(),
{
    if i == 0 {
        assert(forall|j: int|
            0 <= j < es.drop_first().len() ==> !edge_matches(
                #[trigger] es.drop_first()[j],
                x,
                y,
            ));
        lemma_edge_count_zero(es.drop_first(), x, y);
    } else {
        lemma_edge_count_one(es.drop_first(), i - 1, x, y);
    }
}

impl Project {
    /// Adds the user if the project does not know it yet.
    #[verifier::loop_isolation(false)]
    fn ensure_user(&mut self, u: &String)
        ensures
            final(self)@.name == old(self)@.name,
            final(self)@.edges == old(self)@.edges,
            final(self)@.users == add_user(old(self)@.users, u@),
    {
        let n = self.users.len();
        let mut i: usize = 0;
        while i < n
            invariant
                i <= n,
                n == self.users@.len(),
                *self == *old(self),
                forall|j: int| 0 <= j < i ==> old(self)@.users[j] != u@,
            decreases n - i,
        {
            if self.users[i] == *u {
                proof {
                    assert(old(self)@.users[i as int] == u@);
                    assert(old(self)@.users.contains(u@));
                }
                return ;
            }
            i = i + 1;
        }
        proof {
            assert(!old(self)@.users.contains(u@)) by {
                if old(self)@.users.contains(u@) {
                    let j = choose|j: int|
                        0 <= j < old(self)@.users.len() && old(self)@.users[j] == u@;
                }
            }
        }
        self.users.push(u.clone());
        proof {
            assert(final(self)@.users =~= add_user(old(self)@.users, u@));
        }
    }

    /// Writes the relationship fields of the pair `{from, to}`, creating the
    /// edge if it is absent.
    #[verifier::loop_isolation(false)]
    fn upsert_edge_in(&mut self, from: &String, to: &String, sentiment_milli: i64, emails_sent: u32)
        ensures
            final(self)@.name == old(self)@.name,
            final(self)@.users == old(self)@.users,
            final(self)@.edges == upsert_edge(
                old(self)@.edges,
                from@,
                to@,
                sentiment_milli as int,
                emails_sent as int,
            ),
    {
        let n = self.edges.len();
        let mut i: usize = 0;
        while i < n
            invariant
                i <= n,
                n == self.edges@.len(),
                *self == *old(self),
                forall|j: int| 0 <= j < i ==> !edge_matches(#[trigger] old(self)@.edges[j], from@, to@),
            decreases n - i,
        {
            let e = &self.edges[i];
            let hit = (e.a == *from && e.b == *to) || (e.a == *to && e.b == *from);
            if hit {
                proof {
                    assert(edge_matches(old(self)@.edges[i as int], from@, to@));
                    lemma_first_edge_idx_at(old(self)@.edges, from@, to@, i as int);
                }
                let upd = RelEdge {
                    a: self.edges[i].a.clone(),
                    b: self.edges[i].b.clone(),
                    sentiment_milli,
                    emails_sent,
                };
                self.edges.set(i, upd);
                proof {
                    assert(final(self)@.edges =~= upsert_edge(
                        old(self)@.edges,
                        from@,
                        to@,
                        sentiment_milli as int,
                        emails_sent as int,
                    ));
                }
                return ;
            }
            proof {
                assert(!edge_matches(old(self)@.edges[i as int], from@, to@));
            }
            i = i + 1;
        }
        proof {
            lemma_first_edge_idx_at(old(self)@.edges, from@, to@, n as int);
        }
        self.edges.push(
            RelEdge { a: from.clone(), b: to.clone(), sentiment_milli, emails_sent },
        );
        proof {
            assert(final(self)@.edges =~= upsert_edge(
                old(self)@.edges,
                from@,
                to@,
                sentiment_milli as int,
                emails_sent as int,
            ));
        }
    }
}

impl GraphStore {
    /// A store holding no projects.
    pub fn new() -> (r: GraphStore)
        ensures
            r@ == Seq::<ProjectView>::empty(),
            store_wf(r@),
    {
        let r = GraphStore { projects: Vec::new() };
        proof {
            assert(r@ =~= Seq::<ProjectView>::empty());
        }
        r
    }

    /// Creates a project node unconditionally.
    ///
    /// No existence check is made: a second creation under the same name
    /// leaves two projects with that name in the store. Whether a run against
    /// an existing name is supported is the caller's decision.
    pub fn create_project(&mut self, name: String) -> (r: Result<(), GraphError>)
        ensures
            r is Ok,
            final(self)@ == old(self)@.push(empty_project(name@)),
            store_wf(old(self)@) ==> store_wf(final(self)@),
    {
        let ghost n = name@;
        self.projects.push(Project { name, users: Vec::new(), edges: Vec::new() });
        proof {
            assert(self@ =~~= old(self)@.push(empty_project(n)));
            if store_wf(old(self)@) {
                assert(project_wf(empty_project(n)));
                assert forall|t: int| 0 <= t < self@.len() implies project_wf(
                    #[trigger] self@[t],
                ) by {
                    if t < old(self)@.len() {
                        assert(self@[t] == old(self)@[t]);
                    } else {
                        assert(self@[t] == empty_project(n));
                    }
                }
            }
        }
        Ok(())
    }

    /// Ensures both users exist under every project with the given name and
    /// that exactly one edge connects them, overwriting its fields with the
    /// supplied values. A store without the project is left unchanged.
    #[verifier::loop_isolation(false)]
    pub fn upsert_relationship(
        &mut self,
        project: &String,
        from: &String,
        to: &String,
        sentiment_milli: i64,
        emails_sent: u32,
    ) -> (r: Result<(), GraphError>)
        ensures
            r is Ok,
            final(self)@ == spec_upsert(
                old(self)@,
                project@,
                from@,
                to@,
                sentiment_milli as int,
                emails_sent as int,
            ),
            store_wf(old(self)@) ==> store_wf(final(self)@),
    {
        proof {
            if store_wf(self@) {
                lemma_upsert_preserves_wf(
                    self@,
                    project@,
                    from@,
                    to@,
                    sentiment_milli as int,
                    emails_sent as int,
                );
            }
        }
        let ghost orig = self@;
        let ghost target = spec_upsert(
            orig,
            project@,
            from@,
            to@,
            sentiment_milli as int,
            emails_sent as int,
        );
        let mut done: Vec<Project> = Vec::new();
        while self.projects.len() > 0
            invariant
                done@.len() + self.projects@.len() == orig.len(),
                self@ =~= orig.skip(done@.len() as int),
                done@.map_values(|p: Project| p@) =~= target.take(done@.len() as int),
            decreases self.projects@.len(),
        {
            let ghost d = done@.len() as int;
            let ghost pre = self.projects@;
            let mut p = self.projects.remove(0);
            proof {
                assert(p@ == orig.skip(d)[0]);
                assert(orig.skip(d)[0] == orig[d]);
                assert(self.projects@ =~= pre.subrange(1, pre.len() as int));
                assert forall|t: int| 0 <= t < self.projects@.len() implies self.projects@.map_values(
                    |q: Project| q@,
                )[t] == #[trigger] orig.skip(d + 1)[t] by {
                    assert(self.projects@[t] == pre[t + 1]);
                    assert(pre.map_values(|q: Project| q@)[t + 1] == orig.skip(d)[t + 1]);
                    assert(orig.skip(d)[t + 1] == orig[d + 1 + t]);
                    assert(orig.skip(d + 1)[t] == orig[d + 1 + t]);
                }
                assert(self.projects@.map_values(|q: Project| q@) =~= orig.skip(d + 1));
            }
            if p.name == *project {
                p.ensure_user(from);
                p.ensure_user(to);
                p.upsert_edge_in(from, to, sentiment_milli, emails_sent);
                proof {
                    assert(p@ == upsert_project(
                        orig[d],
                        from@,
                        to@,
                        sentiment_milli as int,
                        emails_sent as int,
                    ));
                    assert(p@ == target[d]);
                }
            } else {
                proof {
                    assert(p@ == target[d]);
                }
            }
            done.push(p);
            proof {
                assert(done@.map_values(|q: Project| q@) =~= target.take(d + 1));
            }
        }
        proof {
            assert(done@.map_values(|p: Project| p@) =~= target);
        }
        self.projects = done;
        Ok(())
    }

    /// Deletes every project with the given name and everything it owns;
    /// fails with a not-found error, touching nothing, if there is none.
    #[verifier::loop_isolation(false)]
    pub fn delete_project(&mut self, name: &String) -> (r: Result<(), GraphError>)
        ensures
            has_project(old(self)@, name@) ==> r is Ok && final(self)@ == spec_delete(
                old(self)@,
                name@,
            ),
            !has_project(old(self)@, name@) ==> r == Err::<(), GraphError>(GraphError::NotFound)
                && final(self)@ == old(self)@,
            store_wf(old(self)@) ==> store_wf(final(self)@),
    {
        proof {
            if store_wf(self@) {
                lemma_delete_preserves_wf(self@, name@);
            }
        }
        let ghost orig = self@;
        let n = self.projects.len();
        let mut found = false;
        let mut i: usize = 0;
        while i < n
            invariant
                i <= n,
                n == self.projects@.len(),
                *self == *old(self),
                found == exists|j: int| 0 <= j < i && (#[trigger] orig[j]).name == name@,
            decreases n - i,
        {
            if self.projects[i].name == *name {
                proof {
                    assert(orig[i as int].name == name@);
                }
                found = true;
            }
            i = i + 1;
        }
        if !found {
            proof {
                assert(!has_project(orig, name@));
            }
            return Err(GraphError::NotFound);
        }
        let mut kept: Vec<Project> = Vec::new();
        let mut k: usize = 0;
        while self.projects.len() > 0
            invariant
                kept@.len() <= k <= orig.len(),
                k + self.projects@.len() == orig.len(),
                self@ =~= orig.skip(k as int),
                kept@.map_values(|p: Project| p@) =~= spec_delete(orig.take(k as int), name@),
            decreases self.projects@.len(),
        {
            let ghost d = k as int;
            let ghost pre = self.projects@;
            let p = self.projects.remove(0);
            proof {
                assert(p@ == orig.skip(d)[0]);
                assert(orig.skip(d)[0] == orig[d]);
                assert(self.projects@ =~= pre.subrange(1, pre.len() as int));
                assert forall|t: int| 0 <= t < self.projects@.len() implies self.projects@.map_values(
                    |q: Project| q@,
                )[t] == #[trigger] orig.skip(d + 1)[t] by {
                    assert(self.projects@[t] == pre[t + 1]);
                    assert(pre.map_values(|q: Project| q@)[t + 1] == orig.skip(d)[t + 1]);
                    assert(orig.skip(d)[t + 1] == orig[d + 1 + t]);
                    assert(orig.skip(d + 1)[t] == orig[d + 1 + t]);
                }
                assert(self.projects@.map_values(|q: Project| q@) =~= orig.skip(d + 1));
                assert(orig.take(d + 1) =~= orig.take(d).push(orig[d]));
                assert(orig.take(d + 1).drop_last() =~= orig.take(d));
            }
            if !(p.name == *name) {
                kept.push(p);
            }
            k = k + 1;
            proof {
                assert(kept@.map_values(|q: Project| q@) =~= spec_delete(
                    orig.take(k as int),
                    name@,
                ));
            }
        }
        proof {
            assert(orig.take(orig.len() as int) =~= orig);
        }
        self.projects = kept;
        Ok(())
    }

    /// Reports the names of all projects, in store order; an empty store
    /// yields an empty list, not an error.
    #[verifier::loop_isolation(false)]
    pub fn list_projects(&self) -> (r: Result<Vec<String>, GraphError>)
        ensures
            r is Ok,
            (r->Ok_0)@.map_values(|s: String| s@) == spec_list(self@),
    {
        let mut out: Vec<String> = Vec::new();
        let n = self.projects.len();
        let mut i: usize = 0;
        while i < n
            invariant
                i <= n,
                n == self.projects@.len(),
                out@.len() == i,
                forall|j: int| 0 <= j < i ==> (#[trigger] out@[j])@ == self@[j].name,
            decreases n - i,
        {
            out.push(self.projects[i].name.clone());
            i = i + 1;
        }
        proof {
            assert(out@.map_values(|s: String| s@) =~= spec_list(self@));
        }
        Ok(out)
    }
}

/// Properties of the first matching index.
proof fn lemma_first_edge_idx_props(es: Seq<EdgeView>, x: Seq<char>, y: Seq<char>)
    ensures
        first_edge_idx(es, x, y) == -1 ==> forall|j: int|
            0 <= j < es.len() ==> !edge_matches(#[trigger] es[j], x, y),
        first_edge_idx(es, x, y) != -1 ==> 0 <= first_edge_idx(es, x, y) < es.len()
            && edge_matches(es[first_edge_idx(es, x, y)], x, y),
    decreases es.len(),
{
    if es.len() > 0 && !edge_matches(es[0], x, y) {
        lemma_first_edge_idx_props(es.drop_first(), x, y);
        if first_edge_idx(es, x, y) == -1 {
            assert forall|j: int| 0 <= j < es.len() implies !edge_matches(
                #[trigger] es[j],
                x,
                y,
            ) by {
                if j > 0 {
                    assert(es.drop_first()[j - 1] == es[j]);
                }
            }
        } else {
            assert(es.drop_first()[first_edge_idx(es.drop_first(), x, y)] == es[first_edge_idx(
                es,
                x,
                y,
            )]);
        }
    }
}

/// Adding a user keeps the user set distinct and only grows it.
proof fn lemma_add_user_props(us: Seq<Seq<char>>, u: Seq<char>)
    requires
        forall|i: int, j: int|
            0 <= i < us.len() && 0 <= j < us.len() && i != j ==> #[trigger] us[i] != #[trigger] us[j],
    ensures
        add_user(us, u).contains(u),
        forall|v: Seq<char>| us.contains(v) ==> #[trigger] add_user(us, u).contains(v),
        forall|i: int, j: int|
            0 <= i < add_user(us, u).len() && 0 <= j < add_user(us, u).len() && i != j
                ==> #[trigger] add_user(us, u)[i] != #[trigger] add_user(us, u)[j],
{
    let r = add_user(us, u);
    if us.contains(u) {
    } else {
        assert(r[us.len() as int] == u);
        assert forall|v: Seq<char>| us.contains(v) implies #[trigger] r.contains(v) by {
            let i = choose|i: int| 0 <= i < us.len() && us[i] == v;
            assert(r[i] == v);
        }
        assert forall|i: int, j: int|
            0 <= i < r.len() && 0 <= j < r.len() && i != j implies #[trigger] r[i]
            != #[trigger] r[j] by {
            if i < us.len() && j < us.len() {
            } else if i == us.len() {
                assert(r[i] == u);
                assert(us[j] == r[j]);
                if r[j] == u {
                    assert(us.contains(u));
                }
            } else {
                assert(r[j] == u);
                assert(us[i] == r[i]);
                if r[i] == u {
                    assert(us.contains(u));
                }
            }
        }
    }
}

/// One upsert leaves a well-formed project with exactly one edge over the
/// pair, carrying the supplied field values.
proof fn lemma_upsert_project_wf(
    p: ProjectView,
    from: Seq<char>,
    to: Seq<char>,
    s: int,
    c: int,
)
    requires
        project_wf(p),
    ensures
        project_wf(upsert_project(p, from, to, s, c)),
        upsert_project(p, from, to, s, c).name == p.name,
        edge_count(upsert_project(p, from, to, s, c).edges, from, to) == 1,
        forall|j: int|
            0 <= j < upsert_project(p, from, to, s, c).edges.len() && edge_matches(
                #[trigger] upsert_project(p, from, to, s, c).edges[j],
                from,
                to,
            ) ==> upsert_project(p, from, to, s, c).edges[j].sentiment_milli == s
                && upsert_project(p, from, to, s, c).edges[j].emails_sent == c,
{
    let q = upsert_project(p, from, to, s, c);
    lemma_add_user_props(p.users, from);
    lemma_add_user_props(add_user(p.users, from), to);
    lemma_first_edge_idx_props(p.edges, from, to);
    let i0 = first_edge_idx(p.edges, from, to);
    if i0 == -1 {
        let e = EdgeView { a: from, b: to, sentiment_milli: s, emails_sent: c };
        assert(q.edges == p.edges.push(e));
        assert(q.edges[p.edges.len() as int] == e);
        lemma_edge_count_zero(p.edges, from, to);
        lemma_edge_count_push(p.edges, e, from, to);
        assert(edge_matches(e, from, to));
        assert forall|i: int, j: int|
            0 <= i < q.edges.len() && 0 <= j < q.edges.len() && i != j implies !edge_matches(
            #[trigger] q.edges[j],
            #[trigger] q.edges[i].a,
            q.edges[i].b,
        ) by {
            if i < p.edges.len() && j < p.edges.len() {
            } else if j == p.edges.len() {
                assert(q.edges[i] == p.edges[i]);
                if edge_matches(e, q.edges[i].a, q.edges[i].b) {
                    assert(edge_matches(p.edges[i], from, to));
                }
            } else {
                assert(i == p.edges.len());
                assert(q.edges[j] == p.edges[j]);
                assert(q.edges[i] == e);
                if edge_matches(q.edges[j], from, to) {
                    assert(false);
                }
            }
        }
        assert forall|i: int|
            0 <= i < q.edges.len() implies has_user(q, #[trigger] q.edges[i].a) && has_user(
            q,
            q.edges[i].b,
        ) by {
            if i < p.edges.len() {
                assert(q.edges[i] == p.edges[i]);
                assert(has_user(p, p.edges[i].a) && has_user(p, p.edges[i].b));
            } else {
                assert(q.edges[i] == e);
            }
        }
        assert forall|j: int|
            0 <= j < q.edges.len() && edge_matches(#[trigger] q.edges[j], from, to) implies q.edges[j].sentiment_milli
            == s && q.edges[j].emails_sent == c by {
            if j < p.edges.len() {
                assert(edge_matches(p.edges[j], from, to));
            }
        }
    } else {
        let e = EdgeView { a: p.edges[i0].a, b: p.edges[i0].b, sentiment_milli: s, emails_sent: c };
        assert(q.edges == p.edges.update(i0, e));
        assert(forall|j: int|
            0 <= j < q.edges.len() ==> (#[trigger] q.edges[j]).a == p.edges[j].a && q.edges[j].b
                == p.edges[j].b);
        assert forall|i: int, j: int|
            0 <= i < q.edges.len() && 0 <= j < q.edges.len() && i != j implies !edge_matches(
            #[trigger] q.edges[j],
            #[trigger] q.edges[i].a,
            q.edges[i].b,
        ) by {
            assert(!edge_matches(p.edges[j], p.edges[i].a, p.edges[i].b));
        }
        assert forall|i: int|
            0 <= i < q.edges.len() implies has_user(q, #[trigger] q.edges[i].a) && has_user(
            q,
            q.edges[i].b,
        ) by {
            assert(has_user(p, p.edges[i].a) && has_user(p, p.edges[i].b));
        }
        assert(edge_matches(q.edges[i0], from, to));
        assert forall|j: int|
            0 <= j < q.edges.len() && j != i0 implies !edge_matches(
            #[trigger] q.edges[j],
            from,
            to,
        ) by {
            if edge_matches(q.edges[j], from, to) {
                assert(edge_matches(p.edges[j], from, to));
                assert(edge_matches(p.edges[i0], from, to));
                assert(edge_matches(p.edges[j], p.edges[i0].a, p.edges[i0].b));
            }
        }
        lemma_edge_count_one(q.edges, i0, from, to);
    }
}

/// Upserting into a well-formed store leaves it well-formed.
pub proof fn lemma_upsert_preserves_wf(
    sv: Seq<ProjectView>,
    project: Seq<char>,
    from: Seq<char>,
    to: Seq<char>,
    s: int,
    c: int,
)
    requires
        store_wf(sv),
    ensures
        store_wf(spec_upsert(sv, project, from, to, s, c)),
{
    let sv2 = spec_upsert(sv, project, from, to, s, c);
    assert forall|i: int| 0 <= i < sv2.len() implies project_wf(#[trigger] sv2[i]) by {
        if sv[i].name == project {
            lemma_upsert_project_wf(sv[i], from, to, s, c);
        }
    }
}

/// Deleting from a well-formed store leaves it well-formed.
pub proof fn lemma_delete_preserves_wf(sv: Seq<ProjectView>, n: Seq<char>)
    requires
        store_wf(sv),
    ensures
        store_wf(spec_delete(sv, n)),
    decreases sv.len(),
{
    if sv.len() > 0 {
        assert(forall|i: int|
            0 <= i < sv.drop_last().len() ==> #[trigger] sv.drop_last()[i] == sv[i]);
        lemma_delete_preserves_wf(sv.drop_last(), n);
        let t = spec_delete(sv.drop_last(), n);
        if sv.last().name != n {
            assert forall|i: int| 0 <= i < t.push(sv.last()).len() implies project_wf(
                #[trigger] t.push(sv.last())[i],
            ) by {
                if i < t.len() {
                    assert(t.push(sv.last())[i] == t[i]);
                } else {
                    assert(t.push(sv.last())[i] == sv.last());
                }
            }
        }
    }
}

/// Writing the same pair twice, with different values, leaves exactly one
/// edge between the two users in every project with the given name, and its
/// fields carry the values of the second write.
pub proof fn lemma_upsert_overwrites(
    sv: Seq<ProjectView>,
    project: Seq<char>,
    from: Seq<char>,
    to: Seq<char>,
    s1: int,
    c1: int,
    s2: int,
    c2: int,
)
    requires
        store_wf(sv),
    ensures
        ({
            let sv2 = spec_upsert(
                spec_upsert(sv, project, from, to, s1, c1),
                project,
                from,
                to,
                s2,
                c2,
            );
            &&& store_wf(sv2)
            &&& sv2.len() == sv.len()
            &&& forall|i: int|
                0 <= i < sv2.len() && (#[trigger] sv2[i]).name == project ==> edge_count(
                    sv2[i].edges,
                    from,
                    to,
                ) == 1
            &&& forall|i: int, j: int|
                0 <= i < sv2.len() && (#[trigger] sv2[i]).name == project && 0 <= j
                    < sv2[i].edges.len() && edge_matches(#[trigger] sv2[i].edges[j], from, to)
                    ==> sv2[i].edges[j].sentiment_milli == s2 && sv2[i].edges[j].emails_sent == c2
        }),
{
    let sv1 = spec_upsert(sv, project, from, to, s1, c1);
    let sv2 = spec_upsert(sv1, project, from, to, s2, c2);
    lemma_upsert_preserves_wf(sv, project, from, to, s1, c1);
    lemma_upsert_preserves_wf(sv1, project, from, to, s2, c2);
    assert forall|i: int|
        0 <= i < sv2.len() && (#[trigger] sv2[i]).name == project implies edge_count(
        sv2[i].edges,
        from,
        to,
    ) == 1 && forall|j: int|
        0 <= j < sv2[i].edges.len() && edge_matches(#[trigger] sv2[i].edges[j], from, to)
            ==> sv2[i].edges[j].sentiment_milli == s2 && sv2[i].edges[j].emails_sent == c2 by {
        if sv[i].name == project {
            lemma_upsert_project_wf(sv[i], from, to, s1, c1);
            assert(sv1[i] == upsert_project(sv[i], from, to, s1, c1));
            lemma_upsert_project_wf(sv1[i], from, to, s2, c2);
            assert(sv2[i] == upsert_project(sv1[i], from, to, s2, c2));
        } else {
            assert(sv1[i] == sv[i]);
            assert(sv2[i] == sv1[i]);
        }
    }
}

/// Deleting a name that no project carries touches nothing.
pub proof fn lemma_delete_unknown_is_identity(sv: Seq<ProjectView>, n: Seq<char>)
    requires
        !has_project(sv, n),
    ensures
        spec_delete(sv, n) == sv,
    decreases sv.len(),
{
    if sv.len() > 0 {
        assert(forall|i: int|
            0 <= i < sv.drop_last().len() ==> #[trigger] sv.drop_last()[i] == sv[i]);
        assert(!has_project(sv.drop_last(), n));
        lemma_delete_unknown_is_identity(sv.drop_last(), n);
        assert(sv.last().name != n);
        assert(sv.drop_last().push(sv.last()) =~= sv);
    }
}

/// An empty store lists no project names.
pub proof fn lemma_list_empty(sv: Seq<ProjectView>)
    requires
        sv.len() == 0,
    ensures
        spec_list(sv).len() == 0,
{
}

} // verus!
