//! The repository registry: the known repositories, one for each root
//! path.

use vstd::prelude::*;
use crate::engine::lexical::bytes_of;
use crate::engine::text::{bytes_eq, copy_range, views};

verus! {

/// A known repository. `generation` counts the embedding rebuilds that
/// were asked for: vectors that come back for an earlier one are dropped.
#[derive(Debug)]
pub struct Repository {
    pub id: u64,
    pub root_path: Vec<u8>,
    pub display_name: Vec<u8>,
    pub created_at: u64,
    pub last_indexed_at: u64,
    pub generation: u64,
}

/// A `Repository` as contracts see it.
pub struct RepositoryView {
    pub id: u64,
    pub root_path: Seq<u8>,
    pub display_name: Seq<u8>,
    pub created_at: u64,
    pub last_indexed_at: u64,
    pub generation: u64,
}

impl View for Repository {
    type V = RepositoryView;

    open spec fn view(&self) -> RepositoryView {
        RepositoryView {
            id: self.id,
            root_path: self.root_path@,
            display_name: self.display_name@,
            created_at: self.created_at,
            last_indexed_at: self.last_indexed_at,
            generation: self.generation,
        }
    }
}

/// Where the last segment of a path begins: behind its last slash that
/// lies in front of byte `n`.
pub open spec fn last_segment(path: Seq<u8>, n: int) -> int
    decreases n,
{
    if n <= 0 {
        0
    } else if path[n - 1] == 0x2f {
        n
    } else {
        last_segment(path, n - 1)
    }
}

/// The name that a repository gets where none is given: the last segment
/// of its root path.
pub open spec fn default_name(path: Seq<u8>) -> Seq<u8> {
    path.subrange(last_segment(path, path.len() as int), path.len() as int)
}

/// The last segment of a path.
pub fn name_of(path: &[u8]) -> (name: Vec<u8>)
    ensures
        name@ == default_name(path@),
{
    let mut n: usize = path.len();
    while n > 0 && path[n - 1] != 0x2f
        invariant
            n <= path.len(),
            last_segment(path@, n as int) == last_segment(path@, path.len() as int),
        decreases n,
    {
        n -= 1;
    }
    copy_range(path, n, path.len())
}

/// The first position from `i` on of a repository with the root path
/// `path`, or the number of repositories where there is none.
pub open spec fn by_path(repos: Seq<RepositoryView>, path: Seq<u8>, i: int) -> int
    decreases repos.len() - i,
{
    if 0 <= i < repos.len() && repos[i].root_path != path {
        by_path(repos, path, i + 1)
    } else {
        i
    }
}

/// The first position from `i` on of the repository with the id `id`, or
/// the number of repositories where there is none.
pub open spec fn by_id(repos: Seq<RepositoryView>, id: u64, i: int) -> int
    decreases repos.len() - i,
{
    if 0 <= i < repos.len() && repos[i].id != id {
        by_id(repos, id, i + 1)
    } else {
        i
    }
}

/// Where the repository of `path` stands: in front of it none has that
/// root path, and none at all where the position is the end.
pub proof fn lemma_by_path(repos: Seq<RepositoryView>, path: Seq<u8>, i: int)
    requires
        0 <= i <= repos.len(),
    ensures
        i <= by_path(repos, path, i) <= repos.len(),
        forall|k: int| i <= k < by_path(repos, path, i) ==> (#[trigger] repos[k]).root_path != path,
        by_path(repos, path, i) < repos.len() ==> repos[by_path(repos, path, i)].root_path == path,
    decreases repos.len() - i,
{
    if i < repos.len() && repos[i].root_path != path {
        lemma_by_path(repos, path, i + 1);
    }
}

/// Where the repository `id` stands: in front of it none has that id,
/// and none at all where the position is the end.
pub proof fn lemma_by_id(repos: Seq<RepositoryView>, id: u64, i: int)
    requires
        0 <= i <= repos.len(),
    ensures
        i <= by_id(repos, id, i) <= repos.len(),
        forall|k: int| i <= k < by_id(repos, id, i) ==> (#[trigger] repos[k]).id != id,
        by_id(repos, id, i) < repos.len() ==> repos[by_id(repos, id, i)].id == id,
    decreases repos.len() - i,
{
    if i < repos.len() && repos[i].id != id {
        lemma_by_id(repos, id, i + 1);
    }
}

/// Whether the repositories have root paths and ids of their own, all ids
/// below `next_id`.
pub open spec fn distinct(repos: Seq<RepositoryView>, next_id: u64) -> bool {
    &&& forall|i: int, j: int|
        0 <= i < j < repos.len() ==> (#[trigger] repos[i]).root_path != (
        #[trigger] repos[j]).root_path && repos[i].id != repos[j].id
    &&& forall|i: int| 0 <= i < repos.len() ==> (#[trigger] repos[i]).id < next_id
}

/// The repository registry.
pub struct Registry {
    repos: Vec<Repository>,
    next_id: u64,
}

impl View for Registry {
    type V = Seq<RepositoryView>;

    closed spec fn view(&self) -> Seq<RepositoryView> {
        views(self.repos@)
    }
}

impl Registry {
    /// The id that the next new repository gets.
    pub closed spec fn next_id(&self) -> u64 {
        self.next_id
    }

    /// The registry is sound where no two repositories share a root path
    /// or an id.
    pub open spec fn wf(&self) -> bool {
        distinct(self@, self.next_id())
    }

    /// A registry without repositories.
    pub fn new() -> (r: Registry)
        ensures
            r.wf(),
            r@ == Seq::<RepositoryView>::empty(),
            r.next_id() == 1,
    {
        let r = Registry { repos: Vec::new(), next_id: 1 };
        assert(r@ =~= Seq::<RepositoryView>::empty());
        r
    }

    /// A registry of the repositories `repos`, as an earlier run wrote
    /// them out, or none where two of them share a root path or an id, or
    /// one has an id that is not below `next_id`.
    pub fn restore(repos: Vec<Repository>, next_id: u64) -> (r: Option<Registry>)
        ensures
            r is Some <==> distinct(views(repos@), next_id),
            r matches Some(reg) ==> reg@ == views(repos@) && reg.next_id() == next_id && reg.wf(),
    {
        let ghost rs = views(repos@);
        let mut j: usize = 0;
        while j < repos.len()
            invariant
                j <= repos.len(),
                rs == views(repos@),
                forall|a: int, b: int|
                    0 <= a < b < j ==> (#[trigger] rs[a]).root_path != (#[trigger] rs[b]).root_path
                        && rs[a].id != rs[b].id,
                forall|a: int| 0 <= a < j ==> (#[trigger] rs[a]).id < next_id,
            decreases repos.len() - j,
        {
            assert(rs[j as int] == repos[j as int]@);
            if repos[j].id >= next_id {
                return None;
            }
            let mut i: usize = 0;
            while i < j
                invariant
                    i <= j,
                    j < repos.len(),
                    rs == views(repos@),
                    forall|a: int|
                        0 <= a < i ==> (#[trigger] rs[a]).root_path != rs[j as int].root_path
                            && rs[a].id != rs[j as int].id,
                decreases j - i,
            {
                assert(rs[i as int] == repos[i as int]@);
                assert(rs[j as int] == repos[j as int]@);
                if repos[i].id == repos[j].id || bytes_eq(
                    repos[i].root_path.as_slice(),
                    repos[j].root_path.as_slice(),
                ) {
                    assert(!(rs[i as int].root_path != rs[j as int].root_path && rs[i as int].id
                        != rs[j as int].id));
                    return None;
                }
                i += 1;
            }
            j += 1;
        }
        Some(Registry { repos, next_id })
    }

    /// The id that the next new repository gets.
    pub fn upcoming(&self) -> (id: u64)
        ensures
            id == self.next_id(),
    {
        self.next_id
    }

    /// All repositories.
    pub fn list(&self) -> (r: &Vec<Repository>)
        ensures
            views(r@) == self@,
    {
        &self.repos
    }

    /// The position of the repository with the root path `path`.
    pub fn find_path(&self, path: &[u8]) -> (r: Option<usize>)
        ensures
            match r {
                Some(i) => i == by_path(self@, path@, 0) && i < self@.len(),
                None => by_path(self@, path@, 0) == self@.len(),
            },
    {
        let mut i: usize = 0;
        while i < self.repos.len()
            invariant
                i <= self.repos.len(),
                by_path(self@, path@, i as int) == by_path(self@, path@, 0),
            decreases self.repos.len() - i,
        {
            assert(self@[i as int] == self.repos[i as int]@);
            if bytes_eq(self.repos[i].root_path.as_slice(), path) {
                return Some(i);
            }
            i += 1;
        }
        None
    }

    /// The position of the repository with the id `id`.
    pub fn find_id(&self, id: u64) -> (r: Option<usize>)
        ensures
            match r {
                Some(i) => i == by_id(self@, id, 0) && i < self@.len(),
                None => by_id(self@, id, 0) == self@.len(),
            },
    {
        let mut i: usize = 0;
        while i < self.repos.len()
            invariant
                i <= self.repos.len(),
                by_id(self@, id, i as int) == by_id(self@, id, 0),
            decreases self.repos.len() - i,
        {
            assert(self@[i as int] == self.repos[i as int]@);
            if self.repos[i].id == id {
                return Some(i);
            }
            i += 1;
        }
        None
    }

    /// The repository at position `i`.
    pub fn get(&self, i: usize) -> (r: &Repository)
        requires
            i < self@.len(),
        ensures
            r@ == self@[i as int],
    {
        &self.repos[i]
    }

    /// The registry after the root path `path` was registered at `now`:
    /// a repository that is known stays as it is; a new one enters with
    /// the next id, under `name` or, where none is given, the last
    /// segment of its path.
    pub open spec fn registered(
        repos: Seq<RepositoryView>,
        next_id: u64,
        path: Seq<u8>,
        name: Option<Seq<u8>>,
        now: u64,
    ) -> Seq<RepositoryView> {
        if by_path(repos, path, 0) < repos.len() {
            repos
        } else {
            repos.push(
                RepositoryView {
                    id: next_id,
                    root_path: path,
                    display_name: match name {
                        Some(n) => n,
                        None => default_name(path),
                    },
                    created_at: now,
                    last_indexed_at: now,
                    generation: 0,
                },
            )
        }
    }

    /// Registers the root path `path` and gives the id of its repository.
    /// `None` where the ids have run out; the registry then stays as it
    /// is.
    pub fn register(&mut self, path: &[u8], name: Option<Vec<u8>>, now: u64) -> (r: Option<u64>)
        requires
            old(self).wf(),
        ensures
            final(self).wf(),
            match r {
                Some(id) => {
                    &&& final(self)@ == Self::registered(
                        old(self)@,
                        old(self).next_id(),
                        path@,
                        match name {
                            Some(n) => Some(n@),
                            None => None,
                        },
                        now,
                    )
                    &&& by_path(final(self)@, path@, 0) < final(self)@.len()
                    &&& id == final(self)@[by_path(final(self)@, path@, 0)].id
                    &&& final(self).next_id() == if by_path(old(self)@, path@, 0) < old(self)@.len() {
                        old(self).next_id()
                    } else {
                        (old(self).next_id() + 1) as u64
                    }
                },
                None => {
                    &&& final(self)@ == old(self)@
                    &&& final(self).next_id() == old(self).next_id()
                    &&& by_path(old(self)@, path@, 0) == old(self)@.len()
                    &&& old(self).next_id() == u64::MAX
                },
            },
    {
        proof {
            lemma_by_path(self@, path@, 0);
        }
        match self.find_path(path) {
            Some(i) => Some(self.repos[i].id),
            None => {
                if self.next_id == u64::MAX {
                    return None;
                }
                let id = self.next_id;
                let display_name = match name {
                    Some(n) => n,
                    None => name_of(path),
                };
                let repo = Repository {
                    id,
                    root_path: bytes_of(path),
                    display_name,
                    created_at: now,
                    last_indexed_at: now,
                    generation: 0,
                };
                let ghost before = self@;
                let ghost rv = repo@;
                self.repos.push(repo);
                self.next_id = id + 1;
                proof {
                    assert(self@ =~= before.push(rv));
                    lemma_by_path(self@, path@, 0);
                    assert(self@[before.len() as int].root_path == path@);
                    assert forall|i: int, j: int| 0 <= i < j < self@.len() implies (
                    #[trigger] self@[i]).root_path != (#[trigger] self@[j]).root_path && self@[i].id
                        != self@[j].id by {
                        assert(self@[i] == before[i]);
                        if j < before.len() {
                            assert(self@[j] == before[j]);
                        }
                    }
                    assert forall|i: int| 0 <= i < self@.len() implies (#[trigger] self@[i]).id
                        < self.next_id by {
                        if i < before.len() {
                            assert(self@[i] == before[i]);
                        }
                    }
                }
                Some(id)
            },
        }
    }

    /// The registry after the repository at position `i` was changed to
    /// have been indexed at `now` and to stand at rebuild `generation`.
    pub open spec fn marked(repos: Seq<RepositoryView>, i: int, now: u64, generation: u64) -> Seq<
        RepositoryView,
    > {
        repos.update(i, RepositoryView { last_indexed_at: now, generation, ..repos[i] })
    }

    /// Notes that the repository at position `i` was indexed at `now` and
    /// stands at rebuild `generation`.
    pub fn mark(&mut self, i: usize, now: u64, generation: u64)
        requires
            old(self).wf(),
            i < old(self)@.len(),
        ensures
            final(self).wf(),
            final(self).next_id() == old(self).next_id(),
            final(self)@ == Self::marked(old(self)@, i as int, now, generation),
    {
        let ghost before = self@;
        let mut repo = self.repos.remove(i);
        assert(repo@ == before[i as int]);
        repo.last_indexed_at = now;
        repo.generation = generation;
        self.repos.insert(i, repo);
        proof {
            assert(self@ =~= Self::marked(before, i as int, now, generation));
            assert forall|a: int, b: int| 0 <= a < b < self@.len() implies (
            #[trigger] self@[a]).root_path != (#[trigger] self@[b]).root_path && self@[a].id
                != self@[b].id by {
                assert(self@[a].root_path == before[a].root_path);
                assert(self@[b].root_path == before[b].root_path);
            }
            assert forall|a: int| 0 <= a < self@.len() implies (#[trigger] self@[a]).id
                < self.next_id by {
                assert(self@[a].id == before[a].id);
            }
        }
    }

    /// Removes the repository at position `i`.
    pub fn remove(&mut self, i: usize)
        requires
            old(self).wf(),
            i < old(self)@.len(),
        ensures
            final(self).wf(),
            final(self).next_id() == old(self).next_id(),
            final(self)@ == old(self)@.remove(i as int),
    {
        let ghost before = self@;
        self.repos.remove(i);
        proof {
            assert(self@ =~= before.remove(i as int));
            assert forall|a: int, b: int| 0 <= a < b < self@.len() implies (
            #[trigger] self@[a]).root_path != (#[trigger] self@[b]).root_path && self@[a].id
                != self@[b].id by {
                let x = if a < i { a } else { a + 1 };
                let y = if b < i { b } else { b + 1 };
                assert(self@[a] == before[x]);
                assert(self@[b] == before[y]);
            }
            assert forall|a: int| 0 <= a < self@.len() implies (#[trigger] self@[a]).id
                < self.next_id by {
                let x = if a < i { a } else { a + 1 };
                assert(self@[a] == before[x]);
            }
        }
    }
}

} // verus!
