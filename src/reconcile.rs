//! Pairing the local names with the target names, and the steps that turn the
//! local set into the target set.
use vstd::prelude::*;
use crate::fields::{is_same_file, same_file, views_of};

verus! {

/// One change to the directory.
#[derive(Debug, PartialEq, Eq)]
pub enum Action {
    /// Write a placeholder file of this name.
    Create(String),
    /// Rename the first file to the second name.
    Rename(String, String),
    /// Remove the file of this name.
    Delete(String),
}

/// An `Action` over character sequences.
pub enum Step {
    Create(Seq<char>),
    Rename(Seq<char>, Seq<char>),
    Delete(Seq<char>),
}

impl View for Action {
    type V = Step;

    open spec fn view(&self) -> Step {
        match self {
            Action::Create(n) => Step::Create(n@),
            Action::Rename(a, b) => Step::Rename(a@, b@),
            Action::Delete(n) => Step::Delete(n@),
        }
    }
}

/// The steps of a list of actions.
pub open spec fn steps_of(v: Seq<Action>) -> Seq<Step> {
    v.map_values(|a: Action| a@)
}

/// The names on both sides of a pairing and whether each is already paired.
pub struct FileStatus {
    pub local_files: Vec<String>,
    pub remote_files: Vec<String>,
    pub local_processed_files: Vec<bool>,
    pub remote_processed_files: Vec<bool>,
}

impl FileStatus {
    /// Each name has its flag.
    pub open spec fn wf(&self) -> bool {
        &&& self.local_processed_files@.len() == self.local_files@.len()
        &&& self.remote_processed_files@.len() == self.remote_files@.len()
    }

    pub fn new() -> (r: Self)
        ensures
            r.local_files@.len() == 0,
            r.remote_files@.len() == 0,
            r.local_processed_files@.len() == 0,
            r.remote_processed_files@.len() == 0,
            r.wf(),
    {
        Self {
            local_files: Vec::new(),
            remote_files: Vec::new(),
            local_processed_files: Vec::new(),
            remote_processed_files: Vec::new(),
        }
    }

    /// Adds an unset flag for the next local name.
    pub fn add_local_processed_files(&mut self)
        ensures
            final(self).local_processed_files@ == old(self).local_processed_files@.push(false),
            final(self).local_files == old(self).local_files,
            final(self).remote_files == old(self).remote_files,
            final(self).remote_processed_files == old(self).remote_processed_files,
    {
        self.local_processed_files.push(false);
    }

    /// Adds an unset flag for the next target name.
    pub fn add_remote_processed_files(&mut self)
        ensures
            final(self).remote_processed_files@ == old(self).remote_processed_files@.push(false),
            final(self).local_files == old(self).local_files,
            final(self).remote_files == old(self).remote_files,
            final(self).local_processed_files == old(self).local_processed_files,
    {
        self.remote_processed_files.push(false);
    }

    /// Adds a local name.
    pub fn add_local_file(&mut self, file_name: String)
        ensures
            final(self).local_files@ == old(self).local_files@.push(file_name),
            final(self).remote_files == old(self).remote_files,
            final(self).local_processed_files == old(self).local_processed_files,
            final(self).remote_processed_files == old(self).remote_processed_files,
    {
        self.local_files.push(file_name);
    }

    /// Adds a target name.
    pub fn add_remote_file(&mut self, file_name: String)
        ensures
            final(self).remote_files@ == old(self).remote_files@.push(file_name),
            final(self).local_files == old(self).local_files,
            final(self).local_processed_files == old(self).local_processed_files,
            final(self).remote_processed_files == old(self).remote_processed_files,
    {
        self.remote_files.push(file_name);
    }
}

/// Local name `k` is still free for a loose pairing: no target has its exact
/// name and no earlier target took it.
pub open spec fn fuzzy_free(
    t: Seq<Seq<char>>,
    l: Seq<Seq<char>>,
    src: Seq<Option<int>>,
    k: int,
) -> bool {
    0 <= k < l.len() && !t.contains(l[k]) && !src.contains(Some(k))
}

/// The lowest free local index, from `from` on, whose name loosely equals `name`.
pub open spec fn first_fuzzy(
    t: Seq<Seq<char>>,
    l: Seq<Seq<char>>,
    src: Seq<Option<int>>,
    name: Seq<char>,
    from: int,
) -> Option<int>
    decreases l.len() - from,
{
    if from >= l.len() {
        None
    } else if fuzzy_free(t, l, src, from) && same_file(name, l[from]) {
        Some(from)
    } else {
        first_fuzzy(t, l, src, name, from + 1)
    }
}

/// For each of the first `m` targets, the local index it is renamed from, if
/// any. A target that some local name equals exactly is never renamed to;
/// the others, in order, take the first free local name that loosely equals
/// them.
pub open spec fn rename_sources(t: Seq<Seq<char>>, l: Seq<Seq<char>>, m: int) -> Seq<
    Option<int>,
>
    decreases m,
{
    if m <= 0 {
        Seq::empty()
    } else {
        let prev = rename_sources(t, l, m - 1);
        prev.push(
            if l.contains(t[m - 1]) {
                None
            } else {
                first_fuzzy(t, l, prev, t[m - 1], 0)
            },
        )
    }
}

/// The renames for the first `m` targets, in target order.
pub open spec fn rename_steps(t: Seq<Seq<char>>, l: Seq<Seq<char>>, m: int) -> Seq<Step>
    decreases m,
{
    if m <= 0 {
        Seq::empty()
    } else {
        let r = rename_steps(t, l, m - 1);
        match rename_sources(t, l, m)[m - 1] {
            Some(k) => r.push(Step::Rename(l[k], t[m - 1])),
            None => r,
        }
    }
}

/// The creates among the first `m` targets: those with no exact and no loose
/// local counterpart.
pub open spec fn create_steps(
    t: Seq<Seq<char>>,
    l: Seq<Seq<char>>,
    src: Seq<Option<int>>,
    m: int,
) -> Seq<Step>
    decreases m,
{
    if m <= 0 {
        Seq::empty()
    } else {
        let r = create_steps(t, l, src, m - 1);
        if !l.contains(t[m - 1]) && src[m - 1] is None {
            r.push(Step::Create(t[m - 1]))
        } else {
            r
        }
    }
}

/// The deletes among the first `m` local names: those that no target equals
/// and none was renamed to.
pub open spec fn delete_steps(
    t: Seq<Seq<char>>,
    l: Seq<Seq<char>>,
    src: Seq<Option<int>>,
    m: int,
) -> Seq<Step>
    decreases m,
{
    if m <= 0 {
        Seq::empty()
    } else {
        let r = delete_steps(t, l, src, m - 1);
        if !t.contains(l[m - 1]) && !src.contains(Some(m - 1)) {
            r.push(Step::Delete(l[m - 1]))
        } else {
            r
        }
    }
}

/// The plan that brings the local names `l` to the targets `t`: the renames,
/// then the creates, then the deletes.
pub open spec fn plan(t: Seq<Seq<char>>, l: Seq<Seq<char>>) -> Seq<Step> {
    let src = rename_sources(t, l, t.len() as int);
    rename_steps(t, l, t.len() as int) + create_steps(t, l, src, t.len() as int) + delete_steps(
        t,
        l,
        src,
        l.len() as int,
    )
}

/// A status that holds the two name lists, every flag unset.
fn load_status(remote: &Vec<String>, local: &Vec<String>) -> (st: FileStatus)
    ensures
        st.wf(),
        views_of(st.remote_files@) == views_of(remote@),
        views_of(st.local_files@) == views_of(local@),
        forall|a: int| 0 <= a < st.remote_files@.len() ==> !st.remote_processed_files@[a],
        forall|k: int| 0 <= k < st.local_files@.len() ==> !st.local_processed_files@[k],
{
    let mut st = FileStatus::new();
    let mut j: usize = 0;
    while j < local.len()
        invariant
            j <= local.len(),
            st.wf(),
            st.remote_files@.len() == 0,
            views_of(st.local_files@) == views_of(local@).take(j as int),
            forall|k: int| 0 <= k < st.local_files@.len() ==> !st.local_processed_files@[k],
        decreases local.len() - j,
    {
        let name = local[j].clone();
        assert(name@ == views_of(local@)[j as int]);
        let ghost before = st.local_files@;
        st.add_local_file(name);
        assert(views_of(st.local_files@) =~= views_of(before).push(name@));
        assert(views_of(local@).take(j + 1) =~= views_of(local@).take(j as int).push(name@));
        st.add_local_processed_files();
        assert(views_of(st.local_files@) =~= views_of(local@).take(j + 1));
        j = j + 1;
    }
    let mut i: usize = 0;
    while i < remote.len()
        invariant
            i <= remote.len(),
            st.wf(),
            views_of(st.local_files@) == views_of(local@),
            views_of(st.remote_files@) == views_of(remote@).take(i as int),
            forall|k: int| 0 <= k < st.local_files@.len() ==> !st.local_processed_files@[k],
            forall|a: int| 0 <= a < st.remote_files@.len() ==> !st.remote_processed_files@[a],
        decreases remote.len() - i,
    {
        let name = remote[i].clone();
        assert(name@ == views_of(remote@)[i as int]);
        let ghost before = st.remote_files@;
        st.add_remote_file(name);
        assert(views_of(st.remote_files@) =~= views_of(before).push(name@));
        assert(views_of(remote@).take(i + 1) =~= views_of(remote@).take(i as int).push(name@));
        st.add_remote_processed_files();
        assert(views_of(st.remote_files@) =~= views_of(remote@).take(i + 1));
        i = i + 1;
    }
    assert(views_of(local@).take(local.len() as int) =~= views_of(local@));
    assert(views_of(remote@).take(remote.len() as int) =~= views_of(remote@));
    st
}

/// Marks every name that has an exact counterpart on the other side.
fn pair_exact(st: &mut FileStatus)
    requires
        old(st).wf(),
        forall|a: int| 0 <= a < old(st).remote_files@.len() ==> !old(st).remote_processed_files@[a],
        forall|k: int| 0 <= k < old(st).local_files@.len() ==> !old(st).local_processed_files@[k],
    ensures
        final(st).wf(),
        final(st).remote_files == old(st).remote_files,
        final(st).local_files == old(st).local_files,
        forall|a: int|
            0 <= a < final(st).remote_files@.len() ==> final(st).remote_processed_files@[a]
                == views_of(final(st).local_files@).contains(views_of(final(st).remote_files@)[a]),
        forall|k: int|
            0 <= k < final(st).local_files@.len() ==> final(st).local_processed_files@[k]
                == views_of(final(st).remote_files@).contains(views_of(final(st).local_files@)[k]),
{
    let ghost t = views_of(st.remote_files@);
    let ghost l = views_of(st.local_files@);
    let nt = st.remote_files.len();
    let nl = st.local_files.len();
    let mut i: usize = 0;
    while i < nt
        invariant
            st.wf(),
            st.remote_files == old(st).remote_files,
            st.local_files == old(st).local_files,
            t == views_of(st.remote_files@),
            l == views_of(st.local_files@),
            nt == t.len(),
            nl == l.len(),
            i <= nt,
            forall|a: int| 0 <= a < i ==> st.remote_processed_files@[a] == l.contains(t[a]),
            forall|a: int| i <= a < nt ==> !st.remote_processed_files@[a],
            forall|k: int|
                0 <= k < nl ==> st.local_processed_files@[k] == t.take(i as int).contains(l[k]),
        decreases nt - i,
    {
        let mut j: usize = 0;
        while j < nl
            invariant
                st.wf(),
                st.remote_files == old(st).remote_files,
                st.local_files == old(st).local_files,
                t == views_of(st.remote_files@),
                l == views_of(st.local_files@),
                nt == t.len(),
                nl == l.len(),
                i < nt,
                j <= nl,
                forall|a: int| 0 <= a < i ==> st.remote_processed_files@[a] == l.contains(t[a]),
                forall|a: int| i < a < nt ==> !st.remote_processed_files@[a],
                st.remote_processed_files@[i as int] == l.take(j as int).contains(t[i as int]),
                forall|k: int|
                    0 <= k < j ==> st.local_processed_files@[k] == t.take(i + 1).contains(l[k]),
                forall|k: int|
                    j <= k < nl ==> st.local_processed_files@[k] == t.take(i as int).contains(l[k]),
            decreases nl - j,
        {
            let same = st.remote_files[i] == st.local_files[j];
            if same {
                st.remote_processed_files[i] = true;
                st.local_processed_files[j] = true;
            }
            proof {
                assert(t.take(i + 1) =~= t.take(i as int).push(t[i as int]));
                assert(l.take(j + 1) =~= l.take(j as int).push(l[j as int]));
                if same {
                    assert(l.take(j + 1)[j as int] == t[i as int]);
                    assert(t.take(i + 1)[i as int] == l[j as int]);
                }
                assert forall|k: int| 0 <= k < j + 1 implies #[trigger] st.local_processed_files@[k]
                    == t.take(i + 1).contains(l[k]) by {
                    if k == j {
                        if !same && t.take(i + 1).contains(l[k]) {
                            let w = choose|w: int| 0 <= w < i + 1 && #[trigger] t.take(i + 1)[w] == l[k];
                            assert(t.take(i as int)[w] == l[k]);
                        }
                        if !same && t.take(i as int).contains(l[k]) {
                            let w = choose|w: int| 0 <= w < i && #[trigger] t.take(i as int)[w] == l[k];
                            assert(t.take(i + 1)[w] == l[k]);
                        }
                    }
                };
                if !same && l.take(j + 1).contains(t[i as int]) {
                    let w = choose|w: int| 0 <= w < j + 1 && #[trigger] l.take(j + 1)[w] == t[i as int];
                    assert(l.take(j as int)[w] == t[i as int]);
                }
                if l.take(j as int).contains(t[i as int]) {
                    let w = choose|w: int| 0 <= w < j && #[trigger] l.take(j as int)[w] == t[i as int];
                    assert(l.take(j + 1)[w] == t[i as int]);
                }
            }
            j = j + 1;
        }
        proof {
            assert(l.take(nl as int) =~= l);
        }
        i = i + 1;
    }
    proof {
        assert(t.take(nt as int) =~= t);
    }
}

/// There is one entry per target considered.
proof fn lemma_sources_len(t: Seq<Seq<char>>, l: Seq<Seq<char>>, m: int)
    requires
        0 <= m,
    ensures
        rename_sources(t, l, m).len() == m,
    decreases m,
{
    if m > 0 {
        lemma_sources_len(t, l, m - 1);
    }
}

/// The first local name, in order, that is not yet paired and loosely equals
/// target `i`.
fn find_fuzzy(st: &FileStatus, i: usize, src: Ghost<Seq<Option<int>>>) -> (r: Option<usize>)
    requires
        st.wf(),
        i < st.remote_files@.len(),
        forall|k: int|
            0 <= k < st.local_files@.len() ==> st.local_processed_files@[k] == (views_of(
                st.remote_files@,
            ).contains(views_of(st.local_files@)[k]) || src@.contains(Some(k))),
    ensures
        r matches Some(j) ==> j < st.local_files@.len(),
        r matches Some(j) ==> first_fuzzy(
            views_of(st.remote_files@),
            views_of(st.local_files@),
            src@,
            st.remote_files@[i as int]@,
            0,
        ) == Some(j as int),
        r is None ==> first_fuzzy(
            views_of(st.remote_files@),
            views_of(st.local_files@),
            src@,
            st.remote_files@[i as int]@,
            0,
        ) is None,
{
    let ghost t = views_of(st.remote_files@);
    let ghost l = views_of(st.local_files@);
    let ghost name = st.remote_files@[i as int]@;
    let nl = st.local_files.len();
    let mut j: usize = 0;
    while j < nl
        invariant
            st.wf(),
            i < st.remote_files@.len(),
            t == views_of(st.remote_files@),
            l == views_of(st.local_files@),
            name == st.remote_files@[i as int]@,
            nl == l.len(),
            j <= nl,
            forall|k: int|
                0 <= k < nl ==> st.local_processed_files@[k] == (t.contains(l[k])
                    || src@.contains(Some(k))),
            first_fuzzy(t, l, src@, name, 0) == first_fuzzy(t, l, src@, name, j as int),
        decreases nl - j,
    {
        if !st.local_processed_files[j]
            && is_same_file(st.remote_files[i].as_str(), st.local_files[j].as_str()) {
            return Some(j);
        }
        j = j + 1;
    }
    None
}

/// Pairs each target still unpaired with the first unpaired local name that
/// loosely equals it, and returns the renames in target order.
fn pair_fuzzy(st: &mut FileStatus) -> (renames: Vec<Action>)
    requires
        old(st).wf(),
        forall|a: int|
            0 <= a < old(st).remote_files@.len() ==> old(st).remote_processed_files@[a]
                == views_of(old(st).local_files@).contains(views_of(old(st).remote_files@)[a]),
        forall|k: int|
            0 <= k < old(st).local_files@.len() ==> old(st).local_processed_files@[k]
                == views_of(old(st).remote_files@).contains(views_of(old(st).local_files@)[k]),
    ensures
        final(st).wf(),
        final(st).remote_files == old(st).remote_files,
        final(st).local_files == old(st).local_files,
        ({
            let t = views_of(final(st).remote_files@);
            let l = views_of(final(st).local_files@);
            let src = rename_sources(t, l, t.len() as int);
            &&& forall|a: int|
                0 <= a < t.len() ==> final(st).remote_processed_files@[a] == (l.contains(t[a])
                    || src[a] is Some)
            &&& forall|k: int|
                0 <= k < l.len() ==> final(st).local_processed_files@[k] == (t.contains(l[k])
                    || src.contains(Some(k)))
            &&& steps_of(renames@) == rename_steps(t, l, t.len() as int)
        }),
{
    let ghost t = views_of(st.remote_files@);
    let ghost l = views_of(st.local_files@);
    let nt = st.remote_files.len();
    let mut renames: Vec<Action> = Vec::new();
    let mut i: usize = 0;
    proof {
        assert(rename_sources(t, l, 0) =~= Seq::<Option<int>>::empty());
    }
    while i < nt
        invariant
            st.wf(),
            st.remote_files == old(st).remote_files,
            st.local_files == old(st).local_files,
            t == views_of(st.remote_files@),
            l == views_of(st.local_files@),
            nt == t.len(),
            i <= nt,
            rename_sources(t, l, i as int).len() == i,
            forall|a: int|
                0 <= a < i ==> st.remote_processed_files@[a] == (l.contains(t[a]) || rename_sources(
                    t,
                    l,
                    i as int,
                )[a] is Some),
            forall|a: int| i <= a < nt ==> st.remote_processed_files@[a] == l.contains(t[a]),
            forall|k: int|
                0 <= k < l.len() ==> st.local_processed_files@[k] == (t.contains(l[k])
                    || rename_sources(t, l, i as int).contains(Some(k))),
            steps_of(renames@) == rename_steps(t, l, i as int),
        decreases nt - i,
    {
        let ghost prev = rename_sources(t, l, i as int);
        let ghost prev_steps = steps_of(renames@);
        let ghost next = rename_sources(t, l, i + 1);
        assert(next == prev.push(
            if l.contains(t[i as int]) {
                None
            } else {
                first_fuzzy(t, l, prev, t[i as int], 0)
            },
        ));
        assert(t[i as int] == st.remote_files@[i as int]@);
        if !st.remote_processed_files[i] {
            let found = find_fuzzy(st, i, Ghost(prev));
            if let Some(j) = found {
                let from = st.local_files[j].clone();
                let to = st.remote_files[i].clone();
                renames.push(Action::Rename(from, to));
                st.remote_processed_files[i] = true;
                st.local_processed_files[j] = true;
                proof {
                    assert(next[i as int] == Some(j as int));
                    assert(steps_of(renames@) =~= prev_steps.push(
                        Step::Rename(l[j as int], t[i as int]),
                    ));
                    assert forall|k: int| 0 <= k < l.len() implies #[trigger] st.local_processed_files@[k]
                        == (t.contains(l[k]) || next.contains(Some(k))) by {
                        if prev.contains(Some(k)) {
                            let w = choose|w: int| 0 <= w < prev.len() && #[trigger] prev[w] == Some(k);
                            assert(next[w] == Some(k));
                        }
                        if next.contains(Some(k)) && k != j {
                            let w = choose|w: int| 0 <= w < next.len() && #[trigger] next[w] == Some(k);
                            assert(w != i);
                            assert(prev[w] == Some(k));
                        }
                        if k == j {
                            assert(next[i as int] == Some(k));
                        }
                    };
                }
            } else {
                proof {
                    assert(next[i as int] is None);
                    assert(steps_of(renames@) == rename_steps(t, l, i + 1));
                    assert forall|k: int| 0 <= k < l.len() implies #[trigger] st.local_processed_files@[k]
                        == (t.contains(l[k]) || next.contains(Some(k))) by {
                        if prev.contains(Some(k)) {
                            let w = choose|w: int| 0 <= w < prev.len() && #[trigger] prev[w] == Some(k);
                            assert(next[w] == Some(k));
                        }
                        if next.contains(Some(k)) {
                            let w = choose|w: int| 0 <= w < next.len() && #[trigger] next[w] == Some(k);
                            assert(w != i);
                            assert(prev[w] == Some(k));
                        }
                    };
                }
            }
        } else {
            proof {
                assert(next[i as int] is None);
                assert(steps_of(renames@) == rename_steps(t, l, i + 1));
                assert forall|k: int| 0 <= k < l.len() implies #[trigger] st.local_processed_files@[k]
                    == (t.contains(l[k]) || next.contains(Some(k))) by {
                    if prev.contains(Some(k)) {
                        let w = choose|w: int| 0 <= w < prev.len() && #[trigger] prev[w] == Some(k);
                        assert(next[w] == Some(k));
                    }
                    if next.contains(Some(k)) {
                        let w = choose|w: int| 0 <= w < next.len() && #[trigger] next[w] == Some(k);
                        assert(w != i);
                        assert(prev[w] == Some(k));
                    }
                };
            }
        }
        proof {
            assert forall|a: int| 0 <= a < i + 1 implies #[trigger] st.remote_processed_files@[a]
                == (l.contains(t[a]) || next[a] is Some) by {
                if a < i {
                    assert(next[a] == prev[a]);
                }
            };
            lemma_sources_len(t, l, i + 1);
        }
        i = i + 1;
    }
    renames
}

/// The steps that turn the local names `local` into the target names
/// `remote`. A target that a local name equals exactly stays as it is. Each
/// other target, in order, is renamed to from the first free local name that
/// holds the same fields; the targets left are created and the local names
/// left are deleted. Renames come first, then creates, then deletes.
pub fn reconcile(remote: &Vec<String>, local: &Vec<String>) -> (steps: Vec<Action>)
    ensures
        steps_of(steps@) == plan(views_of(remote@), views_of(local@)),
{
    let mut st = load_status(remote, local);
    pair_exact(&mut st);
    let mut steps = pair_fuzzy(&mut st);
    let ghost t = views_of(st.remote_files@);
    let ghost l = views_of(st.local_files@);
    let ghost src = rename_sources(t, l, t.len() as int);
    let ghost renames = steps_of(steps@);
    let nt = st.remote_files.len();
    let nl = st.local_files.len();
    let mut i: usize = 0;
    while i < nt
        invariant
            st.wf(),
            t == views_of(st.remote_files@),
            l == views_of(st.local_files@),
            nt == t.len(),
            nl == l.len(),
            i <= nt,
            src == rename_sources(t, l, t.len() as int),
            renames == rename_steps(t, l, t.len() as int),
            forall|a: int|
                0 <= a < t.len() ==> st.remote_processed_files@[a] == (l.contains(t[a])
                    || src[a] is Some),
            steps_of(steps@) == renames + create_steps(t, l, src, i as int),
        decreases nt - i,
    {
        if !st.remote_processed_files[i] {
            let ghost before = steps_of(steps@);
            let name = st.remote_files[i].clone();
            steps.push(Action::Create(name));
            assert(steps_of(steps@) =~= before.push(Step::Create(t[i as int])));
        }
        assert(renames + create_steps(t, l, src, i + 1) =~= if !st.remote_processed_files@[i as int] {
            (renames + create_steps(t, l, src, i as int)).push(Step::Create(t[i as int]))
        } else {
            renames + create_steps(t, l, src, i as int)
        });
        i = i + 1;
    }
    let ghost with_creates = steps_of(steps@);
    let mut k: usize = 0;
    while k < nl
        invariant
            st.wf(),
            t == views_of(st.remote_files@),
            l == views_of(st.local_files@),
            nt == t.len(),
            nl == l.len(),
            k <= nl,
            with_creates == renames + create_steps(t, l, src, nt as int),
            forall|m: int|
                0 <= m < l.len() ==> st.local_processed_files@[m] == (t.contains(l[m])
                    || src.contains(Some(m))),
            steps_of(steps@) == with_creates + delete_steps(t, l, src, k as int),
        decreases nl - k,
    {
        if !st.local_processed_files[k] {
            let ghost before = steps_of(steps@);
            let name = st.local_files[k].clone();
            steps.push(Action::Delete(name));
            assert(steps_of(steps@) =~= before.push(Step::Delete(l[k as int])));
        }
        assert(with_creates + delete_steps(t, l, src, k + 1) =~= if !st.local_processed_files@[k as int] {
            (with_creates + delete_steps(t, l, src, k as int)).push(Step::Delete(l[k as int]))
        } else {
            with_creates + delete_steps(t, l, src, k as int)
        });
        k = k + 1;
    }
    steps
}

} // verus!
