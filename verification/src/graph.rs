//! The dependency graph of a project: for each file, the symbols it defines
//! and the files it depends on, with the queries the command line answers.
use vstd::prelude::*;

use crate::text::{chars_eq, str_to_chars, views};

verus! {

/// A named definition found in a file, with its line.
pub struct Symbol {
    pub name: String,
    pub kind: String,
    pub line: usize,
}

/// A file of the dependency graph: its path, the symbols it defines, and the
/// files it depends on.
pub struct FileNode {
    pub path: String,
    pub symbols: Vec<Symbol>,
    pub depends_on: Vec<String>,
}

/// The files of a project with their symbols and dependencies.
pub struct DependencyGraph {
    pub files: Vec<FileNode>,
}

/// The text of each string.
pub open spec fn strings_view(v: Seq<String>) -> Seq<Seq<char>> {
    v.map_values(|s: String| s@)
}

/// The graph as its edges: each file's path with the paths it depends on.
pub open spec fn edges(g: DependencyGraph) -> Seq<(Seq<char>, Seq<Seq<char>>)> {
    g.files@.map_values(|f: FileNode| (f.path@, strings_view(f.depends_on@)))
}

/// The paths of the files that depend on `p`, in graph order.
pub open spec fn dependents_of(fs: Seq<(Seq<char>, Seq<Seq<char>>)>, p: Seq<char>) -> Seq<Seq<char>>
    decreases fs.len(),
{
    if fs.len() == 0 {
        Seq::empty()
    } else {
        let rest = dependents_of(fs.drop_last(), p);
        if fs.last().1.contains(p) {
            rest.push(fs.last().0)
        } else {
            rest
        }
    }
}

/// The paths reached from `p` by following at most `k` dependency edges
/// backwards: `p` itself, then every file that depends on a path reached.
pub open spec fn reach(fs: Seq<(Seq<char>, Seq<Seq<char>>)>, p: Seq<char>, k: nat) -> Set<Seq<char>>
    decreases k,
{
    if k == 0 {
        set![p]
    } else {
        let prev = reach(fs, p, (k - 1) as nat);
        prev.union(
            Set::new(
                |q: Seq<char>|
                    exists|i: int, d: Seq<char>|
                        0 <= i < fs.len() && fs[i].0 == q && fs[i].1.contains(d) && prev.contains(
                            d,
                        ),
            ),
        )
    }
}

/// `q` is a file other than `p` that depends on `p`, directly or through
/// other files.
pub open spec fn impacted(fs: Seq<(Seq<char>, Seq<Seq<char>>)>, p: Seq<char>, q: Seq<char>) -> bool {
    q != p && exists|k: nat| #[trigger] reach(fs, p, k).contains(q)
}

/// File `j` is settled with respect to the affected paths `aff`: it is `p`,
/// already affected, or depends on neither `p` nor an affected path.
pub open spec fn settled(
    fs: Seq<(Seq<char>, Seq<Seq<char>>)>,
    p: Seq<char>,
    aff: Seq<Seq<char>>,
    j: int,
) -> bool {
    fs[j].0 == p || aff.contains(fs[j].0) || !(exists|d: Seq<char>|
        #[trigger] fs[j].1.contains(d) && (d == p || aff.contains(d)))
}

proof fn lemma_dependent_edge(fs: Seq<(Seq<char>, Seq<Seq<char>>)>, p: Seq<char>, q: Seq<char>)
    requires
        dependents_of(fs, p).contains(q),
    ensures
        exists|i: int| 0 <= i < fs.len() && fs[i].0 == q && #[trigger] fs[i].1.contains(p),
    decreases fs.len(),
{
    let rest = dependents_of(fs.drop_last(), p);
    if rest.contains(q) {
        lemma_dependent_edge(fs.drop_last(), p, q);
        let i = choose|i: int| 0 <= i < fs.len() - 1 && fs.drop_last()[i].0 == q
            && #[trigger] fs.drop_last()[i].1.contains(p);
        assert(fs[i] == fs.drop_last()[i]);
    } else {
        assert(fs[fs.len() - 1] == fs.last());
    }
}

/// Every file that depends on `p` (other than `p`) is affected by a change
/// to `p`.
pub proof fn lemma_dependents_are_impacted(
    fs: Seq<(Seq<char>, Seq<Seq<char>>)>,
    p: Seq<char>,
    q: Seq<char>,
)
    requires
        dependents_of(fs, p).contains(q),
        q != p,
    ensures
        impacted(fs, p, q),
{
    lemma_dependent_edge(fs, p, q);
    let i = choose|i: int| 0 <= i < fs.len() && fs[i].0 == q && #[trigger] fs[i].1.contains(p);
    assert(reach(fs, p, 0).contains(p));
    assert(reach(fs, p, 1).contains(q));
}

/// Number of `true` entries.
pub open spec fn count_true(s: Seq<bool>) -> nat
    decreases s.len(),
{
    if s.len() == 0 {
        0
    } else {
        count_true(s.drop_last()) + if s.last() {
            1nat
        } else {
            0nat
        }
    }
}

proof fn lemma_count_true_le(s: Seq<bool>)
    ensures
        count_true(s) <= s.len(),
    decreases s.len(),
{
    if s.len() > 0 {
        lemma_count_true_le(s.drop_last());
    }
}

proof fn lemma_count_true_set(s: Seq<bool>, i: int)
    requires
        0 <= i < s.len(),
        !s[i],
    ensures
        count_true(s.update(i, true)) == count_true(s) + 1,
    decreases s.len(),
{
    let t = s.update(i, true);
    if i == s.len() - 1 {
        assert(t.drop_last() =~= s.drop_last());
    } else {
        assert(t.drop_last() =~= s.drop_last().update(i, true));
        lemma_count_true_set(s.drop_last(), i);
    }
}

proof fn lemma_count_true_none(s: Seq<bool>)
    requires
        forall|i: int| 0 <= i < s.len() ==> !#[trigger] s[i],
    ensures
        count_true(s) == 0,
    decreases s.len(),
{
    if s.len() > 0 {
        lemma_count_true_none(s.drop_last());
    }
}

/// Every path that the fixed point settles is reached only if affected.
proof fn lemma_settled_complete(
    fs: Seq<(Seq<char>, Seq<Seq<char>>)>,
    p: Seq<char>,
    aff: Seq<Seq<char>>,
    k: nat,
)
    requires
        forall|j: int| 0 <= j < fs.len() ==> #[trigger] settled(fs, p, aff, j),
    ensures
        forall|q: Seq<char>| #[trigger] reach(fs, p, k).contains(q) ==> q == p || aff.contains(q),
    decreases k,
{
    if k > 0 {
        lemma_settled_complete(fs, p, aff, (k - 1) as nat);
        let prev = reach(fs, p, (k - 1) as nat);
        assert forall|q: Seq<char>| #[trigger] reach(fs, p, k).contains(q) implies q == p
            || aff.contains(q) by {
            if !prev.contains(q) {
                let (i, d) = choose|i: int, d: Seq<char>|
                    0 <= i < fs.len() && fs[i].0 == q && fs[i].1.contains(d) && prev.contains(d);
                assert(settled(fs, p, aff, i));
                assert(fs[i].1.contains(d) && (d == p || aff.contains(d)));
            }
        }
    }
}

/// Whether `x` is one of `list`.
fn listed(list: &Vec<Vec<char>>, x: &[char]) -> (b: bool)
    ensures
        b == views(list@).contains(x@),
{
    let ghost v = views(list@);
    for k in 0..list.len()
        invariant
            v == views(list@),
            forall|m: int| 0 <= m < k ==> v[m] != x@,
    {
        assert(v[k as int] == list@[k as int]@);
        if chars_eq(&list[k], x) {
            return true;
        }
    }
    false
}

/// Whether `f` depends on `target` or on a path of `affected`.
fn depends_on_any(f: &FileNode, target: &[char], affected: &Vec<Vec<char>>) -> (b: bool)
    ensures
        b == exists|d: Seq<char>|
            #[trigger] strings_view(f.depends_on@).contains(d) && (d == target@ || views(
                affected@,
            ).contains(d)),
{
    let ghost ds = strings_view(f.depends_on@);
    for k in 0..f.depends_on.len()
        invariant
            ds == strings_view(f.depends_on@),
            forall|m: int|
                0 <= m < k ==> !(#[trigger] ds[m] == target@ || views(affected@).contains(ds[m])),
    {
        let d = str_to_chars(f.depends_on[k].as_str());
        assert(ds[k as int] == d@);
        if chars_eq(&d, target) || listed(affected, &d) {
            assert(ds.contains(d@));
            return true;
        }
    }
    proof {
        assert forall|d: Seq<char>| #[trigger] ds.contains(d) implies !(d == target@ || views(
            affected@,
        ).contains(d)) by {
            let m = choose|m: int| 0 <= m < ds.len() && ds[m] == d;
            assert(!(ds[m] == target@ || views(affected@).contains(ds[m])));
        }
    }
    false
}

impl DependencyGraph {
    /// The node of the file at `file_path`, if the graph has it.
    pub fn deps(&self, file_path: &str) -> (r: Option<&FileNode>)
        ensures
            r matches Some(n) ==> exists|i: int|
                0 <= i < self.files@.len() && self.files@[i] == *n && n.path@ == file_path@ && (
                forall|j: int| 0 <= j < i ==> #[trigger] self.files@[j].path@ != file_path@),
            r is None ==> forall|j: int|
                0 <= j < self.files@.len() ==> #[trigger] self.files@[j].path@ != file_path@,
    {
        let target = str_to_chars(file_path);
        for i in 0..self.files.len()
            invariant
                target@ == file_path@,
                forall|j: int| 0 <= j < i ==> #[trigger] self.files@[j].path@ != file_path@,
        {
            if chars_eq(&str_to_chars(self.files[i].path.as_str()), &target) {
                return Some(&self.files[i]);
            }
        }
        None
    }

    /// The paths of the files that depend on `file_path`, in graph order.
    pub fn dependents(&self, file_path: &str) -> (r: Vec<String>)
        ensures
            strings_view(r@) == dependents_of(edges(*self), file_path@),
    {
        let ghost fs = edges(*self);
        let target = str_to_chars(file_path);
        let mut out: Vec<String> = Vec::new();
        let mut i: usize = 0;
        assert(fs.take(0) =~= Seq::<(Seq<char>, Seq<Seq<char>>)>::empty());
        while i < self.files.len()
            invariant
                i <= self.files@.len(),
                fs == edges(*self),
                fs.len() == self.files@.len(),
                target@ == file_path@,
                strings_view(out@) == dependents_of(fs.take(i as int), file_path@),
            decreases self.files@.len() - i,
        {
            assert(fs.take(i + 1).drop_last() =~= fs.take(i as int));
            assert(fs.take(i + 1).last() == fs[i as int]);
            let f = &self.files[i];
            let ghost ds = strings_view(f.depends_on@);
            let mut hit = false;
            for k in 0..f.depends_on.len()
                invariant
                    ds == strings_view(f.depends_on@),
                    target@ == file_path@,
                    hit == exists|m: int| 0 <= m < k && ds[m] == file_path@,
            {
                assert(ds[k as int] == f.depends_on@[k as int]@);
                if chars_eq(&str_to_chars(f.depends_on[k].as_str()), &target) {
                    hit = true;
                }
            }
            assert(hit == ds.contains(file_path@));
            if hit {
                out.push(f.path.clone());
                assert(strings_view(out@) =~= dependents_of(fs.take(i as int), file_path@).push(
                    f.path@,
                ));
            }
            i = i + 1;
        }
        assert(fs.take(i as int) =~= fs);
        out
    }

    /// The files that a change to `file_path` affects: those that depend on
    /// it, directly or through other files, each once.
    pub fn impact(&self, file_path: &str) -> (r: Vec<String>)
        ensures
            strings_view(r@).no_duplicates(),
            forall|q: Seq<char>| #[trigger]
                strings_view(r@).contains(q) <==> impacted(edges(*self), file_path@, q),
    {
        let ghost fs = edges(*self);
        let ghost p = file_path@;
        let n = self.files.len();
        let target = str_to_chars(file_path);
        let mut affected: Vec<Vec<char>> = Vec::new();
        let mut taken: Vec<bool> = Vec::new();
        for i in 0..n
            invariant
                taken@.len() == i,
                forall|m: int| 0 <= m < i ==> !#[trigger] taken@[m],
        {
            taken.push(false);
        }
        proof {
            lemma_count_true_none(taken@);
        }
        loop
            invariant
                n == self.files@.len(),
                fs == edges(*self),
                fs.len() == n,
                p == file_path@,
                target@ == p,
                taken@.len() == n,
                affected@.len() == count_true(taken@),
                views(affected@).no_duplicates(),
                forall|m: int| 0 <= m < n ==> #[trigger] taken@[m] ==> views(affected@).contains(
                    fs[m].0,
                ),
                forall|q: Seq<char>| #[trigger]
                    views(affected@).contains(q) ==> impacted(fs, p, q),
            ensures
                forall|j: int| 0 <= j < fs.len() ==> #[trigger] settled(fs, p, views(affected@), j),
                views(affected@).no_duplicates(),
                forall|q: Seq<char>| #[trigger]
                    views(affected@).contains(q) ==> impacted(fs, p, q),
            decreases n - affected@.len(),
        {
            proof {
                lemma_count_true_le(taken@);
            }
            let ghost start = views(affected@);
            let mut changed = false;
            for i in 0..n
                invariant
                    n == self.files@.len(),
                    fs == edges(*self),
                    fs.len() == n,
                    p == file_path@,
                    target@ == p,
                    taken@.len() == n,
                    affected@.len() == count_true(taken@),
                    views(affected@).no_duplicates(),
                    forall|m: int|
                        0 <= m < n ==> #[trigger] taken@[m] ==> views(affected@).contains(fs[m].0),
                    forall|q: Seq<char>| #[trigger]
                        views(affected@).contains(q) ==> impacted(fs, p, q),
                    affected@.len() >= start.len(),
                    changed ==> affected@.len() > start.len(),
                    !changed ==> views(affected@) == start,
                    !changed ==> forall|j: int|
                        0 <= j < i ==> #[trigger] settled(fs, p, views(affected@), j),
            {
                let f = &self.files[i];
                let path = str_to_chars(f.path.as_str());
                assert(fs[i as int].0 == path@);
                assert(fs[i as int].1 == strings_view(f.depends_on@));
                let is_self = chars_eq(&path, &target);
                let seen = listed(&affected, &path);
                if !is_self && !seen && depends_on_any(f, &target, &affected) {
                    let ghost before = views(affected@);
                    proof {
                        let d = choose|d: Seq<char>|
                            #[trigger] strings_view(f.depends_on@).contains(d) && (d == target@
                                || before.contains(d));
                        let k: nat = if d == p {
                            0
                        } else {
                            choose|k: nat| #[trigger] reach(fs, p, k).contains(d)
                        };
                        assert(reach(fs, p, k).contains(d));
                        assert(reach(fs, p, k + 1).contains(path@));
                        assert(impacted(fs, p, path@));
                        assert(taken@[i as int] == false);
                        lemma_count_true_set(taken@, i as int);
                    }
                    affected.push(path);
                    taken.set(i, true);
                    changed = true;
                    proof {
                        assert(views(affected@) =~= before.push(fs[i as int].0));
                        assert forall|m: int|
                            0 <= m < n && #[trigger] taken@[m] implies views(affected@).contains(
                            fs[m].0,
                        ) by {
                            if m != i {
                                assert(before.contains(fs[m].0));
                                let x = choose|x: int| 0 <= x < before.len() && before[x] == fs[m].0;
                                assert(views(affected@)[x] == fs[m].0);
                            } else {
                                assert(views(affected@)[before.len() as int] == fs[m].0);
                            }
                        }
                        assert forall|q: Seq<char>| #[trigger]
                            views(affected@).contains(q) implies impacted(fs, p, q) by {
                            if q != fs[i as int].0 {
                                let x = choose|x: int|
                                    0 <= x < views(affected@).len() && views(affected@)[x] == q;
                                assert(before[x] == q);
                                assert(before.contains(q));
                            }
                        }
                    }
                } else {
                    proof {
                        if !changed {
                            assert(settled(fs, p, views(affected@), i as int));
                        }
                    }
                }
            }
            proof {
                lemma_count_true_le(taken@);
            }
            if !changed {
                break;
            }
        }
        let ghost aff = views(affected@);
        let mut out: Vec<String> = Vec::new();
        for j in 0..affected.len()
            invariant
                aff == views(affected@),
                strings_view(out@) == aff.take(j as int),
        {
            assert(aff[j as int] == affected@[j as int]@);
            let ghost before = out@;
            let s = crate::text::chars_to_string(&affected[j]);
            assert(s@ == aff[j as int]);
            out.push(s);
            assert(out@ == before.push(s));
            assert(strings_view(out@) =~= strings_view(before).push(s@));
            assert(strings_view(out@) =~= aff.take(j + 1));
        }
        assert(aff.take(affected@.len() as int) =~= aff);
        proof {
            assert forall|q: Seq<char>| #[trigger]
                strings_view(out@).contains(q) <==> impacted(fs, p, q) by {
                if impacted(fs, p, q) {
                    let k = choose|k: nat| #[trigger] reach(fs, p, k).contains(q);
                    lemma_settled_complete(fs, p, aff, k);
                }
            }
        }
        out
    }
}

} // verus!
