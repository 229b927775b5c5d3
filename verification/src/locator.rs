//! The root locator: decides which directories of a package tree are
//! package roots. The caller walks the tree and hands every regular file
//! in as a name/path pair of plain strings; everything decided about those
//! pairs, and about the starting directory, is verified here.

use vstd::prelude::*;
use crate::order::{NameSet, contains_seq, str_eq, strictly_sorted, views_of};

verus! {

/// The sentinel filename that marks a directory as a package root.
pub open spec fn marker_name() -> Seq<char> {
    "Package.swift"@
}

/// The directory name whose subtrees hold build artifacts.
pub open spec fn build_dir_name() -> Seq<char> {
    ".build"@
}

/// The substring that excludes a marker file found under a build
/// directory.
pub open spec fn excl_pattern() -> Seq<char> {
    "/.build/"@
}

/// The index of the last `/` of the path, or -1 when it has none.
pub open spec fn last_sep(p: Seq<char>) -> int
    decreases p.len(),
{
    if p.len() == 0 {
        -1
    } else if p.last() == '/' {
        p.len() - 1
    } else {
        last_sep(p.drop_last())
    }
}

/// The final named segment of a path: trailing separators and `.` segments
/// are passed over, and a path whose final segment is `..`, like one with
/// no named segment at all, has none.
pub open spec fn last_component(p: Seq<char>) -> Option<Seq<char>>
    decreases p.len(),
{
    if p.len() == 0 {
        None
    } else if p.last() == '/' {
        last_component(p.drop_last())
    } else {
        let seg = p.subrange(last_sep(p) + 1, p.len() as int);
        if seg == "."@ {
            last_component(p.drop_last())
        } else if seg == ".."@ {
            None
        } else {
            Some(seg)
        }
    }
}

/// The directory that holds the file at `p`: the text before the final
/// separator, `/` itself for an entry directly under the root, the empty
/// path for a bare filename, and nothing for an empty path.
pub open spec fn parent_of(p: Seq<char>) -> Option<Seq<char>> {
    if p.len() == 0 {
        None
    } else if last_sep(p) == -1 {
        Some(Seq::empty())
    } else if last_sep(p) == 0 {
        Some(seq!['/'])
    } else {
        Some(p.subrange(0, last_sep(p)))
    }
}

/// The path contains `/.build/` somewhere: the file lies under a build
/// directory. A raw substring test, exactly as the locator is specified: a
/// directory merely named `my.build` does not match.
pub open spec fn in_build_tree(p: Seq<char>) -> bool {
    exists|i: int|
        0 <= i && i + excl_pattern().len() <= p.len() && #[trigger] p.subrange(
            i,
            i + excl_pattern().len(),
        ) == excl_pattern()
}

/// One regular file met during the walk: its bare name and its full path.
#[derive(Clone)]
pub struct FileEntry {
    pub name: String,
    pub path: String,
}

/// The directory that a walked file puts into the result set: the file
/// must be named like the sentinel and must not lie under a build
/// directory; what is recorded is its parent directory.
pub open spec fn entry_root(name: Seq<char>, path: Seq<char>) -> Option<Seq<char>> {
    if name == marker_name() && !in_build_tree(path) {
        parent_of(path)
    } else {
        None
    }
}

/// Some walked file puts `d` into the result set.
pub open spec fn contributes(entries: Seq<FileEntry>, d: Seq<char>) -> bool {
    exists|k: int|
        0 <= k < entries.len() && #[trigger] entry_root(entries[k].name@, entries[k].path@)
            == Some(d)
}

/// The nested-discovery contract: `dirs` is strictly ascending (hence free
/// of duplicates) and holds exactly the directories contributed by the
/// walked files.
pub open spec fn nested_output(entries: Seq<FileEntry>, dirs: Seq<Seq<char>>) -> bool {
    &&& strictly_sorted(dirs)
    &&& forall|d: Seq<char>|
        #![trigger contains_seq(dirs, d)]
        contains_seq(dirs, d) <==> contributes(entries, d)
}

/// Finds the index after the last `/`, so `r - 1` is `last_sep`.
fn find_last_sep(p: &str) -> (r: usize)
    ensures
        r == last_sep(p@) + 1,
{
    let n: usize = p.unicode_len();
    let mut k: usize = 0;
    let mut r: usize = 0;
    while k < n
        invariant
            k <= n,
            r <= k,
            n == p@.len(),
            r == last_sep(p@.subrange(0, k as int)) + 1,
        decreases n - k,
    {
        let ghost pre = p@.subrange(0, k as int);
        if p.get_char(k) == '/' {
            r = k + 1;
        }
        proof {
            let ext = p@.subrange(0, k + 1);
            assert(ext.drop_last() =~= pre);
            assert(ext.last() == p@[k as int]);
        }
        k = k + 1;
    }
    proof {
        assert(p@.subrange(0, n as int) =~= p@);
    }
    r
}

/// `last_sep` always lies between -1 and the last index.
proof fn lemma_last_sep_range(p: Seq<char>)
    ensures
        -1 <= last_sep(p) < p.len(),
    decreases p.len(),
{
    if p.len() > 0 && p.last() != '/' {
        lemma_last_sep_range(p.drop_last());
    }
}

/// Computes the final named segment of a path, as `last_component`
/// describes it.
pub fn path_last_component(p: &str) -> (r: Option<String>)
    ensures
        match r {
            Some(seg) => last_component(p@) == Some(seg@),
            None => last_component(p@) is None,
        },
{
    let n: usize = p.unicode_len();
    let mut e: usize = n;
    proof {
        assert(p@.subrange(0, n as int) =~= p@);
    }
    loop
        invariant
            e <= n,
            n == p@.len(),
            last_component(p@) == last_component(p@.subrange(0, e as int)),
        decreases e,
    {
        let ghost e_head = e;
        while e > 0 && p.get_char(e - 1) == '/'
            invariant
                e <= e_head,
                e_head <= n,
                n == p@.len(),
                last_component(p@) == last_component(p@.subrange(0, e as int)),
            decreases e,
        {
            proof {
                let t = p@.subrange(0, e as int);
                assert(t.last() == '/');
                assert(t.drop_last() =~= p@.subrange(0, e - 1));
            }
            e = e - 1;
        }
        if e == 0 {
            proof {
                assert(p@.subrange(0, 0) =~= Seq::<char>::empty());
            }
            return None;
        }
        let mut s0: usize = e;
        while s0 > 0 && p.get_char(s0 - 1) != '/'
            invariant
                s0 <= e <= n,
                n == p@.len(),
                forall|k: int| s0 <= k < e ==> p@[k] != '/',
            decreases s0,
        {
            s0 = s0 - 1;
        }
        proof {
            let t = p@.subrange(0, e as int);
            assert(t.last() == p@[e - 1]);
            assert(t.last() != '/');
            assert(last_sep(t) == s0 - 1) by {
                if s0 > 0 {
                    assert(t[s0 - 1] == p@[s0 - 1]);
                    lemma_last_sep_bound(t, s0 - 1);
                } else {
                    lemma_last_sep_none(t);
                }
            }
            assert(t.subrange(last_sep(t) + 1, t.len() as int) =~= p@.subrange(
                s0 as int,
                e as int,
            ));
        }
        let seg = p.substring_char(s0, e);
        if str_eq(seg, ".") {
            proof {
                let t = p@.subrange(0, e as int);
                assert(t.drop_last() =~= p@.subrange(0, e - 1));
            }
            e = e - 1;
        } else if str_eq(seg, "..") {
            return None;
        } else {
            return Some(seg.to_owned());
        }
    }
}

/// Below every position after its last `/`, a sequence with a `/` at `m`
/// and none later has `last_sep` exactly `m`.
proof fn lemma_last_sep_bound(t: Seq<char>, m: int)
    requires
        0 <= m < t.len(),
        t[m] == '/',
        forall|k: int| m < k < t.len() ==> t[k] != '/',
    ensures
        last_sep(t) == m,
    decreases t.len(),
{
    if m == t.len() - 1 {
        assert(t.last() == '/');
    } else {
        assert(t.last() != '/');
        assert forall|k: int| m < k < t.drop_last().len() implies t.drop_last()[k] != '/' by {
            assert(t.drop_last()[k] == t[k]);
        }
        assert(t.drop_last()[m] == t[m]);
        lemma_last_sep_bound(t.drop_last(), m);
    }
}

/// A sequence without any `/` has `last_sep` -1.
proof fn lemma_last_sep_none(t: Seq<char>)
    requires
        forall|k: int| 0 <= k < t.len() ==> t[k] != '/',
    ensures
        last_sep(t) == -1,
    decreases t.len(),
{
    if t.len() > 0 {
        assert(t.last() != '/');
        assert forall|k: int| 0 <= k < t.drop_last().len() implies t.drop_last()[k] != '/' by {
            assert(t.drop_last()[k] == t[k]);
        }
        lemma_last_sep_none(t.drop_last());
    }
}

/// Computes the parent directory of a file path, as `parent_of` describes
/// it.
pub fn path_parent(p: &str) -> (r: Option<String>)
    ensures
        match r {
            Some(dir) => parent_of(p@) == Some(dir@),
            None => parent_of(p@) is None,
        },
{
    let n: usize = p.unicode_len();
    if n == 0 {
        return None;
    }
    let r = find_last_sep(p);
    proof {
        lemma_last_sep_range(p@);
    }
    if r == 0 {
        let empty = String::new();
        return Some(empty);
    }
    if r == 1 {
        let root = p.substring_char(0, 1);
        proof {
            lemma_last_sep_char(p@);
            assert(p@.subrange(0, 1) =~= seq!['/']);
        }
        return Some(root.to_owned());
    }
    let dir = p.substring_char(0, r - 1);
    Some(dir.to_owned())
}

/// A nonnegative `last_sep` points at a `/`.
proof fn lemma_last_sep_char(p: Seq<char>)
    requires
        last_sep(p) >= 0,
    ensures
        p[last_sep(p)] == '/',
    decreases p.len(),
{
    lemma_last_sep_range(p);
    if p.len() > 0 && p.last() != '/' {
        lemma_last_sep_range(p.drop_last());
        lemma_last_sep_char(p.drop_last());
        assert(p.drop_last()[last_sep(p.drop_last())] == p[last_sep(p)]);
    }
}

/// Decides whether the path contains `/.build/`.
pub fn path_in_build_tree(p: &str) -> (r: bool)
    ensures
        r == in_build_tree(p@),
{
    proof {
        reveal_strlit("/.build/");
    }
    let n: usize = p.unicode_len();
    if n < 8 {
        return false;
    }
    let mut i: usize = 0;
    while i <= n - 8
        invariant
            i <= n - 7,
            n >= 8,
            n == p@.len(),
            excl_pattern().len() == 8,
            forall|q: int| 0 <= q < i ==> #[trigger] p@.subrange(q, q + 8) != excl_pattern(),
        decreases n - i,
    {
        let hit = p.get_char(i) == '/' && p.get_char(i + 1) == '.' && p.get_char(i + 2) == 'b'
            && p.get_char(i + 3) == 'u' && p.get_char(i + 4) == 'i' && p.get_char(i + 5) == 'l'
            && p.get_char(i + 6) == 'd' && p.get_char(i + 7) == '/';
        proof {
            reveal_strlit("/.build/");
            let w = p@.subrange(i as int, i + 8);
            if hit {
                assert(w =~= excl_pattern());
                assert(in_build_tree(p@));
            } else {
                assert(w != excl_pattern()) by {
                    if w == excl_pattern() {
                        assert(w[0] == '/' && w[1] == '.' && w[2] == 'b' && w[3] == 'u' && w[4]
                            == 'i' && w[5] == 'l' && w[6] == 'd' && w[7] == '/');
                        assert(p@[i as int] == w[0]);
                        assert(p@[i + 1] == w[1]);
                        assert(p@[i + 2] == w[2]);
                        assert(p@[i + 3] == w[3]);
                        assert(p@[i + 4] == w[4]);
                        assert(p@[i + 5] == w[5]);
                        assert(p@[i + 6] == w[6]);
                        assert(p@[i + 7] == w[7]);
                    }
                }
            }
        }
        if hit {
            return true;
        }
        i = i + 1;
    }
    proof {
        if in_build_tree(p@) {
            let q = choose|q: int|
                0 <= q && q + excl_pattern().len() <= p@.len() && #[trigger] p@.subrange(
                    q,
                    q + excl_pattern().len(),
                ) == excl_pattern();
            assert(p@.subrange(q, q + 8) != excl_pattern());
            assert(false);
        }
    }
    false
}

/// Collects the package roots that the walked files reveal: the parent
/// directories of sentinel files outside build trees, ascending and free
/// of duplicates.
pub fn nested_roots(entries: &Vec<FileEntry>) -> (dirs: Vec<String>)
    ensures
        nested_output(entries@, views_of(dirs@)),
{
    let mut set = NameSet::new();
    let mut k: usize = 0;
    while k < entries.len()
        invariant
            k <= entries.len(),
            set.wf(),
            forall|d: Seq<char>|
                #![trigger contains_seq(set@, d)]
                contains_seq(set@, d) <==> exists|j: int|
                    0 <= j < k && #[trigger] entry_root(entries@[j].name@, entries@[j].path@)
                        == Some(d),
        decreases entries.len() - k,
    {
        let ghost prev = set@;
        let entry = &entries[k];
        let ghost nv = entry.name@;
        let ghost pv = entry.path@;
        let mut added: Option<String> = None;
        if str_eq(entry.name.as_str(), "Package.swift") {
            if !path_in_build_tree(entry.path.as_str()) {
                match path_parent(entry.path.as_str()) {
                    Some(dir) => {
                        added = Some(dir);
                    },
                    None => {},
                }
            }
        }
        let ghost av = match &added {
            Some(dir) => Some(dir@),
            None => None,
        };
        proof {
            assert(av == entry_root(nv, pv));
        }
        match added {
            Some(dir) => {
                set.insert(dir);
            },
            None => {},
        }
        proof {
            assert forall|d: Seq<char>|
                #![trigger contains_seq(set@, d)]
                contains_seq(set@, d) <==> exists|j: int|
                    0 <= j < k + 1 && #[trigger] entry_root(entries@[j].name@, entries@[j].path@)
                        == Some(d) by {
                assert(contains_seq(set@, d) <==> (contains_seq(prev, d) || av == Some(d)));
                if contains_seq(set@, d) {
                    if contains_seq(prev, d) {
                        let j = choose|j: int|
                            0 <= j < k && #[trigger] entry_root(
                                entries@[j].name@,
                                entries@[j].path@,
                            ) == Some(d);
                        assert(entry_root(entries@[j].name@, entries@[j].path@) == Some(d));
                    } else {
                        assert(entry_root(entries@[k as int].name@, entries@[k as int].path@)
                            == Some(d));
                    }
                }
                if exists|j: int|
                    0 <= j < k + 1 && #[trigger] entry_root(entries@[j].name@, entries@[j].path@)
                        == Some(d) {
                    let j = choose|j: int|
                        0 <= j < k + 1 && #[trigger] entry_root(
                            entries@[j].name@,
                            entries@[j].path@,
                        ) == Some(d);
                    if j < k {
                        assert(contains_seq(prev, d));
                    } else {
                        assert(av == Some(d));
                    }
                }
            }
        }
        k = k + 1;
    }
    set.into_names()
}

/// What the locator does before any walk: whether it prints the starting
/// directory as a root of its own, and whether a walk happens at all.
pub struct RootPlan {
    pub print_root: bool,
    pub walk: bool,
}

/// Decides the locator's opening move. A starting directory that directly
/// holds a sentinel file is printed alone and nothing is walked. Otherwise
/// the subtree is walked, and the starting directory is printed first
/// unless its final segment is the build directory's name; a directory
/// whose final segment cannot be named is printed as a fallback.
pub fn plan_root(root: &str, has_direct_marker: bool) -> (plan: RootPlan)
    ensures
        plan.walk == !has_direct_marker,
        plan.print_root == (has_direct_marker || last_component(root@) != Some(build_dir_name())),
{
    if has_direct_marker {
        return RootPlan { print_root: true, walk: false };
    }
    match path_last_component(root) {
        Some(seg) => {
            let is_build = str_eq(seg.as_str(), ".build");
            RootPlan { print_root: !is_build, walk: true }
        },
        None => RootPlan { print_root: true, walk: true },
    }
}

/// The locator's whole contract over the printed lines. When the starting
/// directory holds a sentinel file directly, the output is that directory
/// alone, whatever the walk might have found deeper down. Otherwise the
/// output is the starting directory (unless suppressed as a build
/// directory), followed by the nested roots, ascending and free of
/// duplicates.
pub open spec fn locate_output(
    root: Seq<char>,
    has_direct_marker: bool,
    entries: Seq<FileEntry>,
    out: Seq<Seq<char>>,
) -> bool {
    if has_direct_marker {
        out == seq![root]
    } else {
        let prints = last_component(root) != Some(build_dir_name());
        let off: int = if prints {
            1
        } else {
            0
        };
        &&& out.len() >= off
        &&& (prints ==> out[0] == root)
        &&& nested_output(entries, out.skip(off))
    }
}

/// Computes everything the locator prints, in order, from the starting
/// directory, whether it directly holds a sentinel file, and the files of
/// the walk (ignored when the sentinel cut the walk off).
pub fn locate_roots(root: &str, has_direct_marker: bool, entries: &Vec<FileEntry>) -> (out: Vec<
    String,
>)
    ensures
        locate_output(root@, has_direct_marker, entries@, views_of(out@)),
{
    let mut out: Vec<String> = Vec::new();
    let plan = plan_root(root, has_direct_marker);
    if plan.print_root {
        out.push(root.to_owned());
    }
    if !plan.walk {
        proof {
            assert(views_of(out@) =~= seq![root@]);
        }
        return out;
    }
    let ghost head = views_of(out@);
    let dirs = nested_roots(entries);
    let mut k: usize = 0;
    while k < dirs.len()
        invariant
            k <= dirs.len(),
            head == if plan.print_root {
                seq![root@]
            } else {
                Seq::<Seq<char>>::empty()
            },
            views_of(out@) =~= head + views_of(dirs@).take(k as int),
        decreases dirs.len() - k,
    {
        let ghost before = views_of(out@);
        out.push(dirs[k].clone());
        proof {
            assert(views_of(out@) =~= before.push(dirs@[k as int]@));
            assert(before.push(dirs@[k as int]@) =~= head + views_of(dirs@).take(k + 1));
        }
        k = k + 1;
    }
    proof {
        let dv = views_of(dirs@);
        assert(dv.take(dirs@.len() as int) =~= dv);
        assert(views_of(out@) =~= head + dv);
        let off: int = if plan.print_root {
            1
        } else {
            0
        };
        assert((head + dv).skip(off) =~= dv);
    }
    out
}

/// A starting directory that directly holds a sentinel file is printed as
/// the one and only line, whatever the subtree holds.
pub proof fn lemma_direct_marker_prints_root_alone(
    root: Seq<char>,
    entries: Seq<FileEntry>,
    out: Seq<Seq<char>>,
)
    requires
        locate_output(root, true, entries, out),
    ensures
        out =~= seq![root],
{
}

/// A starting directory whose final segment is the build directory's name
/// is left out of the output, which then holds the nested roots alone.
pub proof fn lemma_build_root_is_omitted(
    root: Seq<char>,
    entries: Seq<FileEntry>,
    out: Seq<Seq<char>>,
)
    requires
        locate_output(root, false, entries, out),
        last_component(root) == Some(build_dir_name()),
    ensures
        nested_output(entries, out),
{
    assert(out.skip(0) =~= out);
}

/// A file whose path runs through a build directory contributes nothing,
/// whatever it is named.
pub proof fn lemma_build_tree_file_contributes_nothing(name: Seq<char>, path: Seq<char>)
    requires
        in_build_tree(path),
    ensures
        entry_root(name, path) is None,
{
}

/// The nested discovery is blind to discovery order: two walks over file
/// sets that contribute the same directories print the same lines.
pub proof fn lemma_roots_order_independent(
    e1: Seq<FileEntry>,
    e2: Seq<FileEntry>,
    d1: Seq<Seq<char>>,
    d2: Seq<Seq<char>>,
)
    requires
        nested_output(e1, d1),
        nested_output(e2, d2),
        forall|d: Seq<char>| #[trigger] contributes(e1, d) <==> #[trigger] contributes(e2, d),
    ensures
        d1 == d2,
{
    assert forall|d: Seq<char>|
        #![trigger contains_seq(d1, d)]
        #![trigger contains_seq(d2, d)]
        contains_seq(d1, d) <==> contains_seq(d2, d) by {}
    crate::order::lemma_sorted_unique(d1, d2);
}

} // verus!
