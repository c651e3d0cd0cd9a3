//! Project configuration and the search for source files.
use vstd::prelude::*;
use vstd::string::*;
use crate::element::{Child, Element};
use crate::table::Table;
use crate::text::{trim, trimmed, views};

verus! {

/// The target name that stands for building every target.
pub const ALL_TARGETS: &'static str = "_all";

/// Whether a path is absolute.
pub open spec fn is_absolute(p: Seq<char>) -> bool {
    p.len() > 0 && p[0] == '/'
}

/// `b` taken relative to `a`: `b` itself when it is absolute.
pub open spec fn join_path(a: Seq<char>, b: Seq<char>) -> Seq<char> {
    if is_absolute(b) || a.len() == 0 {
        b
    } else if a.last() == '/' {
        a + b
    } else {
        a + seq!['/'] + b
    }
}

/// The index of the last `/` in `p`, or -1.
pub open spec fn last_slash(p: Seq<char>) -> int
    decreases p.len(),
{
    if p.len() == 0 {
        -1
    } else if p.last() == '/' {
        p.len() - 1
    } else {
        last_slash(p.drop_last())
    }
}

/// The directory part of a path: everything before its last `/` (`/` itself
/// when that is the first character), empty for a bare file name. Unlike
/// `std::path::Path::parent`, a trailing or doubled `/` is not skipped:
/// `a/b/` gives `a/b`, and `a//b` gives `a/`.
pub open spec fn parent_of(p: Seq<char>) -> Seq<char> {
    let k = last_slash(p);
    if k < 0 {
        Seq::empty()
    } else if k == 0 {
        seq!['/']
    } else {
        p.take(k)
    }
}

/// Joins two paths.
pub fn join(a: &str, b: &str) -> (r: String)
    ensures
        r@ == join_path(a@, b@),
{
    proof {
        reveal_strlit("/");
    }
    if b.unicode_len() > 0 && b.get_char(0) == '/' {
        return String::from_str(b);
    }
    let n = a.unicode_len();
    if n == 0 {
        return String::from_str(b);
    }
    let mut r = String::from_str(a);
    if a.get_char(n - 1) != '/' {
        r.append("/");
    }
    r.append(b);
    r
}

/// The directory part of a path.
pub fn parent(p: &str) -> (r: String)
    ensures
        r@ == parent_of(p@),
{
    proof {
        reveal_strlit("/");
    }
    let n = p.unicode_len();
    let mut j: usize = n;
    proof {
        assert(p@.take(n as int) =~= p@);
    }
    while j > 0 && p.get_char(j - 1) != '/'
        invariant
            n == p@.len(),
            j <= n,
            last_slash(p@) == last_slash(p@.take(j as int)),
        decreases j,
    {
        proof {
            assert(p@.take(j as int).drop_last() =~= p@.take(j - 1));
        }
        j = j - 1;
    }
    if j == 0 {
        proof {
            assert(p@.take(0) =~= Seq::<char>::empty());
        }
        String::new()
    } else if j == 1 {
        String::from_str("/")
    } else {
        String::from_str(p.substring_char(0, j - 1))
    }
}

/// Relies on `std::path::Path::exists`; what it answers depends on the disk,
/// so nothing is stated of it.
#[verifier::external_body]
fn path_exists(p: &str) -> bool {
    std::path::Path::new(p).exists()
}

/// Why a project definition was refused.
pub enum ManifestError {
    /// The definition has no `targets` section, or it declares no target.
    NoTargets,
    /// A `target` without a `name` attribute.
    MissingTargetName,
    /// A `target` without a `src` attribute.
    MissingTargetSource,
}

/// The search directories listed by the `path` children among `cs`, trimmed.
pub open spec fn search_paths(cs: Seq<Child>) -> Seq<Seq<char>>
    decreases cs.len(),
{
    if cs.len() == 0 {
        Seq::empty()
    } else {
        let e = cs.last().element;
        if e.tag@ == "path"@ {
            search_paths(cs.drop_last()).push(trimmed(e.text@))
        } else {
            search_paths(cs.drop_last())
        }
    }
}

/// The targets declared by the `target` children among `cs`, as a table
/// from name to root file; an error when one lacks an attribute.
pub open spec fn target_table(cs: Seq<Child>) -> Result<Map<Seq<char>, Seq<char>>, ManifestError>
    decreases cs.len(),
{
    if cs.len() == 0 {
        Ok(Map::empty())
    } else {
        match target_table(cs.drop_last()) {
            Err(f) => Err(f),
            Ok(m) => {
                let e = cs.last().element;
                if e.tag@ == "target"@ {
                    match (e.attr("name"@), e.attr("src"@)) {
                        (None, _) => Err(ManifestError::MissingTargetName),
                        (Some(_), None) => Err(ManifestError::MissingTargetSource),
                        (Some(n), Some(s)) => Ok(m.insert(n, s)),
                    }
                } else {
                    Ok(m)
                }
            },
        }
    }
}

/// The first of `paths` whose entry in `found` is set, or `None` when none is.
pub fn first_found(paths: &Vec<String>, found: &Vec<bool>) -> (r: Option<String>)
    requires
        found@.len() == paths@.len(),
    ensures
        r matches Some(p) ==> exists|i: int|
            0 <= i < found@.len() && found@[i] && p@ == paths@[i]@ && forall|j: int|
                0 <= j < i ==> !found@[j],
        r is None ==> forall|j: int| 0 <= j < found@.len() ==> !found@[j],
{
    let mut i: usize = 0;
    while i < paths.len()
        invariant
            found@.len() == paths@.len(),
            i <= paths@.len(),
            forall|j: int| 0 <= j < i ==> !found@[j],
        decreases paths@.len() - i,
    {
        if found[i] {
            return Some(paths[i].clone());
        }
        i = i + 1;
    }
    None
}

/// A project: its directory, extra search directories, and its targets.
pub struct Project {
    pub project_directory: String,
    pub include_paths: Vec<String>,
    pub targets: Table<String>,
    pub default_target: String,
}

impl Project {
    /// Where a file named `filename`, referenced from directory `dir`, is
    /// looked for, in order.
    pub open spec fn candidates(&self, filename: Seq<char>, dir: Seq<char>) -> Seq<Seq<char>> {
        let root = self.project_directory@;
        if is_absolute(filename) {
            seq![filename]
        } else {
            seq![join_path(root, filename), join_path(root, join_path(dir, filename))]
                + views(self.include_paths@).map_values(|p: Seq<char>| join_path(root, join_path(p, filename)))
        }
    }

    /// An empty project whose default target is `main`.
    pub fn new() -> (r: Project)
        ensures
            r.project_directory@ == Seq::<char>::empty(),
            r.include_paths@.len() == 0,
            r.targets.map() == Map::<Seq<char>, Seq<char>>::empty(),
            r.default_target@ == "main"@,
    {
        Project {
            project_directory: String::new(),
            include_paths: Vec::new(),
            targets: Table::new(),
            default_target: String::from_str("main"),
        }
    }

    /// Loads a project from the parsed tree of its definition file at
    /// `project_file_path`.
    pub fn load(&mut self, project_file_path: &String, root: &Element) -> (r: Result<(), ManifestError>)
        ensures
            match root.first("targets"@) {
                None => r matches Err(ManifestError::NoTargets),
                Some(t) => match target_table(root.children@[t].element.children@) {
                    Err(f) => r matches Err(x) && x == f,
                    Ok(m) => if m == Map::<Seq<char>, Seq<char>>::empty() {
                        r matches Err(ManifestError::NoTargets)
                    } else {
                        &&& r is Ok
                        &&& final(self).project_directory@ == parent_of(project_file_path@)
                        &&& views(final(self).include_paths@) == match root.first("include"@) {
                            Some(i) => search_paths(root.children@[i].element.children@),
                            None => views(old(self).include_paths@),
                        }
                        &&& final(self).targets.map() == m
                        &&& final(self).default_target@ == match root.children@[t].element.attr(
                            "default"@,
                        ) {
                            Some(d) => if m.contains_key(d) {
                                d
                            } else {
                                ALL_TARGETS@
                            },
                            None => ALL_TARGETS@,
                        }
                    },
                },
            },
    {
        self.project_directory = parent(project_file_path.as_str());
        match root.find("include") {
            Some(i) => {
                let cs = &root.children[i].element.children;
                let mut paths: Vec<String> = Vec::new();
                let mut k: usize = 0;
                proof {
                    assert(cs@.take(0) =~= Seq::<Child>::empty());
                    assert(views(paths@) =~= Seq::<Seq<char>>::empty());
                }
                while k < cs.len()
                    invariant
                        k <= cs@.len(),
                        views(paths@) == search_paths(cs@.take(k as int)),
                    decreases cs@.len() - k,
                {
                    proof {
                        assert(cs@.take(k + 1).drop_last() =~= cs@.take(k as int));
                        assert(cs@.take(k + 1).last() == cs@[k as int]);
                    }
                    let e = &cs[k].element;
                    if e.has_tag("path") {
                        let ghost before = views(paths@);
                        paths.push(trim(e.text.as_str()));
                        proof {
                            assert(views(paths@) =~= before.push(trimmed(e.text@)));
                        }
                    }
                    k = k + 1;
                }
                proof {
                    assert(cs@.take(cs@.len() as int) =~= cs@);
                }
                self.include_paths = paths;
            },
            None => {},
        }
        let t = match root.find("targets") {
            None => {
                return Err(ManifestError::NoTargets);
            },
            Some(t) => t,
        };
        let section = &root.children[t].element;
        let cs = &section.children;
        let mut targets: Table<String> = Table::new();
        let mut k: usize = 0;
        proof {
            assert(cs@.take(0) =~= Seq::<Child>::empty());
        }
        while k < cs.len()
            invariant
                k <= cs@.len(),
                cs == &section.children,
                root.first("targets"@) == Some(t as int),
                t < root.children@.len(),
                *section == root.children@[t as int].element,
                target_table(cs@.take(k as int)) == Ok::<Map<Seq<char>, Seq<char>>, ManifestError>(
                    targets.map(),
                ),
            decreases cs@.len() - k,
        {
            proof {
                assert(cs@.take(k + 1).drop_last() =~= cs@.take(k as int));
                assert(cs@.take(k + 1).last() == cs@[k as int]);
            }
            let e = &cs[k].element;
            if e.has_tag("target") {
                let name = match e.get_attr("name") {
                    None => {
                        proof {
                            lemma_target_table_fail(cs@, k + 1);
                        }
                        return Err(ManifestError::MissingTargetName);
                    },
                    Some(n) => n,
                };
                let src = match e.get_attr("src") {
                    None => {
                        proof {
                            lemma_target_table_fail(cs@, k + 1);
                        }
                        return Err(ManifestError::MissingTargetSource);
                    },
                    Some(s) => s,
                };
                targets.insert(name.clone(), src.clone());
            }
            k = k + 1;
        }
        proof {
            assert(cs@.take(cs@.len() as int) =~= cs@);
        }
        if targets.entries.len() == 0 {
            proof {
                assert(targets.entries@ =~= Seq::<(String, String)>::empty());
            }
            return Err(ManifestError::NoTargets);
        }
        proof {
            let e = targets.entries@;
            assert(targets.map().contains_key(e.last().0@));
        }
        self.default_target = match section.get_attr("default") {
            Some(d) => if targets.get(d).is_some() {
                d.clone()
            } else {
                String::from_str(ALL_TARGETS)
            },
            None => String::from_str(ALL_TARGETS),
        };
        self.targets = targets;
        Ok(())
    }

    /// The paths at which a file is looked for, in order.
    pub fn candidate_paths(&self, filename: &String, dir: &String) -> (r: Vec<String>)
        ensures
            views(r@) == self.candidates(filename@, dir@),
    {
        let mut out: Vec<String> = Vec::new();
        if filename.unicode_len() > 0 && filename.as_str().get_char(0) == '/' {
            out.push(filename.clone());
            proof {
                assert(views(out@) =~= seq![filename@]);
            }
            return out;
        }
        let root = self.project_directory.as_str();
        out.push(join(root, filename.as_str()));
        let inner = join(dir.as_str(), filename.as_str());
        out.push(join(root, inner.as_str()));
        let ghost head = seq![join_path(root@, filename@), join_path(root@, join_path(dir@, filename@))];
        let ghost f = |p: Seq<char>| join_path(root@, join_path(p, filename@));
        proof {
            assert(views(out@) =~= head);
            assert(views(self.include_paths@).take(0).map_values(f) =~= Seq::<Seq<char>>::empty());
        }
        let mut i: usize = 0;
        while i < self.include_paths.len()
            invariant
                i <= self.include_paths@.len(),
                root@ == self.project_directory@,
                f == (|p: Seq<char>| join_path(root@, join_path(p, filename@))),
                !is_absolute(filename@),
                views(out@) == head + views(self.include_paths@).take(i as int).map_values(f),
            decreases self.include_paths@.len() - i,
        {
            let p = join(self.include_paths[i].as_str(), filename.as_str());
            let q = join(root, p.as_str());
            let ghost before = views(out@);
            out.push(q);
            proof {
                assert(views(self.include_paths@)[i as int] == self.include_paths@[i as int]@);
                assert(views(self.include_paths@).take(i + 1).map_values(f) =~= views(self.include_paths@).take(
                    i as int,
                ).map_values(f).push(q@));
                assert(views(out@) =~= before.push(q@));
            }
            i = i + 1;
        }
        proof {
            assert(views(self.include_paths@).take(self.include_paths@.len() as int) =~= views(self.include_paths@));
        }
        out
    }

    /// Finds a file within the project: the first candidate path for which
    /// the disk reports that it exists, or `None` when it reports none.
    pub fn find_file(&self, filename: &String, dir: &String) -> (r: Option<String>)
        ensures
            r matches Some(p) ==> self.candidates(filename@, dir@).contains(p@),
    {
        let paths = self.candidate_paths(filename, dir);
        let mut found: Vec<bool> = Vec::new();
        let mut i: usize = 0;
        while i < paths.len()
            invariant
                i <= paths@.len(),
                found@.len() == i,
            decreases paths@.len() - i,
        {
            found.push(path_exists(paths[i].as_str()));
            i = i + 1;
        }
        let r = first_found(&paths, &found);
        proof {
            if r is Some {
                let p = r->Some_0;
                let k = choose|k: int| 0 <= k < found@.len() && found@[k] && p@ == paths@[k]@;
                assert(views(paths@)[k] == p@);
            }
        }
        r
    }
}

proof fn lemma_target_table_fail(cs: Seq<Child>, k: int)
    requires
        0 <= k <= cs.len(),
        target_table(cs.take(k)) is Err,
    ensures
        target_table(cs) == target_table(cs.take(k)),
    decreases cs.len() - k,
{
    if k < cs.len() {
        assert(cs.take(k + 1).drop_last() =~= cs.take(k));
        lemma_target_table_fail(cs, k + 1);
    } else {
        assert(cs.take(k) =~= cs);
    }
}

} // verus!
