//! Collection of class and template definitions over a document's
//! includes, and conversion of a target's body to BBCode.
use vstd::prelude::*;
use vstd::string::*;
use crate::element::{Child, Element};
use crate::project::{parent, parent_of, Project};
use crate::render::{
    body_out, ClassMap, ElementMap, Registry, RenderError, RenderFault,
};
use crate::table::Table;
use crate::text::{compact_text, compacted, views};

verus! {

/// How deep includes may nest before discovery is refused.
pub const MAX_INCLUDE_DEPTH: usize = 64;

/// A document as it was read: its tree, or why it could not be had.
pub enum Loaded {
    Parsed(Element),
    Failed(String),
}

impl View for Loaded {
    type V = Loaded;

    open spec fn view(&self) -> Loaded {
        *self
    }
}

/// Where a file name referenced from a directory was found, if anywhere.
pub struct Resolution {
    pub src: String,
    pub dir: String,
    pub path: Option<String>,
}

/// The outside facts that discovery draws on: resolved file names and
/// loaded documents.
pub struct Sources {
    pub resolutions: Vec<Resolution>,
    pub documents: Table<Loaded>,
}

/// The first resolution of `src` from `dir`.
pub open spec fn resolution_of(rs: Seq<Resolution>, src: Seq<char>, dir: Seq<char>) -> Option<
    Option<Seq<char>>,
>
    decreases rs.len(),
{
    if rs.len() == 0 {
        None
    } else if rs[0].src@ == src && rs[0].dir@ == dir {
        Some(
            match rs[0].path {
                Some(p) => Some(p@),
                None => None,
            },
        )
    } else {
        resolution_of(rs.drop_first(), src, dir)
    }
}

impl Sources {
    /// Nothing resolved or loaded yet.
    pub fn new() -> (r: Sources)
        ensures
            r.resolutions@.len() == 0,
            r.documents.map() == Map::<Seq<char>, Loaded>::empty(),
    {
        Sources { resolutions: Vec::new(), documents: Table::new() }
    }

    /// Records where `src`, referenced from `dir`, was found.
    pub fn add_resolution(&mut self, src: String, dir: String, path: Option<String>)
        ensures
            final(self).resolutions@ == old(self).resolutions@.push(Resolution { src, dir, path }),
            final(self).documents == old(self).documents,
    {
        self.resolutions.push(Resolution { src, dir, path });
    }

    /// Records the document read at `path`.
    pub fn add_document(&mut self, path: String, doc: Loaded)
        ensures
            final(self).documents.map() == old(self).documents.map().insert(path@, doc),
            final(self).resolutions == old(self).resolutions,
    {
        self.documents.insert(path, doc);
    }

    /// Looks up where `src`, referenced from `dir`, was found.
    pub fn resolve(&self, src: &String, dir: &String) -> (r: Option<Option<String>>)
        ensures
            resolution_of(self.resolutions@, src@, dir@) == match r {
                None => None,
                Some(None) => Some(None),
                Some(Some(p)) => Some(Some(p@)),
            },
    {
        let mut i: usize = 0;
        proof {
            assert(self.resolutions@.skip(0) =~= self.resolutions@);
        }
        while i < self.resolutions.len()
            invariant
                i <= self.resolutions@.len(),
                resolution_of(self.resolutions@, src@, dir@) == resolution_of(
                    self.resolutions@.skip(i as int),
                    src@,
                    dir@,
                ),
            decreases self.resolutions@.len() - i,
        {
            proof {
                assert(self.resolutions@.skip(i as int).drop_first() =~= self.resolutions@.skip(
                    i + 1,
                ));
                assert(self.resolutions@.skip(i as int)[0] == self.resolutions@[i as int]);
            }
            let res = &self.resolutions[i];
            if res.src == *src && res.dir == *dir {
                return match &res.path {
                    Some(p) => Some(Some(p.clone())),
                    None => Some(None),
                };
            }
            i = i + 1;
        }
        None
    }
}

/// Why a build failed, or what it still needs.
pub enum BuildError {
    /// The file `src` referenced from directory `dir` has not been looked for yet.
    NeedResolution(String, String),
    /// The document at this path has not been read yet.
    NeedDocument(String),
    /// An included file could not be found.
    FileNotFound(String),
    /// A document could not be read or parsed.
    XmlParse(String),
    /// A document's root tag is not `bbxml`.
    NotBbxml(String),
    /// An `include` without a `src` attribute.
    MissingIncludeSrc,
    /// A `class` without a `name` attribute.
    MissingClassName,
    /// A `template` without a `name` attribute.
    MissingTemplateName,
    /// A document includes itself, directly or through others.
    CircularInclude(String),
    /// Includes nest deeper than `MAX_INCLUDE_DEPTH`.
    TooDeep,
    /// Rendering the body failed.
    Render(RenderError),
}

/// The mathematical form of a `BuildError`.
pub enum BuildFault {
    NeedResolution(Seq<char>, Seq<char>),
    NeedDocument(Seq<char>),
    FileNotFound(Seq<char>),
    XmlParse(Seq<char>),
    NotBbxml(Seq<char>),
    MissingIncludeSrc,
    MissingClassName,
    MissingTemplateName,
    CircularInclude(Seq<char>),
    TooDeep,
    Render(RenderFault),
}

impl View for BuildError {
    type V = BuildFault;

    open spec fn view(&self) -> BuildFault {
        match self {
            BuildError::NeedResolution(s, d) => BuildFault::NeedResolution(s@, d@),
            BuildError::NeedDocument(p) => BuildFault::NeedDocument(p@),
            BuildError::FileNotFound(p) => BuildFault::FileNotFound(p@),
            BuildError::XmlParse(m) => BuildFault::XmlParse(m@),
            BuildError::NotBbxml(p) => BuildFault::NotBbxml(p@),
            BuildError::MissingIncludeSrc => BuildFault::MissingIncludeSrc,
            BuildError::MissingClassName => BuildFault::MissingClassName,
            BuildError::MissingTemplateName => BuildFault::MissingTemplateName,
            BuildError::CircularInclude(p) => BuildFault::CircularInclude(p@),
            BuildError::TooDeep => BuildFault::TooDeep,
            BuildError::Render(e) => BuildFault::Render(e@),
        }
    }
}

/// Class and template definitions.
pub type Defs = (ClassMap, ElementMap);

/// `cls` with each `class` among `cs` defined as its text with line
/// breaks folded to a space.
pub open spec fn class_defs(cs: Seq<Child>, cls: ClassMap) -> Result<ClassMap, BuildFault>
    decreases cs.len(),
{
    if cs.len() == 0 {
        Ok(cls)
    } else {
        match class_defs(cs.drop_last(), cls) {
            Err(f) => Err(f),
            Ok(m) => {
                let e = cs.last().element;
                if e.tag@ == "class"@ {
                    match e.attr("name"@) {
                        Some(n) => Ok(m.insert(n, compacted(e.text@, " "@))),
                        None => Err(BuildFault::MissingClassName),
                    }
                } else {
                    Ok(m)
                }
            },
        }
    }
}

/// `tpl` with each `template` among `cs` stored under its name.
pub open spec fn template_defs(cs: Seq<Child>, tpl: ElementMap) -> Result<ElementMap, BuildFault>
    decreases cs.len(),
{
    if cs.len() == 0 {
        Ok(tpl)
    } else {
        match template_defs(cs.drop_last(), tpl) {
            Err(f) => Err(f),
            Ok(m) => {
                let e = cs.last().element;
                if e.tag@ == "template"@ {
                    match e.attr("name"@) {
                        Some(n) => Ok(m.insert(n, e)),
                        None => Err(BuildFault::MissingTemplateName),
                    }
                } else {
                    Ok(m)
                }
            },
        }
    }
}

/// The definitions of a document's own `classes` and `templates` sections
/// laid over `defs`.
pub open spec fn own_defs(root: Element, defs: Defs) -> Result<Defs, BuildFault> {
    let c = match root.first("classes"@) {
        None => Ok(defs.0),
        Some(i) => class_defs(root.children@[i].element.children@, defs.0),
    };
    match c {
        Err(f) => Err(f),
        Ok(cm) => match root.first("templates"@) {
            None => Ok((cm, defs.1)),
            Some(j) => match template_defs(root.children@[j].element.children@, defs.1) {
                Err(f) => Err(f),
                Ok(tm) => Ok((cm, tm)),
            },
        },
    }
}

/// The definitions after processing the document at `path`: its includes
/// in order, each before the next, then its own sections. `stack` holds the
/// documents being processed around it.
pub open spec fn file_defs(
    src: Sources,
    path: Seq<char>,
    stack: Seq<Seq<char>>,
    defs: Defs,
    d: nat,
) -> Result<Defs, BuildFault>
    decreases d, 0nat, 0nat,
{
    if d == 0 {
        Err(BuildFault::TooDeep)
    } else if stack.contains(path) {
        Err(BuildFault::CircularInclude(path))
    } else if !src.documents.map().contains_key(path) {
        Err(BuildFault::NeedDocument(path))
    } else {
        match src.documents.map()[path] {
            Loaded::Failed(m) => Err(BuildFault::XmlParse(m@)),
            Loaded::Parsed(root) => if root.tag@ != "bbxml"@ {
                Err(BuildFault::NotBbxml(path))
            } else {
                match includes_defs(
                    src,
                    root.children@,
                    parent_of(path),
                    stack.push(path),
                    defs,
                    (d - 1) as nat,
                ) {
                    Err(f) => Err(f),
                    Ok(inner) => own_defs(root, inner),
                }
            },
        }
    }
}

/// The definitions after processing, in order, each `include` among `cs`.
pub open spec fn includes_defs(
    src: Sources,
    cs: Seq<Child>,
    dir: Seq<char>,
    stack: Seq<Seq<char>>,
    defs: Defs,
    d: nat,
) -> Result<Defs, BuildFault>
    decreases d, 1nat, cs.len(),
{
    if cs.len() == 0 {
        Ok(defs)
    } else {
        match includes_defs(src, cs.drop_last(), dir, stack, defs, d) {
            Err(f) => Err(f),
            Ok(m) => {
                let e = cs.last().element;
                if e.tag@ != "include"@ {
                    Ok(m)
                } else {
                    match e.attr("src"@) {
                        None => Err(BuildFault::MissingIncludeSrc),
                        Some(s) => match resolution_of(src.resolutions@, s, dir) {
                            None => Err(BuildFault::NeedResolution(s, dir)),
                            Some(None) => Err(BuildFault::FileNotFound(s)),
                            Some(Some(p)) => file_defs(src, p, stack, m, d),
                        },
                    }
                }
            },
        }
    }
}

/// The BBCode of the target whose root document is at `path`, starting from
/// the definitions `defs`.
pub open spec fn bbcode_out(src: Sources, path: Seq<char>, defs: Defs) -> Result<Seq<char>, BuildFault> {
    match file_defs(src, path, Seq::empty(), defs, MAX_INCLUDE_DEPTH as nat) {
        Err(f) => Err(f),
        Ok(all) => match src.documents.map()[path] {
            Loaded::Failed(m) => Err(BuildFault::XmlParse(m@)),
            Loaded::Parsed(root) => match body_out(all.0, all.1, root) {
                Ok(s) => Ok(s),
                Err(f) => Err(BuildFault::Render(f)),
            },
        },
    }
}

/// Whether a build step's result matches its specification.
pub open spec fn built(spec_r: Result<Defs, BuildFault>, r: Result<(), BuildError>, after: Defs) -> bool {
    match spec_r {
        Ok(m) => r is Ok && after == m,
        Err(f) => r matches Err(x) && x@ == f,
    }
}

/// Whether `p` is among `stack`.
fn on_stack(stack: &Vec<String>, p: &String) -> (r: bool)
    ensures
        r == views(stack@).contains(p@),
{
    let mut i: usize = 0;
    while i < stack.len()
        invariant
            i <= stack@.len(),
            forall|k: int| 0 <= k < i ==> (#[trigger] stack@[k])@ != p@,
        decreases stack@.len() - i,
    {
        if stack[i] == *p {
            proof {
                assert(views(stack@)[i as int] == p@);
            }
            return true;
        }
        i = i + 1;
    }
    proof {
        if views(stack@).contains(p@) {
            let k = choose|k: int| 0 <= k < views(stack@).len() && views(stack@)[k] == p@;
            assert(stack@[k]@ == p@);
        }
    }
    false
}

/// A BBXML parser which can be used to convert it to BBCode.
pub struct Parser<'a> {
    pub registry: Registry<'a>,
    pub project: &'a Project,
}

impl<'a> Parser<'a> {
    /// The definitions collected so far.
    pub open spec fn defs(&self) -> Defs {
        (self.registry.classes.map(), self.registry.templates.map())
    }

    /// The project this parser works in.
    pub open spec fn project(&self) -> &'a Project {
        self.project
    }

    /// Initializes a new empty parser.
    pub fn new(project: &'a Project) -> (r: Parser<'a>)
        ensures
            r.defs() == (Map::<Seq<char>, Seq<char>>::empty(), Map::<Seq<char>, Element>::empty()),
            r.project() == project,
    {
        Parser { registry: Registry::new(), project }
    }

    /// Adds the classes among `cs`.
    fn process_classes(&mut self, cs: &'a Vec<Child>) -> (r: Result<(), BuildError>)
        ensures
            match class_defs(cs@, old(self).registry.classes.map()) {
                Ok(m) => r is Ok && final(self).registry.classes.map() == m,
                Err(f) => r matches Err(x) && x@ == f,
            },
            final(self).registry.templates == old(self).registry.templates,
            final(self).project == old(self).project,
    {
        let ghost c0 = self.registry.classes.map();
        let mut i: usize = 0;
        proof {
            assert(cs@.take(0) =~= Seq::<Child>::empty());
            reveal_strlit(" ");
        }
        while i < cs.len()
            invariant
                i <= cs@.len(),
                c0 == old(self).registry.classes.map(),
                class_defs(cs@.take(i as int), c0) == Ok::<ClassMap, BuildFault>(self.registry.classes.map()),
                self.registry.templates == old(self).registry.templates,
                self.project == old(self).project,
            decreases cs@.len() - i,
        {
            proof {
                assert(cs@.take(i + 1).drop_last() =~= cs@.take(i as int));
                assert(cs@.take(i + 1).last() == cs@[i as int]);
            }
            let e = &cs[i].element;
            if e.has_tag("class") {
                match e.get_attr("name") {
                    Some(n) => {
                        let body = compact_text(e.text.as_str(), " ");
                        self.registry.classes.insert(n.clone(), body);
                    },
                    None => {
                        proof {
                            lemma_class_defs_fail(cs@, c0, i + 1);
                        }
                        return Err(BuildError::MissingClassName);
                    },
                }
            }
            i = i + 1;
        }
        proof {
            assert(cs@.take(cs@.len() as int) =~= cs@);
        }
        Ok(())
    }

    /// Adds the templates among `cs`.
    fn process_templates(&mut self, cs: &'a Vec<Child>) -> (r: Result<(), BuildError>)
        ensures
            match template_defs(cs@, old(self).registry.templates.map()) {
                Ok(m) => r is Ok && final(self).registry.templates.map() == m,
                Err(f) => r matches Err(x) && x@ == f,
            },
            final(self).registry.classes == old(self).registry.classes,
            final(self).project == old(self).project,
    {
        let ghost t0 = self.registry.templates.map();
        let mut i: usize = 0;
        proof {
            assert(cs@.take(0) =~= Seq::<Child>::empty());
        }
        while i < cs.len()
            invariant
                i <= cs@.len(),
                t0 == old(self).registry.templates.map(),
                template_defs(cs@.take(i as int), t0) == Ok::<ElementMap, BuildFault>(self.registry.templates.map()),
                self.registry.classes == old(self).registry.classes,
                self.project == old(self).project,
            decreases cs@.len() - i,
        {
            proof {
                assert(cs@.take(i + 1).drop_last() =~= cs@.take(i as int));
                assert(cs@.take(i + 1).last() == cs@[i as int]);
            }
            let e = &cs[i].element;
            if e.has_tag("template") {
                match e.get_attr("name") {
                    Some(n) => {
                        self.registry.templates.insert(n.clone(), e);
                    },
                    None => {
                        proof {
                            lemma_template_defs_fail(cs@, t0, i + 1);
                        }
                        return Err(BuildError::MissingTemplateName);
                    },
                }
            }
            i = i + 1;
        }
        proof {
            assert(cs@.take(cs@.len() as int) =~= cs@);
        }
        Ok(())
    }

    /// Adds a document's own class and template sections.
    fn process_sections(&mut self, root: &'a Element) -> (r: Result<(), BuildError>)
        ensures
            built(own_defs(*root, old(self).defs()), r, final(self).defs()),
            final(self).project == old(self).project,
    {
        match root.find("classes") {
            Some(i) => {
                let r = self.process_classes(&root.children[i].element.children);
                if r.is_err() {
                    return r;
                }
            },
            None => {},
        }
        match root.find("templates") {
            Some(j) => {
                let r = self.process_templates(&root.children[j].element.children);
                if r.is_err() {
                    return r;
                }
            },
            None => {},
        }
        Ok(())
    }

    /// Processes a single file for its includes, classes and templates.
    fn process_file(
        &mut self,
        sources: &'a Sources,
        path: &String,
        stack: &mut Vec<String>,
        d: usize,
    ) -> (r: Result<(), BuildError>)
        ensures
            built(file_defs(*sources, path@, views(old(stack)@), old(self).defs(), d as nat), r, final(self).defs()),
            ({
                let docs = sources.documents.map();
                !docs.contains_key(path@) || docs[path@] is Failed || (docs[path@] matches Loaded::Parsed(
                    root,
                ) && root.tag@ != "bbxml"@)
            }) ==> final(self).defs() == old(self).defs(),
            final(stack)@ == old(stack)@,
            final(self).project == old(self).project,
        decreases d, 0nat, 0nat,
    {
        if d == 0 {
            return Err(BuildError::TooDeep);
        }
        if on_stack(stack, path) {
            return Err(BuildError::CircularInclude(path.clone()));
        }
        let root = match sources.documents.get(path) {
            None => {
                return Err(BuildError::NeedDocument(path.clone()));
            },
            Some(Loaded::Failed(m)) => {
                return Err(BuildError::XmlParse(m.clone()));
            },
            Some(Loaded::Parsed(root)) => root,
        };
        if !root.has_tag("bbxml") {
            return Err(BuildError::NotBbxml(path.clone()));
        }
        let dir = parent(path.as_str());
        let ghost s0 = stack@;
        stack.push(path.clone());
        proof {
            assert(views(stack@) =~= views(s0).push(path@));
        }
        let r = self.process_includes(sources, root, &dir, stack, d - 1);
        let ghost s1 = stack@;
        stack.pop();
        proof {
            assert(stack@ =~= s1.drop_last());
        }
        if r.is_err() {
            return r;
        }
        self.process_sections(root)
    }

    /// Processes, in order, the includes among a document's children.
    fn process_includes(
        &mut self,
        sources: &'a Sources,
        root: &'a Element,
        dir: &String,
        stack: &mut Vec<String>,
        d: usize,
    ) -> (r: Result<(), BuildError>)
        ensures
            built(
                includes_defs(*sources, root.children@, dir@, views(old(stack)@), old(self).defs(), d as nat),
                r,
                final(self).defs(),
            ),
            final(stack)@ == old(stack)@,
            final(self).project == old(self).project,
        decreases d, 1nat, 0nat,
    {
        let ghost cs = root.children@;
        let ghost defs0 = self.defs();
        let ghost st = views(stack@);
        let mut i: usize = 0;
        proof {
            assert(cs.take(0) =~= Seq::<Child>::empty());
        }
        while i < root.children.len()
            invariant
                i <= cs.len(),
                cs == root.children@,
                st == views(stack@),
                stack@ == old(stack)@,
                defs0 == old(self).defs(),
                self.project == old(self).project,
                includes_defs(*sources, cs.take(i as int), dir@, st, defs0, d as nat) == Ok::<
                    Defs,
                    BuildFault,
                >(self.defs()),
            decreases cs.len() - i,
        {
            proof {
                assert(cs.take(i + 1).drop_last() =~= cs.take(i as int));
                assert(cs.take(i + 1).last() == cs[i as int]);
            }
            let e = &root.children[i].element;
            if e.has_tag("include") {
                let src = match e.get_attr("src") {
                    None => {
                        proof {
                            lemma_includes_fail(*sources, cs, dir@, st, defs0, d as nat, i + 1);
                        }
                        return Err(BuildError::MissingIncludeSrc);
                    },
                    Some(s) => s,
                };
                match sources.resolve(src, dir) {
                    None => {
                        proof {
                            lemma_includes_fail(*sources, cs, dir@, st, defs0, d as nat, i + 1);
                        }
                        return Err(BuildError::NeedResolution(src.clone(), dir.clone()));
                    },
                    Some(None) => {
                        proof {
                            lemma_includes_fail(*sources, cs, dir@, st, defs0, d as nat, i + 1);
                        }
                        return Err(BuildError::FileNotFound(src.clone()));
                    },
                    Some(Some(p)) => {
                        let r = self.process_file(sources, &p, stack, d);
                        if r.is_err() {
                            proof {
                                lemma_includes_fail(*sources, cs, dir@, st, defs0, d as nat, i + 1);
                            }
                            return r;
                        }
                    },
                }
            }
            i = i + 1;
        }
        proof {
            assert(cs.take(cs.len() as int) =~= cs);
        }
        Ok(())
    }

    /// Parses the document at `root_path` and appends its body, as BBCode,
    /// to `out`.
    pub fn output_bbcode(&mut self, sources: &'a Sources, root_path: &String, out: &mut String) -> (r:
        Result<(), BuildError>)
        ensures
            match bbcode_out(*sources, root_path@, old(self).defs()) {
                Ok(s) => r is Ok && final(out)@ == old(out)@ + s,
                Err(f) => r matches Err(x) && x@ == f,
            },
    {
        let mut stack: Vec<String> = Vec::new();
        proof {
            assert(views(stack@) =~= Seq::<Seq<char>>::empty());
        }
        let r = self.process_file(sources, root_path, &mut stack, MAX_INCLUDE_DEPTH);
        if r.is_err() {
            return r;
        }
        let root = match sources.documents.get(root_path) {
            Some(Loaded::Parsed(root)) => root,
            Some(Loaded::Failed(m)) => {
                return Err(BuildError::XmlParse(m.clone()));
            },
            None => {
                return Err(BuildError::NeedDocument(root_path.clone()));
            },
        };
        match self.registry.render_body(root, out) {
            Ok(()) => Ok(()),
            Err(e) => Err(BuildError::Render(e)),
        }
    }
}

/// The classes that a document's own `classes` section defines, by itself.
pub open spec fn own_classes(root: Element) -> ClassMap {
    match root.first("classes"@) {
        None => Map::empty(),
        Some(i) => match class_defs(root.children@[i].element.children@, Map::empty()) {
            Ok(m) => m,
            Err(_) => Map::empty(),
        },
    }
}

proof fn lemma_class_defs_overlay(cs: Seq<Child>, base: ClassMap)
    ensures
        class_defs(cs, base) == match class_defs(cs, Map::empty()) {
            Ok(m) => Ok(base.union_prefer_right(m)),
            Err(f) => Err::<ClassMap, BuildFault>(f),
        },
    decreases cs.len(),
{
    if cs.len() > 0 {
        lemma_class_defs_overlay(cs.drop_last(), base);
        match class_defs(cs.drop_last(), Map::empty()) {
            Ok(m) => {
                let e = cs.last().element;
                if e.tag@ == "class"@ {
                    if let Some(n) = e.attr("name"@) {
                        let v = compacted(e.text@, " "@);
                        assert(base.union_prefer_right(m).insert(n, v) =~= base.union_prefer_right(
                            m.insert(n, v),
                        ));
                    }
                }
            },
            Err(_) => {},
        }
    } else {
        assert(base.union_prefer_right(Map::empty()) =~= base);
    }
}

proof fn lemma_own_defs_classes(root: Element, inner: Defs)
    requires
        own_defs(root, inner) is Ok,
    ensures
        own_defs(root, inner)->Ok_0.0 == inner.0.union_prefer_right(own_classes(root)),
{
    match root.first("classes"@) {
        None => {
            assert(inner.0.union_prefer_right(Map::empty()) =~= inner.0);
        },
        Some(i) => {
            lemma_class_defs_overlay(root.children@[i].element.children@, inner.0);
        },
    }
}

/// A class that a document defines itself takes the value it gives there,
/// whatever its includes define.
pub proof fn lemma_own_class_wins(
    src: Sources,
    path: Seq<char>,
    stack: Seq<Seq<char>>,
    defs: Defs,
    d: nat,
    root: Element,
    x: Seq<char>,
)
    requires
        file_defs(src, path, stack, defs, d) is Ok,
        src.documents.map().contains_key(path),
        src.documents.map()[path] == Loaded::Parsed(root),
        own_classes(root).contains_key(x),
    ensures
        file_defs(src, path, stack, defs, d)->Ok_0.0.contains_key(x),
        file_defs(src, path, stack, defs, d)->Ok_0.0[x] == own_classes(root)[x],
{
    let inner = includes_defs(src, root.children@, parent_of(path), stack.push(path), defs, (d - 1) as nat)->Ok_0;
    lemma_own_defs_classes(root, inner);
}

/// A class that a document does not define itself keeps the value that its
/// includes left, or stays undefined.
pub proof fn lemma_undefined_class_kept(
    src: Sources,
    path: Seq<char>,
    stack: Seq<Seq<char>>,
    defs: Defs,
    d: nat,
    root: Element,
    x: Seq<char>,
)
    requires
        file_defs(src, path, stack, defs, d) is Ok,
        src.documents.map().contains_key(path),
        src.documents.map()[path] == Loaded::Parsed(root),
        !own_classes(root).contains_key(x),
    ensures
        ({
            let inner = includes_defs(
                src,
                root.children@,
                parent_of(path),
                stack.push(path),
                defs,
                (d - 1) as nat,
            )->Ok_0;
            let r = file_defs(src, path, stack, defs, d)->Ok_0;
            &&& r.0.contains_key(x) == inner.0.contains_key(x)
            &&& r.0.contains_key(x) ==> r.0[x] == inner.0[x]
        }),
{
    let inner = includes_defs(src, root.children@, parent_of(path), stack.push(path), defs, (d - 1) as nat)->Ok_0;
    lemma_own_defs_classes(root, inner);
}

/// Of a document's includes, the last one to define a class itself decides
/// its value: when the last child is an include of a document that defines
/// `x`, the includes leave `x` as that document defines it.
pub proof fn lemma_last_include_wins(
    src: Sources,
    cs: Seq<Child>,
    dir: Seq<char>,
    stack: Seq<Seq<char>>,
    defs: Defs,
    d: nat,
    p: Seq<char>,
    root: Element,
    x: Seq<char>,
)
    requires
        cs.len() > 0,
        includes_defs(src, cs, dir, stack, defs, d) is Ok,
        cs.last().element.tag@ == "include"@,
        cs.last().element.attr("src"@) matches Some(s) && resolution_of(src.resolutions@, s, dir)
            == Some(Some(p)),
        src.documents.map().contains_key(p),
        src.documents.map()[p] == Loaded::Parsed(root),
        own_classes(root).contains_key(x),
    ensures
        includes_defs(src, cs, dir, stack, defs, d)->Ok_0.0.contains_key(x),
        includes_defs(src, cs, dir, stack, defs, d)->Ok_0.0[x] == own_classes(root)[x],
{
    let m = includes_defs(src, cs.drop_last(), dir, stack, defs, d)->Ok_0;
    lemma_own_class_wins(src, p, stack, m, d, root, x);
}

/// Two documents that include each other make discovery fail with a
/// circular include, reported at the document where the cycle closes.
pub proof fn lemma_mutual_include_is_circular(
    src: Sources,
    pa: Seq<char>,
    pb: Seq<char>,
    a: Element,
    b: Element,
    sa: Seq<char>,
    sb: Seq<char>,
    defs: Defs,
    d: nat,
)
    requires
        d >= 3,
        src.documents.map().contains_key(pa),
        src.documents.map().contains_key(pb),
        src.documents.map()[pa] == Loaded::Parsed(a),
        src.documents.map()[pb] == Loaded::Parsed(b),
        a.tag@ == "bbxml"@,
        b.tag@ == "bbxml"@,
        a.children@.len() == 1,
        a.children@[0].element.tag@ == "include"@,
        a.children@[0].element.attr("src"@) == Some(sb),
        resolution_of(src.resolutions@, sb, parent_of(pa)) == Some(Some(pb)),
        b.children@.len() == 1,
        b.children@[0].element.tag@ == "include"@,
        b.children@[0].element.attr("src"@) == Some(sa),
        resolution_of(src.resolutions@, sa, parent_of(pb)) == Some(Some(pa)),
    ensures
        file_defs(src, pa, Seq::empty(), defs, d) == Err::<Defs, BuildFault>(
            BuildFault::CircularInclude(pa),
        ),
{
    let e = Seq::<Seq<char>>::empty();
    assert(!e.contains(pa));
    let s1 = e.push(pa);
    let s2 = s1.push(pb);
    assert(s2[0] == pa);
    assert(s2.contains(pa));
    assert(a.children@.drop_last() =~= Seq::<Child>::empty());
    assert(b.children@.drop_last() =~= Seq::<Child>::empty());
    assert(a.children@.last() == a.children@[0]);
    assert(b.children@.last() == b.children@[0]);
    let circ = Err::<Defs, BuildFault>(BuildFault::CircularInclude(pa));
    if s1.contains(pb) {
        assert(s1[0] == pb);
        assert(s1[0] == pa);
        assert(file_defs(src, pb, s1, defs, (d - 1) as nat) == circ);
    } else {
        assert(s1.push(pb) == s2);
        assert(file_defs(src, pa, s2, defs, (d - 2) as nat) == circ);
        assert(includes_defs(src, b.children@.drop_last(), parent_of(pb), s2, defs, (d - 2) as nat)
            == Ok::<Defs, BuildFault>(defs));
        assert(includes_defs(src, b.children@, parent_of(pb), s2, defs, (d - 2) as nat) == circ);
        assert(file_defs(src, pb, s1, defs, (d - 1) as nat) == circ);
    }
    assert(includes_defs(src, a.children@.drop_last(), parent_of(pa), s1, defs, (d - 1) as nat)
        == Ok::<Defs, BuildFault>(defs));
    assert(includes_defs(src, a.children@, parent_of(pa), s1, defs, (d - 1) as nat) == circ);
}

proof fn lemma_includes_skip_rest(
    src: Sources,
    cs: Seq<Child>,
    dir: Seq<char>,
    stack: Seq<Seq<char>>,
    defs: Defs,
    d: nat,
    k: int,
)
    requires
        0 <= k <= cs.len(),
        forall|j: int| k <= j < cs.len() ==> (#[trigger] cs[j]).element.tag@ != "include"@,
    ensures
        includes_defs(src, cs, dir, stack, defs, d) == includes_defs(src, cs.take(k), dir, stack, defs, d),
    decreases cs.len(),
{
    if cs.len() == k {
        assert(cs.take(k) =~= cs);
    } else {
        let t = cs.drop_last();
        assert(cs.last() == cs[cs.len() - 1]);
        assert forall|j: int| k <= j < t.len() implies (#[trigger] t[j]).element.tag@ != "include"@ by {
            assert(t[j] == cs[j]);
        }
        lemma_includes_skip_rest(src, t, dir, stack, defs, d, k);
        assert(t.take(k) =~= cs.take(k));
    }
}

/// Override order of definitions: when a document includes A and then B
/// (and nothing else), a class it defines itself takes its own value; one
/// it does not define, but B does, takes B's value, whatever A defines.
pub proof fn lemma_override_order(
    src: Sources,
    pd: Seq<char>,
    root: Element,
    pb: Seq<char>,
    b: Element,
    defs: Defs,
    d: nat,
    x: Seq<char>,
)
    requires
        file_defs(src, pd, Seq::empty(), defs, d) is Ok,
        src.documents.map().contains_key(pd),
        src.documents.map()[pd] == Loaded::Parsed(root),
        root.children@.len() >= 2,
        root.children@[0].element.tag@ == "include"@,
        root.children@[1].element.tag@ == "include"@,
        root.children@[1].element.attr("src"@) matches Some(s) && resolution_of(
            src.resolutions@,
            s,
            parent_of(pd),
        ) == Some(Some(pb)),
        forall|j: int| 2 <= j < root.children@.len() ==> (#[trigger] root.children@[j]).element.tag@
            != "include"@,
        src.documents.map().contains_key(pb),
        src.documents.map()[pb] == Loaded::Parsed(b),
        own_classes(b).contains_key(x),
    ensures
        file_defs(src, pd, Seq::empty(), defs, d)->Ok_0.0.contains_key(x),
        file_defs(src, pd, Seq::empty(), defs, d)->Ok_0.0[x] == if own_classes(root).contains_key(x) {
            own_classes(root)[x]
        } else {
            own_classes(b)[x]
        },
{
    if own_classes(root).contains_key(x) {
        lemma_own_class_wins(src, pd, Seq::empty(), defs, d, root, x);
    } else {
        let cs = root.children@;
        let st = Seq::<Seq<char>>::empty().push(pd);
        let dd = (d - 1) as nat;
        lemma_includes_skip_rest(src, cs, parent_of(pd), st, defs, dd, 2);
        let two = cs.take(2);
        assert(two.last() == cs[1]);
        assert(includes_defs(src, two, parent_of(pd), st, defs, dd) is Ok);
        lemma_last_include_wins(src, two, parent_of(pd), st, defs, dd, pb, b, x);
        lemma_undefined_class_kept(src, pd, Seq::empty(), defs, d, root, x);
    }
}

proof fn lemma_class_defs_fail(cs: Seq<Child>, cls: ClassMap, k: int)
    requires
        0 <= k <= cs.len(),
        class_defs(cs.take(k), cls) is Err,
    ensures
        class_defs(cs, cls) == class_defs(cs.take(k), cls),
    decreases cs.len() - k,
{
    if k < cs.len() {
        assert(cs.take(k + 1).drop_last() =~= cs.take(k));
        lemma_class_defs_fail(cs, cls, k + 1);
    } else {
        assert(cs.take(k) =~= cs);
    }
}

proof fn lemma_template_defs_fail(cs: Seq<Child>, tpl: ElementMap, k: int)
    requires
        0 <= k <= cs.len(),
        template_defs(cs.take(k), tpl) is Err,
    ensures
        template_defs(cs, tpl) == template_defs(cs.take(k), tpl),
    decreases cs.len() - k,
{
    if k < cs.len() {
        assert(cs.take(k + 1).drop_last() =~= cs.take(k));
        lemma_template_defs_fail(cs, tpl, k + 1);
    } else {
        assert(cs.take(k) =~= cs);
    }
}

proof fn lemma_includes_fail(
    src: Sources,
    cs: Seq<Child>,
    dir: Seq<char>,
    stack: Seq<Seq<char>>,
    defs: Defs,
    d: nat,
    k: int,
)
    requires
        0 <= k <= cs.len(),
        includes_defs(src, cs.take(k), dir, stack, defs, d) is Err,
    ensures
        includes_defs(src, cs, dir, stack, defs, d) == includes_defs(src, cs.take(k), dir, stack, defs, d),
    decreases cs.len() - k,
{
    if k < cs.len() {
        assert(cs.take(k + 1).drop_last() =~= cs.take(k));
        lemma_includes_fail(src, cs, dir, stack, defs, d, k + 1);
    } else {
        assert(cs.take(k) =~= cs);
    }
}

} // verus!
