//! Rendering of markup trees into BBCode.
use vstd::prelude::*;
use vstd::string::*;
use crate::element::{Child, Element};
use crate::table::Table;
use crate::text::{
    compact_text, compacted, placeholder_split, placeholders, split_whitespace, trim, trimmed,
    upper_of, uppercase, views, words,
};

verus! {

/// How deep rendering may nest (elements, template expansions and
/// substituted arguments together) before it is refused.
pub const MAX_DEPTH: usize = 256;

/// Why rendering failed.
pub enum RenderError {
    /// An `include` without a `template` attribute.
    MissingTemplateAttribute,
    /// A `param` without a `name` attribute.
    MissingParamName,
    /// An `include` naming a template that was never defined.
    TemplateNotFound(String),
    /// The document has no `body`.
    MissingBody,
    /// Nesting went deeper than `MAX_DEPTH`.
    TooDeep,
}

/// The mathematical form of a `RenderError`.
pub enum RenderFault {
    MissingTemplateAttribute,
    MissingParamName,
    TemplateNotFound(Seq<char>),
    MissingBody,
    TooDeep,
}

impl View for RenderError {
    type V = RenderFault;

    open spec fn view(&self) -> RenderFault {
        match self {
            RenderError::MissingTemplateAttribute => RenderFault::MissingTemplateAttribute,
            RenderError::MissingParamName => RenderFault::MissingParamName,
            RenderError::TemplateNotFound(n) => RenderFault::TemplateNotFound(n@),
            RenderError::MissingBody => RenderFault::MissingBody,
            RenderError::TooDeep => RenderFault::TooDeep,
        }
    }
}

/// Text definitions by class name.
pub type ClassMap = Map<Seq<char>, Seq<char>>;

/// Elements by name: templates, or the arguments bound at an include.
pub type ElementMap = Map<Seq<char>, Element>;

/// Output of `a` followed by output of `b`; the first failure wins.
pub open spec fn join(
    a: Result<Seq<char>, RenderFault>,
    b: Result<Seq<char>, RenderFault>,
) -> Result<Seq<char>, RenderFault> {
    match a {
        Err(f) => Err(f),
        Ok(x) => match b {
            Err(f) => Err(f),
            Ok(y) => Ok(x + y),
        },
    }
}

/// The text of all classes named in `names` that `cls` defines, in order.
pub open spec fn class_text(cls: ClassMap, names: Seq<Seq<char>>) -> Seq<char>
    decreases names.len(),
{
    if names.len() == 0 {
        Seq::empty()
    } else {
        class_text(cls, names.drop_last()) + if cls.contains_key(names.last()) {
            cls[names.last()]
        } else {
            Seq::empty()
        }
    }
}

/// The option value of an element: the text of its classes, then its
/// `option` attribute.
pub open spec fn options_of(cls: ClassMap, e: Element) -> Seq<char> {
    class_text(
        cls,
        match e.attr("class"@) {
            Some(c) => words(c),
            None => Seq::empty(),
        },
    ) + match e.attr("option"@) {
        Some(o) => o,
        None => Seq::empty(),
    }
}

/// The opening BBCode tag of an element, written with the tag name `name`.
pub open spec fn open_tag(cls: ClassMap, e: Element, name: Seq<char>) -> Seq<char> {
    let t = trimmed(options_of(cls, e));
    "["@ + name + (if t.len() > 0 {
        "="@ + t
    } else {
        Seq::empty()
    }) + "]"@
}

/// The closing BBCode tag named `name`.
pub open spec fn close_tag(name: Seq<char>) -> Seq<char> {
    "[/"@ + name + "]"@
}

/// The bindings of an include: `ctx` with each `param` child among
/// `children` bound under its name, later ones winning; `None` when a
/// `param` has no name.
pub open spec fn params_bound(children: Seq<Child>, ctx: ElementMap) -> Option<ElementMap>
    decreases children.len(),
{
    if children.len() == 0 {
        Some(ctx)
    } else {
        match params_bound(children.drop_last(), ctx) {
            None => None,
            Some(m) => {
                let p = children.last().element;
                if p.tag@ == "param"@ {
                    match p.attr("name"@) {
                        Some(n) => Some(m.insert(n, p)),
                        None => None,
                    }
                } else {
                    Some(m)
                }
            },
        }
    }
}

/// Renders the content of `e` (its text, then each child with its tail).
pub open spec fn content_out(
    cls: ClassMap,
    tpl: ElementMap,
    e: Element,
    ctx: ElementMap,
    d: nat,
) -> Result<Seq<char>, RenderFault>
    decreases d, 0nat, 0nat,
{
    if d == 0 {
        Err(RenderFault::TooDeep)
    } else {
        join(
            text_out(cls, tpl, e.text@, ctx, (d - 1) as nat),
            children_out(cls, tpl, e.children@, ctx, (d - 1) as nat),
        )
    }
}

/// What a placeholder named `name` becomes: its bound element's content,
/// rendered with no bindings, or nothing when it is unbound.
pub open spec fn subst_out(
    cls: ClassMap,
    tpl: ElementMap,
    name: Seq<char>,
    ctx: ElementMap,
    d: nat,
) -> Result<Seq<char>, RenderFault>
    decreases d, 1nat, 0nat,
{
    if ctx.contains_key(name) {
        content_out(cls, tpl, ctx[name], Map::empty(), d)
    } else {
        Ok(Seq::empty())
    }
}

/// Renders literal segments with placeholders between them.
pub open spec fn segments_out(
    cls: ClassMap,
    tpl: ElementMap,
    literals: Seq<Seq<char>>,
    names: Seq<Seq<char>>,
    ctx: ElementMap,
    d: nat,
) -> Result<Seq<char>, RenderFault>
    decreases d, 2nat, names.len(),
{
    if names.len() == 0 {
        Ok(if literals.len() > 0 {
            literals[0]
        } else {
            Seq::empty()
        })
    } else {
        join(
            segments_out(cls, tpl, literals.drop_last(), names.drop_last(), ctx, d),
            join(subst_out(cls, tpl, names.last(), ctx, d), Ok(literals.last())),
        )
    }
}

/// Renders a text segment: line breaks folded away, then placeholders substituted.
pub open spec fn text_out(
    cls: ClassMap,
    tpl: ElementMap,
    text: Seq<char>,
    ctx: ElementMap,
    d: nat,
) -> Result<Seq<char>, RenderFault>
    decreases d, 3nat, 0nat,
{
    let parts = placeholder_split(compacted(text, Seq::empty()));
    segments_out(cls, tpl, parts.0, parts.1, ctx, d)
}

/// Renders an `include` child: its template's content under the bindings
/// it adds, then its tail under the bindings it was given.
pub open spec fn include_out(
    cls: ClassMap,
    tpl: ElementMap,
    c: Child,
    ctx: ElementMap,
    d: nat,
) -> Result<Seq<char>, RenderFault>
    decreases d, 4nat, 0nat,
{
    let e = c.element;
    match e.attr("template"@) {
        None => Err(RenderFault::MissingTemplateAttribute),
        Some(name) => match params_bound(e.children@, ctx) {
            None => Err(RenderFault::MissingParamName),
            Some(inner) => if tpl.contains_key(name) {
                join(
                    content_out(cls, tpl, tpl[name], inner, d),
                    text_out(cls, tpl, c.tail@, ctx, d),
                )
            } else {
                Err(RenderFault::TemplateNotFound(name))
            },
        },
    }
}

/// Renders a child as a BBCode tag pair named `name` around its content.
pub open spec fn tagged_out(
    cls: ClassMap,
    tpl: ElementMap,
    c: Child,
    name: Seq<char>,
    ctx: ElementMap,
    d: nat,
) -> Result<Seq<char>, RenderFault>
    decreases d, 4nat, 0nat,
{
    let e = c.element;
    join(
        Ok(open_tag(cls, e, name)),
        join(
            content_out(cls, tpl, e, ctx, d),
            join(Ok(close_tag(name)), text_out(cls, tpl, c.tail@, ctx, d)),
        ),
    )
}

/// Renders any other child as a BBCode tag pair, named by its upper-cased
/// tag, around its content.
pub open spec fn generic_out(
    cls: ClassMap,
    tpl: ElementMap,
    c: Child,
    ctx: ElementMap,
    d: nat,
) -> Result<Seq<char>, RenderFault>
    decreases d, 4nat, 1nat,
{
    tagged_out(cls, tpl, c, upper_of(c.element.tag@), ctx, d)
}

/// Renders one child with the text that follows it.
pub open spec fn child_out(
    cls: ClassMap,
    tpl: ElementMap,
    c: Child,
    ctx: ElementMap,
    d: nat,
) -> Result<Seq<char>, RenderFault>
    decreases d, 5nat, 0nat,
{
    let tag = c.element.tag@;
    if tag == "br"@ {
        join(Ok("\n"@), text_out(cls, tpl, c.tail@, ctx, d))
    } else if tag == "include"@ {
        include_out(cls, tpl, c, ctx, d)
    } else if tag == "li"@ {
        join(
            Ok("[*]"@),
            join(content_out(cls, tpl, c.element, ctx, d), text_out(cls, tpl, c.tail@, ctx, d)),
        )
    } else {
        generic_out(cls, tpl, c, ctx, d)
    }
}

/// Renders a list of children in order.
pub open spec fn children_out(
    cls: ClassMap,
    tpl: ElementMap,
    cs: Seq<Child>,
    ctx: ElementMap,
    d: nat,
) -> Result<Seq<char>, RenderFault>
    decreases d, 6nat, cs.len(),
{
    if cs.len() == 0 {
        Ok(Seq::empty())
    } else {
        join(
            children_out(cls, tpl, cs.drop_last(), ctx, d),
            child_out(cls, tpl, cs.last(), ctx, d),
        )
    }
}

/// Renders the body of a document: the content of its first `body` child
/// with no bindings.
pub open spec fn body_out(cls: ClassMap, tpl: ElementMap, root: Element) -> Result<
    Seq<char>,
    RenderFault,
> {
    match root.first("body"@) {
        None => Err(RenderFault::MissingBody),
        Some(i) => content_out(cls, tpl, root.children@[i].element, Map::empty(), MAX_DEPTH as nat),
    }
}

/// The output of a successful step; empty for a failed one.
pub open spec fn ok_text(r: Result<Seq<char>, RenderFault>) -> Seq<char> {
    match r {
        Ok(s) => s,
        Err(_) => Seq::empty(),
    }
}

/// Whether what a step appended matches its specification.
pub open spec fn appended(
    spec_r: Result<Seq<char>, RenderFault>,
    r: Result<(), RenderError>,
    before: Seq<char>,
    after: Seq<char>,
) -> bool {
    match spec_r {
        Ok(s) => r is Ok && after == before + s,
        Err(f) => r matches Err(x) && x@ == f,
    }
}

/// The definitions that rendering draws on.
pub struct Registry<'a> {
    pub classes: Table<String>,
    pub templates: Table<&'a Element>,
}

impl<'a> Registry<'a> {
    /// An empty registry.
    pub fn new() -> (r: Self)
        ensures
            r.classes.map() == Map::<Seq<char>, Seq<char>>::empty(),
            r.templates.map() == Map::<Seq<char>, Element>::empty(),
    {
        Registry { classes: Table::new(), templates: Table::new() }
    }

    /// The class definitions.
    pub open spec fn cls(&self) -> ClassMap {
        self.classes.map()
    }

    /// The template definitions.
    pub open spec fn tpl(&self) -> ElementMap {
        self.templates.map()
    }

    /// Appends the content of `e` to `out`.
    pub fn render_content(
        &self,
        e: &Element,
        ctx: &Table<&'a Element>,
        d: usize,
        out: &mut String,
    ) -> (r: Result<(), RenderError>)
        ensures
            appended(content_out(self.cls(), self.tpl(), *e, ctx.map(), d as nat), r, old(out)@, final(out)@),
        decreases d, 0nat, 0nat,
    {
        if d == 0 {
            return Err(RenderError::TooDeep);
        }
        let ghost start = out@;
        let r1 = self.render_text(&e.text, ctx, d - 1, out);
        if r1.is_err() {
            return r1;
        }
        let ghost mid = out@;
        let ghost cs = e.children@;
        let ghost cls = self.cls();
        let ghost tpl = self.tpl();
        let mut i: usize = 0;
        proof {
            assert(cs.take(0) =~= Seq::<Child>::empty());
            assert(out@ =~= mid + Seq::<char>::empty());
        }
        while i < e.children.len()
            invariant
                i <= cs.len(),
                cs == e.children@,
                cls == self.cls(),
                tpl == self.tpl(),
                d > 0,
                text_out(cls, tpl, e.text@, ctx.map(), (d - 1) as nat) is Ok,
                mid == start + ok_text(text_out(cls, tpl, e.text@, ctx.map(), (d - 1) as nat)),
                children_out(cls, tpl, cs.take(i as int), ctx.map(), (d - 1) as nat) is Ok,
                out@ == mid + ok_text(children_out(cls, tpl, cs.take(i as int), ctx.map(), (d - 1) as nat)),
            decreases cs.len() - i,
        {
            let ghost before = out@;
            let r2 = self.render_child(&e.children[i], ctx, d - 1, out);
            proof {
                assert(cs.take(i + 1).drop_last() =~= cs.take(i as int));
                assert(cs.take(i + 1).last() == cs[i as int]);
            }
            if r2.is_err() {
                proof {
                    lemma_children_fail(cls, tpl, cs, ctx.map(), (d - 1) as nat, i + 1);
                }
                return r2;
            }
            proof {
                let prev = ok_text(children_out(cls, tpl, cs.take(i as int), ctx.map(), (d - 1) as nat));
                let c = ok_text(child_out(cls, tpl, cs[i as int], ctx.map(), (d - 1) as nat));
                assert(out@ =~= mid + (prev + c));
            }
            i = i + 1;
        }
        proof {
            assert(cs.take(cs.len() as int) =~= cs);
            let st = ok_text(text_out(cls, tpl, e.text@, ctx.map(), (d - 1) as nat));
            let sc = ok_text(children_out(cls, tpl, cs, ctx.map(), (d - 1) as nat));
            assert(out@ =~= start + (st + sc));
        }
        Ok(())
    }

    /// Appends a rendered text segment to `out`.
    pub fn render_text(&self, text: &String, ctx: &Table<&'a Element>, d: usize, out: &mut String) -> (r:
        Result<(), RenderError>)
        ensures
            appended(text_out(self.cls(), self.tpl(), text@, ctx.map(), d as nat), r, old(out)@, final(out)@),
        decreases d, 3nat, 0nat,
    {
        let compact = compact_text(text.as_str(), "");
        proof {
            reveal_strlit("");
            assert(""@ =~= Seq::<char>::empty());
        }
        let (literals, names) = placeholders(compact.as_str());
        self.render_segments(&literals, &names, ctx, d, out)
    }

    /// Appends literal segments, with the placeholders named between them
    /// substituted, to `out`.
    pub fn render_segments(
        &self,
        literals: &Vec<String>,
        names: &Vec<String>,
        ctx: &Table<&'a Element>,
        d: usize,
        out: &mut String,
    ) -> (r: Result<(), RenderError>)
        requires
            literals@.len() == names@.len() + 1,
        ensures
            appended(
                segments_out(self.cls(), self.tpl(), views(literals@), views(names@), ctx.map(), d as nat),
                r,
                old(out)@,
                final(out)@,
            ),
        decreases d, 2nat, 0nat,
    {
        let ghost lits = views(literals@);
        let ghost ns = views(names@);
        let ghost start = out@;
        let ghost cls = self.cls();
        let ghost tpl = self.tpl();
        out.append(literals[0].as_str());
        proof {
            assert(lits.take(1).len() == 1);
            assert(lits[0] == literals@[0]@);
            assert(lits.take(1)[0] == lits[0]);
            assert(ns.take(0).len() == 0);
        }
        let mut i: usize = 0;
        while i < names.len()
            invariant
                literals@.len() == names@.len() + 1,
                lits == views(literals@),
                ns == views(names@),
                cls == self.cls(),
                tpl == self.tpl(),
                i <= names@.len(),
                segments_out(cls, tpl, lits.take(i + 1), ns.take(i as int), ctx.map(), d as nat) is Ok,
                out@ == start + ok_text(segments_out(cls, tpl, lits.take(i + 1), ns.take(i as int), ctx.map(), d as nat)),
            decreases names@.len() - i,
        {
            let ghost before = out@;
            proof {
                assert(ns[i as int] == names@[i as int]@);
                assert(lits[i + 1] == literals@[i + 1]@);
                assert(lits.take(i + 2).drop_last() =~= lits.take(i + 1));
                assert(ns.take(i + 1).drop_last() =~= ns.take(i as int));
                assert(ns.take(i + 1).last() == names@[i as int]@);
                assert(lits.take(i + 2).last() == literals@[i + 1]@);
            }
            let bound = ctx.get(&names[i]);
            match bound {
                Some(b) => {
                    let empty: Table<&'a Element> = Table::new();
                    let r = self.render_content(*b, &empty, d, out);
                    if r.is_err() {
                        proof {
                            let name = names@[i as int]@;
                            assert(ctx.map()[name] == **b);
                            assert(subst_out(cls, tpl, name, ctx.map(), d as nat) is Err);
                            lemma_segments_fail(cls, tpl, lits, ns, ctx.map(), d as nat, i + 1);
                        }
                        return r;
                    }
                },
                None => {},
            }
            let ghost mid2 = out@;
            out.append(literals[i + 1].as_str());
            proof {
                let prev = ok_text(segments_out(cls, tpl, lits.take(i + 1), ns.take(i as int), ctx.map(), d as nat));
                let sub = ok_text(subst_out(cls, tpl, names@[i as int]@, ctx.map(), d as nat));
                assert(mid2 == before + sub);
                assert(out@ =~= start + (prev + (sub + literals@[i + 1]@)));
            }
            i = i + 1;
        }
        proof {
            assert(lits.take((names@.len() + 1) as int) =~= lits);
            assert(ns.take(names@.len() as int) =~= ns);
        }
        Ok(())
    }

    /// Appends a rendered child, with its tail, to `out`.
    pub fn render_child(&self, c: &Child, ctx: &Table<&'a Element>, d: usize, out: &mut String) -> (r:
        Result<(), RenderError>)
        ensures
            appended(child_out(self.cls(), self.tpl(), *c, ctx.map(), d as nat), r, old(out)@, final(out)@),
        decreases d, 5nat, 0nat,
    {
        let ghost start = out@;
        if c.element.has_tag("br") {
            out.append("\n");
            let r = self.render_text(&c.tail, ctx, d, out);
            proof {
                if r is Ok {
                    let st = ok_text(text_out(self.cls(), self.tpl(), c.tail@, ctx.map(), d as nat));
                    assert(out@ =~= start + ("\n"@ + st));
                }
            }
            r
        } else if c.element.has_tag("include") {
            self.render_include(c, ctx, d, out)
        } else if c.element.has_tag("li") {
            out.append("[*]");
            let r1 = self.render_content(&c.element, ctx, d, out);
            if r1.is_err() {
                return r1;
            }
            let r2 = self.render_text(&c.tail, ctx, d, out);
            proof {
                if r2 is Ok {
                    let s1 = ok_text(content_out(self.cls(), self.tpl(), c.element, ctx.map(), d as nat));
                    let s2 = ok_text(text_out(self.cls(), self.tpl(), c.tail@, ctx.map(), d as nat));
                    assert(out@ =~= start + ("[*]"@ + (s1 + s2)));
                }
            }
            r2
        } else {
            self.render_generic(c, ctx, d, out)
        }
    }

    /// Appends a rendered `include` child, with its tail, to `out`.
    pub fn render_include(&self, c: &Child, ctx: &Table<&'a Element>, d: usize, out: &mut String) -> (r:
        Result<(), RenderError>)
        ensures
            appended(include_out(self.cls(), self.tpl(), *c, ctx.map(), d as nat), r, old(out)@, final(out)@),
        decreases d, 4nat, 0nat,
    {
        let e = &c.element;
        let name = match e.get_attr("template") {
            None => {
                return Err(RenderError::MissingTemplateAttribute);
            },
            Some(n) => n,
        };
        let inner = match bind_params(e, ctx) {
            None => {
                return Err(RenderError::MissingParamName);
            },
            Some(t) => t,
        };
        let t = match self.templates.get(name) {
            None => {
                return Err(RenderError::TemplateNotFound(name.clone()));
            },
            Some(t) => *t,
        };
        let ghost start = out@;
        let r1 = self.render_content(t, &inner, d, out);
        if r1.is_err() {
            return r1;
        }
        let r2 = self.render_text(&c.tail, ctx, d, out);
        proof {
            if r2 is Ok {
                let s1 = ok_text(content_out(self.cls(), self.tpl(), *t, inner.map(), d as nat));
                let s2 = ok_text(text_out(self.cls(), self.tpl(), c.tail@, ctx.map(), d as nat));
                assert(out@ =~= start + (s1 + s2));
            }
        }
        r2
    }

    /// Appends the option value of `e`: the text of its known classes,
    /// then its `option` attribute.
    fn append_options(&self, e: &Element, out: &mut String)
        ensures
            final(out)@ == old(out)@ + options_of(self.cls(), *e),
    {
        let ghost start = out@;
        match e.get_attr("class") {
            Some(c) => {
                let names = split_whitespace(c.as_str());
                let ghost ws = views(names@);
                let mut i: usize = 0;
                proof {
                    assert(ws.take(0) =~= Seq::<Seq<char>>::empty());
                    assert(out@ =~= start + Seq::<char>::empty());
                }
                while i < names.len()
                    invariant
                        i <= names@.len(),
                        ws == views(names@),
                        out@ == start + class_text(self.cls(), ws.take(i as int)),
                    decreases names@.len() - i,
                {
                    proof {
                        assert(ws.take(i + 1).drop_last() =~= ws.take(i as int));
                        assert(ws.take(i + 1).last() == names@[i as int]@);
                    }
                    match self.classes.get(&names[i]) {
                        Some(body) => {
                            out.append(body.as_str());
                            proof {
                                assert(out@ =~= start + class_text(self.cls(), ws.take(i + 1)));
                            }
                        },
                        None => {
                            proof {
                                assert(out@ =~= start + class_text(self.cls(), ws.take(i + 1)));
                            }
                        },
                    }
                    i = i + 1;
                }
                proof {
                    assert(ws.take(names@.len() as int) =~= ws);
                }
            },
            None => {
                proof {
                    assert(out@ =~= start + class_text(self.cls(), Seq::empty()));
                }
            },
        }
        match e.get_attr("option") {
            Some(o) => {
                out.append(o.as_str());
            },
            None => {
                proof {
                    assert(out@ =~= out@ + Seq::<char>::empty());
                }
            },
        }
        proof {
            assert(out@ =~= start + options_of(self.cls(), *e));
        }
    }

    /// Appends a generic child as a tag pair, named by its upper-cased tag,
    /// around its content, with its tail, to `out`.
    pub fn render_generic(&self, c: &Child, ctx: &Table<&'a Element>, d: usize, out: &mut String) -> (r:
        Result<(), RenderError>)
        ensures
            appended(generic_out(self.cls(), self.tpl(), *c, ctx.map(), d as nat), r, old(out)@, final(out)@),
        decreases d, 4nat, 1nat,
    {
        let upper = uppercase(c.element.tag.as_str());
        self.render_tagged(c, &upper, ctx, d, out)
    }

    /// Appends a child as a tag pair named `name` around its content, with
    /// its tail, to `out`.
    pub fn render_tagged(
        &self,
        c: &Child,
        name: &String,
        ctx: &Table<&'a Element>,
        d: usize,
        out: &mut String,
    ) -> (r: Result<(), RenderError>)
        ensures
            appended(tagged_out(self.cls(), self.tpl(), *c, name@, ctx.map(), d as nat), r, old(out)@, final(out)@),
        decreases d, 4nat, 0nat,
    {
        let e = &c.element;
        let ghost start = out@;
        let mut options = String::new();
        self.append_options(e, &mut options);
        let t = trim(options.as_str());
        out.append("[");
        out.append(name.as_str());
        if t.unicode_len() > 0 {
            out.append("=");
            out.append(t.as_str());
        }
        out.append("]");
        let ghost m1 = out@;
        proof {
            assert(m1 =~= start + open_tag(self.cls(), *e, name@));
        }
        let r1 = self.render_content(e, ctx, d, out);
        if r1.is_err() {
            return r1;
        }
        let ghost m2 = out@;
        out.append("[/");
        out.append(name.as_str());
        out.append("]");
        let ghost m3 = out@;
        let r2 = self.render_text(&c.tail, ctx, d, out);
        proof {
            if r2 is Ok {
                let s1 = ok_text(content_out(self.cls(), self.tpl(), *e, ctx.map(), d as nat));
                let s2 = ok_text(text_out(self.cls(), self.tpl(), c.tail@, ctx.map(), d as nat));
                assert(m3 =~= m2 + close_tag(name@));
                assert(out@ =~= start + (open_tag(self.cls(), *e, name@) + (s1 + (close_tag(name@) + s2))));
            }
        }
        r2
    }

    /// Appends the rendered body of a document to `out`.
    pub fn render_body(&self, root: &Element, out: &mut String) -> (r: Result<(), RenderError>)
        ensures
            appended(body_out(self.cls(), self.tpl(), *root), r, old(out)@, final(out)@),
    {
        match root.find("body") {
            None => Err(RenderError::MissingBody),
            Some(i) => {
                let empty: Table<&'a Element> = Table::new();
                self.render_content(&root.children[i].element, &empty, MAX_DEPTH, out)
            },
        }
    }
}

/// The bindings of an include element: `ctx` with each of its `param`
/// children bound under its name.
pub fn bind_params<'a>(e: &'a Element, ctx: &Table<&'a Element>) -> (r: Option<Table<&'a Element>>)
    ensures
        match params_bound(e.children@, ctx.map()) {
            None => r is None,
            Some(m) => r matches Some(t) && t.map() == m,
        },
{
    let mut t = ctx.copied();
    let mut i: usize = 0;
    proof {
        assert(e.children@.take(0) =~= Seq::<Child>::empty());
    }
    while i < e.children.len()
        invariant
            i <= e.children@.len(),
            params_bound(e.children@.take(i as int), ctx.map()) == Some(t.map()),
        decreases e.children@.len() - i,
    {
        proof {
            assert(e.children@.take(i + 1).drop_last() =~= e.children@.take(i as int));
            assert(e.children@.take(i + 1).last() == e.children@[i as int]);
        }
        let p = &e.children[i].element;
        if p.has_tag("param") {
            match p.get_attr("name") {
                Some(n) => {
                    t.insert(n.clone(), p);
                },
                None => {
                    proof {
                        lemma_bind_params_fails(e.children@, ctx.map(), i + 1);
                    }
                    return None;
                },
            }
        }
        i = i + 1;
    }
    proof {
        assert(e.children@.take(e.children@.len() as int) =~= e.children@);
    }
    Some(t)
}

/// Between two literal segments, a bound placeholder gives way to the
/// content of its element, rendered with no bindings of its own; no brace
/// is written besides those that content holds.
pub proof fn lemma_segments_substituted(
    cls: ClassMap,
    tpl: ElementMap,
    l0: Seq<char>,
    n: Seq<char>,
    l1: Seq<char>,
    ctx: ElementMap,
    d: nat,
    s: Seq<char>,
)
    requires
        ctx.contains_key(n),
        content_out(cls, tpl, ctx[n], Map::empty(), d) == Ok::<Seq<char>, RenderFault>(s),
    ensures
        segments_out(cls, tpl, seq![l0, l1], seq![n], ctx, d) == Ok::<Seq<char>, RenderFault>(
            l0 + s + l1,
        ),
{
    assert(seq![l0, l1].drop_last() =~= seq![l0]);
    assert(seq![n].drop_last() =~= Seq::<Seq<char>>::empty());
    assert(seq![l0, l1].last() == l1);
    assert(seq![l0][0] == l0);
    assert(seq![n].last() == n);
    let lits = seq![l0, l1];
    let ns = seq![n];
    assert(segments_out(cls, tpl, lits.drop_last(), ns.drop_last(), ctx, d) == Ok::<
        Seq<char>,
        RenderFault,
    >(l0));
    assert(subst_out(cls, tpl, n, ctx, d) == Ok::<Seq<char>, RenderFault>(s));
    assert(l0 + (s + l1) =~= l0 + s + l1);
}

/// A placeholder between two literal segments is replaced by the content of
/// the element bound to it, rendered with no bindings of its own.
pub proof fn lemma_bound_placeholder_substituted(
    cls: ClassMap,
    tpl: ElementMap,
    t: Seq<char>,
    l0: Seq<char>,
    n: Seq<char>,
    l1: Seq<char>,
    ctx: ElementMap,
    d: nat,
    s: Seq<char>,
)
    requires
        placeholder_split(compacted(t, Seq::empty())) == (seq![l0, l1], seq![n]),
        ctx.contains_key(n),
        content_out(cls, tpl, ctx[n], Map::empty(), d) == Ok::<Seq<char>, RenderFault>(s),
    ensures
        text_out(cls, tpl, t, ctx, d) == Ok::<Seq<char>, RenderFault>(l0 + s + l1),
{
    assert(seq![l0, l1].drop_last() =~= seq![l0]);
    assert(seq![n].drop_last() =~= Seq::<Seq<char>>::empty());
    assert(l0 + (s + l1) =~= l0 + s + l1);
}

/// A placeholder with no binding vanishes, without an error.
pub proof fn lemma_unbound_placeholder_dropped(
    cls: ClassMap,
    tpl: ElementMap,
    t: Seq<char>,
    l0: Seq<char>,
    n: Seq<char>,
    l1: Seq<char>,
    ctx: ElementMap,
    d: nat,
)
    requires
        placeholder_split(compacted(t, Seq::empty())) == (seq![l0, l1], seq![n]),
        !ctx.contains_key(n),
    ensures
        text_out(cls, tpl, t, ctx, d) == Ok::<Seq<char>, RenderFault>(l0 + l1),
{
    assert(seq![l0, l1].drop_last() =~= seq![l0]);
    assert(seq![n].drop_last() =~= Seq::<Seq<char>>::empty());
    assert(l0 + (Seq::<char>::empty() + l1) =~= l0 + l1);
}

/// A list item renders as the item marker followed by its content, with no
/// closing marker.
pub proof fn lemma_list_item(cls: ClassMap, tpl: ElementMap, c: Child, ctx: ElementMap, d: nat)
    requires
        c.element.tag@ == "li"@,
    ensures
        child_out(cls, tpl, c, ctx, d) == join(
            Ok("[*]"@),
            join(content_out(cls, tpl, c.element, ctx, d), text_out(cls, tpl, c.tail@, ctx, d)),
        ),
{
    reveal_strlit("li");
    reveal_strlit("br");
    reveal_strlit("include");
    assert("li"@[0] != "br"@[0]);
    assert("li"@.len() != "include"@.len());
}

proof fn lemma_children_fail(
    cls: ClassMap,
    tpl: ElementMap,
    cs: Seq<Child>,
    ctx: ElementMap,
    d: nat,
    k: int,
)
    requires
        0 <= k <= cs.len(),
        children_out(cls, tpl, cs.take(k), ctx, d) is Err,
    ensures
        children_out(cls, tpl, cs, ctx, d) == children_out(cls, tpl, cs.take(k), ctx, d),
    decreases cs.len() - k,
{
    if k < cs.len() {
        assert(cs.take(k + 1).drop_last() =~= cs.take(k));
        lemma_children_fail(cls, tpl, cs, ctx, d, k + 1);
    } else {
        assert(cs.take(k) =~= cs);
    }
}

proof fn lemma_segments_fail(
    cls: ClassMap,
    tpl: ElementMap,
    lits: Seq<Seq<char>>,
    ns: Seq<Seq<char>>,
    ctx: ElementMap,
    d: nat,
    k: int,
)
    requires
        0 <= k <= ns.len(),
        lits.len() == ns.len() + 1,
        segments_out(cls, tpl, lits.take(k + 1), ns.take(k), ctx, d) is Err,
    ensures
        segments_out(cls, tpl, lits, ns, ctx, d) == segments_out(cls, tpl, lits.take(k + 1), ns.take(k), ctx, d),
    decreases ns.len() - k,
{
    if k < ns.len() {
        assert(lits.take(k + 2).drop_last() =~= lits.take(k + 1));
        assert(ns.take(k + 1).drop_last() =~= ns.take(k));
        lemma_segments_fail(cls, tpl, lits, ns, ctx, d, k + 1);
    } else {
        assert(lits.take(k + 1) =~= lits);
        assert(ns.take(k) =~= ns);
    }
}

proof fn lemma_bind_params_fails(cs: Seq<Child>, ctx: ElementMap, k: int)
    requires
        0 <= k <= cs.len(),
        params_bound(cs.take(k), ctx) is None,
    ensures
        params_bound(cs, ctx) is None,
    decreases cs.len() - k,
{
    if k < cs.len() {
        assert(cs.take(k + 1).drop_last() =~= cs.take(k));
        lemma_bind_params_fails(cs, ctx, k + 1);
    } else {
        assert(cs.take(k) =~= cs);
    }
}

} // verus!
