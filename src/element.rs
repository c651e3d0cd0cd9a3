//! The tree of a parsed markup document.
use vstd::prelude::*;
use vstd::string::*;

verus! {

/// A tagged node: attributes, the text before its first child, and its
/// children, each with the text that follows it.
pub struct Element {
    pub tag: String,
    pub attributes: Vec<(String, String)>,
    pub text: String,
    pub children: Vec<Child>,
}

/// A child element with the text that follows it inside its parent.
pub struct Child {
    pub element: Element,
    pub tail: String,
}

impl View for Element {
    type V = Element;

    open spec fn view(&self) -> Element {
        *self
    }
}

/// The value of the first attribute named `name`.
pub open spec fn attr_of(attrs: Seq<(String, String)>, name: Seq<char>) -> Option<Seq<char>>
    decreases attrs.len(),
{
    if attrs.len() == 0 {
        None
    } else if attrs[0].0@ == name {
        Some(attrs[0].1@)
    } else {
        attr_of(attrs.drop_first(), name)
    }
}

/// The index of the first child tagged `tag` at or after `i`, if any.
pub open spec fn find_from(children: Seq<Child>, tag: Seq<char>, i: int) -> Option<int>
    decreases children.len() - i,
{
    if i < 0 || i >= children.len() {
        None
    } else if children[i].element.tag@ == tag {
        Some(i)
    } else {
        find_from(children, tag, i + 1)
    }
}

impl Element {
    /// The value of the attribute `name`.
    pub open spec fn attr(&self, name: Seq<char>) -> Option<Seq<char>> {
        attr_of(self.attributes@, name)
    }

    /// The first child tagged `tag`.
    pub open spec fn first(&self, tag: Seq<char>) -> Option<int> {
        find_from(self.children@, tag, 0)
    }

    /// Whether this element's tag is `name`.
    pub fn has_tag(&self, name: &str) -> (r: bool)
        ensures
            r == (self.tag@ == name@),
    {
        let key = String::from_str(name);
        self.tag == key
    }

    /// Looks up the attribute `name`.
    pub fn get_attr(&self, name: &str) -> (r: Option<&String>)
        ensures
            match r {
                Some(v) => self.attr(name@) == Some(v@),
                None => self.attr(name@) is None,
            },
    {
        let key = String::from_str(name);
        let mut i: usize = 0;
        proof {
            assert(self.attributes@.skip(0) =~= self.attributes@);
        }
        while i < self.attributes.len()
            invariant
                i <= self.attributes@.len(),
                key@ == name@,
                self.attr(name@) == attr_of(self.attributes@.skip(i as int), name@),
            decreases self.attributes@.len() - i,
        {
            proof {
                assert(self.attributes@.skip(i as int).drop_first() =~= self.attributes@.skip(
                    i + 1,
                ));
            }
            if self.attributes[i].0 == key {
                return Some(&self.attributes[i].1);
            }
            i = i + 1;
        }
        None
    }

    /// Finds the index of the first child tagged `tag`.
    pub fn find(&self, tag: &str) -> (r: Option<usize>)
        ensures
            match r {
                Some(i) => self.first(tag@) == Some(i as int) && i < self.children@.len(),
                None => self.first(tag@) is None,
            },
    {
        let key = String::from_str(tag);
        let mut i: usize = 0;
        while i < self.children.len()
            invariant
                i <= self.children@.len(),
                key@ == tag@,
                self.first(tag@) == find_from(self.children@, tag@, i as int),
            decreases self.children@.len() - i,
        {
            if self.children[i].element.tag == key {
                return Some(i);
            }
            i = i + 1;
        }
        None
    }
}

} // verus!
