//! The states of the document reader and what they read into.
//!
//! The reader takes a document character by character. Each state is a
//! unit type whose `next` reads one character into the [`SAXState`] and
//! names the state that reads the following one.

pub mod declarations;
pub mod tags;

use crate::text::same;
use vstd::prelude::*;

verus! {

/// The name of a state of the reader.
#[derive(Clone, Copy, Debug, PartialEq, Eq, Structural)]
pub enum ID {
    Text,
    Script,
    Attribute,
    OpenTag,
    OpenTagSlash,
    CloseTag,
    CloseTagSawWhite,
    SGMLDeclaration,
    SGMLDeclarationQuoted,
    CData,
    CDataEnding,
    CDataEnded,
    Comment,
    CommentEnding,
    CommentEnded,
    Doctype,
    DoctypeQuoted,
    DoctypeDTD,
    DoctypeDTDQuoted,
}

/// How the reader treats what the grammar forbids.
#[derive(Clone, Copy, Debug, PartialEq, Eq, Structural)]
pub struct Options {
    /// Report what a lenient reader lets pass.
    pub strict: bool,
    /// Resolve namespaces.
    pub xmlns: bool,
}

/// Something found wrong in the document, and where.
#[derive(Debug)]
pub struct SVGError {
    pub message: String,
    /// The offsets of the first character and after the last.
    pub span: (usize, usize),
}

/// A node below the document or below an element.
#[derive(Debug)]
pub enum Child {
    /// The element at this index of [`SAXState::elements`].
    Element(usize),
    SGMLDeclaration { value: String },
    CData { value: String },
    Comment { value: String },
    Doctype { data: String },
}

/// An element of the document.
#[derive(Debug)]
pub struct Element {
    pub name: String,
    /// The attributes in the order read: name and value. No name occurs
    /// twice.
    pub attributes: Vec<(String, String)>,
    pub is_self_closing: bool,
    pub children: Vec<Child>,
}

/// What a tag under construction belongs to.
#[derive(Clone, Copy, Debug, PartialEq, Eq, Structural)]
pub enum Parent {
    /// The document itself: no tag is under construction.
    Root,
    /// The element at this index of [`SAXState::elements`].
    Element(usize),
}

impl Parent {
    /// Whether no tag is under construction.
    pub fn is_root(&self) -> (r: bool)
        ensures
            r == (*self == Parent::Root),
    {
        match self {
            Parent::Root => true,
            Parent::Element(_) => false,
        }
    }
}

/// What the reader has read so far.
#[derive(Debug)]
pub struct SAXState {
    pub options: Options,
    /// Offset after the character read last.
    pub position: usize,
    pub errors: Vec<SVGError>,
    /// Every element met so far; the tree refers to them by index.
    pub elements: Vec<Element>,
    /// The children of the document.
    pub root: Vec<Child>,
    /// The elements that are open, outermost first.
    pub tags: Vec<usize>,
    /// The tag under construction.
    pub tag: Parent,
    /// The first element opened.
    pub root_tag: Option<usize>,
    pub saw_root: bool,
    pub closed_root: bool,
    pub tag_name: String,
    pub attribute_name: String,
    /// The attributes read for the tag under construction, in the order
    /// read: name and value. No name occurs twice.
    pub attribute_map: Vec<(String, String)>,
    pub text_node: String,
    pub script: String,
    pub sgml_declaration: String,
    pub cdata: String,
    pub comment: String,
    pub doctype: String,
    /// The quote that opened the quoted text being read.
    pub quote: Option<char>,
}

/// Whether `c` may start a name.
pub open spec fn is_name_start(c: char) -> bool {
    let n = c as u32;
    ||| c == ':'
    ||| c == '_'
    ||| 'A' <= c <= 'Z'
    ||| 'a' <= c <= 'z'
    ||| 0xC0 <= n <= 0xD6
    ||| 0xD8 <= n <= 0xF6
    ||| 0xF8 <= n <= 0x2FF
    ||| 0x370 <= n <= 0x37D
    ||| 0x37F <= n <= 0x1FFF
    ||| 0x200C <= n <= 0x200D
    ||| 0x2070 <= n <= 0x218F
    ||| 0x2C00 <= n <= 0x2FEF
    ||| 0x3001 <= n <= 0xD7FF
    ||| 0xF900 <= n <= 0xFDCF
    ||| 0xFDF0 <= n <= 0xFFFD
    ||| 0x10000 <= n <= 0xEFFFF
}

/// Whether `c` may stand in a name.
pub open spec fn is_name(c: char) -> bool {
    let n = c as u32;
    ||| is_name_start(c)
    ||| c == '-'
    ||| c == '.'
    ||| '0' <= c <= '9'
    ||| n == 0xB7
    ||| 0x300 <= n <= 0x36F
    ||| 0x203F <= n <= 0x2040
}

/// Whether `c` is white space between the parts of a tag.
pub open spec fn is_whitespace(c: char) -> bool {
    c == ' ' || c == '\n' || c == '\r' || c == '\t'
}

/// Whether `c` may start a name.
pub fn name_start(c: char) -> (r: bool)
    ensures
        r == is_name_start(c),
{
    let n = c as u32;
    c == ':' || c == '_' || ('A' <= c && c <= 'Z') || ('a' <= c && c <= 'z') || (0xC0 <= n && n
        <= 0xD6) || (0xD8 <= n && n <= 0xF6) || (0xF8 <= n && n <= 0x2FF) || (0x370 <= n && n
        <= 0x37D) || (0x37F <= n && n <= 0x1FFF) || (0x200C <= n && n <= 0x200D) || (0x2070 <= n
        && n <= 0x218F) || (0x2C00 <= n && n <= 0x2FEF) || (0x3001 <= n && n <= 0xD7FF) || (0xF900
        <= n && n <= 0xFDCF) || (0xFDF0 <= n && n <= 0xFFFD) || (0x10000 <= n && n <= 0xEFFFF)
}

/// Whether `c` may stand in a name.
pub fn name(c: char) -> (r: bool)
    ensures
        r == is_name(c),
{
    let n = c as u32;
    name_start(c) || c == '-' || c == '.' || ('0' <= c && c <= '9') || n == 0xB7 || (0x300 <= n
        && n <= 0x36F) || (0x203F <= n && n <= 0x2040)
}

/// Whether `c` is white space between the parts of a tag.
pub fn whitespace(c: char) -> (r: bool)
    ensures
        r == is_whitespace(c),
{
    c == ' ' || c == '\n' || c == '\r' || c == '\t'
}

/// Whether no name occurs twice among `attributes`.
pub open spec fn names_differ(attributes: Seq<(String, String)>) -> bool {
    forall|i: int, j: int|
        0 <= i < j < attributes.len() ==> (#[trigger] attributes[i]).0@ != (
        #[trigger] attributes[j]).0@
}

/// The index of the attribute named `name` among the first `n` of
/// `attributes`, if there is one.
pub open spec fn named(attributes: Seq<(String, String)>, name: Seq<char>, n: int) -> Option<int>
    decreases n,
{
    if n <= 0 {
        Option::None
    } else if attributes[n - 1].0@ == name {
        Option::Some(n - 1)
    } else {
        named(attributes, name, n - 1)
    }
}

/// What `named` finds has the name asked for, and where it finds
/// nothing, none of the attributes has it.
pub proof fn lemma_named(attributes: Seq<(String, String)>, name: Seq<char>, n: int)
    requires
        0 <= n <= attributes.len(),
    ensures
        match named(attributes, name, n) {
            Option::Some(k) => 0 <= k < n && attributes[k].0@ == name,
            Option::None => forall|k: int| 0 <= k < n ==> (#[trigger] attributes[k]).0@ != name,
        },
    decreases n,
{
    if n > 0 && attributes[n - 1].0@ != name {
        lemma_named(attributes, name, n - 1);
    }
}

/// `attributes` with the value `value` under the name `name`: in the
/// place of the value that the name had, or at the end under a name that
/// is new.
pub open spec fn with_attribute(
    attributes: Seq<(String, String)>,
    name: String,
    value: String,
) -> Seq<(String, String)> {
    match named(attributes, name@, attributes.len() as int) {
        Option::Some(k) => attributes.update(k, (attributes[k].0, value)),
        Option::None => attributes.push((name, value)),
    }
}

/// Whether no name occurs twice among `attributes`.
pub fn differ(attributes: &Vec<(String, String)>) -> (r: bool)
    ensures
        r == names_differ(attributes@),
{
    let mut j: usize = 0;
    while j < attributes.len()
        invariant
            j <= attributes@.len(),
            names_differ(attributes@.take(j as int)),
        decreases attributes@.len() - j,
    {
        let mut i: usize = 0;
        while i < j
            invariant
                i <= j < attributes@.len(),
                forall|k: int| 0 <= k < i ==> (#[trigger] attributes@[k]).0@ != attributes@[j as int].0@,
            decreases j - i,
        {
            if same(attributes[i].0.as_str(), attributes[j].0.as_str()) {
                return false;
            }
            i = i + 1;
        }
        assert forall|a: int, b: int| 0 <= a < b < j + 1 implies (#[trigger] attributes@.take(
            j + 1,
        )[a]).0@ != (#[trigger] attributes@.take(j + 1)[b]).0@ by {
            if b < j {
                assert(attributes@.take(j as int)[a].0@ != attributes@.take(j as int)[b].0@);
            }
        }
        j = j + 1;
    }
    assert(attributes@.take(j as int) =~= attributes@);
    true
}

impl SAXState {
    /// No name occurs twice among the attributes of a tag: neither of the
    /// one under construction, nor of an element.
    pub open spec fn attributes_differ(&self) -> bool {
        &&& names_differ(self.attribute_map@)
        &&& forall|k: int|
            0 <= k < self.elements@.len() ==> names_differ(
                (#[trigger] self.elements@[k]).attributes@,
            )
    }

    /// Every index into the elements is one of an element.
    pub open spec fn indexed(&self) -> bool {
        &&& forall|k: int| 0 <= k < self.tags@.len() ==> #[trigger] self.tags@[k] < self.elements@.len()
        &&& self.tag matches Parent::Element(e) ==> e < self.elements@.len()
    }

    /// Every index into the elements is one of an element, and no tag has
    /// two attributes of one name.
    pub open spec fn wf(&self) -> bool {
        &&& self.indexed()
        &&& self.attributes_differ()
    }

    /// Whether every index into the elements is one of an element, and no
    /// tag has two attributes of one name.
    pub fn is_wf(&self) -> (r: bool)
        ensures
            r == self.wf(),
    {
        match self.tag {
            Parent::Element(e) => {
                if e >= self.elements.len() {
                    return false;
                }
            },
            Parent::Root => {},
        }
        if !differ(&self.attribute_map) {
            return false;
        }
        let mut e: usize = 0;
        while e < self.elements.len()
            invariant
                e <= self.elements@.len(),
                forall|k: int|
                    0 <= k < e ==> names_differ((#[trigger] self.elements@[k]).attributes@),
            decreases self.elements@.len() - e,
        {
            if !differ(&self.elements[e].attributes) {
                return false;
            }
            e = e + 1;
        }
        let mut i: usize = 0;
        while i < self.tags.len()
            invariant
                i <= self.tags@.len(),
                forall|k: int| 0 <= k < i ==> #[trigger] self.tags@[k] < self.elements@.len(),
            decreases self.tags@.len() - i,
        {
            if self.tags[i] >= self.elements.len() {
                return false;
            }
            i = i + 1;
        }
        true
    }

    /// Gives the tag under construction the attribute `name` with the
    /// value `value`. A name that the tag has keeps its place and takes
    /// the new value.
    pub fn set_attribute(&mut self, name: String, value: String)
        ensures
            final(self).attribute_map@ == with_attribute(old(self).attribute_map@, name, value),
            *final(self) == (SAXState { attribute_map: final(self).attribute_map, ..*old(self) }),
            old(self).wf() ==> final(self).wf(),
    {
        let ghost before = self.attribute_map@;
        let mut n: usize = self.attribute_map.len();
        while n > 0
            invariant
                n <= before.len(),
                self.attribute_map@ == before,
                *self == *old(self),
                named(before, name@, before.len() as int) == named(before, name@, n as int),
            decreases n,
        {
            if same(self.attribute_map[n - 1].0.as_str(), name.as_str()) {
                let mut attribute = (String::new(), value);
                std::mem::swap(&mut self.attribute_map[n - 1].0, &mut attribute.0);
                self.attribute_map[n - 1] = attribute;
                proof {
                    let after = self.attribute_map@;
                    assert(after =~= before.update(n - 1, (before[n - 1].0, value)));
                    if names_differ(before) {
                        assert forall|i: int, j: int| 0 <= i < j < after.len() implies (
                        #[trigger] after[i]).0@ != (#[trigger] after[j]).0@ by {
                            assert(before[i].0@ != before[j].0@);
                        }
                    }
                }
                return ;
            }
            n = n - 1;
        }
        proof {
            lemma_named(before, name@, before.len() as int);
            if names_differ(before) {
                let after = before.push((name, value));
                assert forall|i: int, j: int| 0 <= i < j < after.len() implies (
                #[trigger] after[i]).0@ != (#[trigger] after[j]).0@ by {
                    if j < before.len() {
                        assert(before[i].0@ != before[j].0@);
                    } else {
                        assert(before[i].0@ != name@);
                    }
                }
            }
        }
        self.attribute_map.push((name, value));
    }

    /// The span of the character read last.
    pub open spec fn last_char(&self) -> (usize, usize) {
        (
            if self.position > 0 {
                (self.position - 1) as usize
            } else {
                0
            },
            self.position,
        )
    }

    /// `after` is `self` with one more error: `message` at `span`.
    pub open spec fn reported(&self, after: &SAXState, message: Seq<char>, span: (usize, usize))
        -> bool {
        &&& after.errors@.len() == self.errors@.len() + 1
        &&& after.errors@.drop_last() == self.errors@
        &&& after.errors@.last().message@ == message
        &&& after.errors@.last().span == span
    }

    /// A fresh state before the first character.
    pub fn new(options: Options) -> (r: SAXState)
        ensures
            r.wf(),
            r.options == options,
            r.position == 0,
            r.errors@.len() == 0,
            r.elements@.len() == 0,
            r.root@.len() == 0,
            r.tags@.len() == 0,
            r.tag == Parent::Root,
            r.root_tag is None,
            !r.saw_root,
            !r.closed_root,
            r.tag_name@.len() == 0,
            r.attribute_name@.len() == 0,
            r.attribute_map@.len() == 0,
            r.text_node@.len() == 0,
            r.script@.len() == 0,
            r.sgml_declaration@.len() == 0,
            r.cdata@.len() == 0,
            r.comment@.len() == 0,
            r.doctype@.len() == 0,
            r.quote is None,
    {
        SAXState {
            options,
            position: 0,
            errors: Vec::new(),
            elements: Vec::new(),
            root: Vec::new(),
            tags: Vec::new(),
            tag: Parent::Root,
            root_tag: None,
            saw_root: false,
            closed_root: false,
            tag_name: String::new(),
            attribute_name: String::new(),
            attribute_map: Vec::new(),
            text_node: String::new(),
            script: String::new(),
            sgml_declaration: String::new(),
            cdata: String::new(),
            comment: String::new(),
            doctype: String::new(),
            quote: None,
        }
    }

    /// How the reader treats what the grammar forbids.
    pub fn get_options(&self) -> (r: Options)
        ensures
            r == self.options,
    {
        self.options
    }

    /// Records the error `error`.
    pub fn add_error(&mut self, error: SVGError)
        ensures
            final(self).errors@ == old(self).errors@.push(error),
            *final(self) == (SAXState { errors: final(self).errors, ..*old(self) }),
    {
        self.errors.push(error);
    }

    /// Records the error `message` at the character read last.
    pub fn error(&mut self, message: &str)
        ensures
            old(self).reported(final(self), message@, old(self).last_char()),
            *final(self) == (SAXState { errors: final(self).errors, ..*old(self) }),
            old(self).wf() ==> final(self).wf(),
    {
        let start = if self.position > 0 {
            self.position - 1
        } else {
            0
        };
        let error = SVGError { message: message.to_owned(), span: (start, self.position) };
        self.errors.push(error);
        assert(self.errors@.drop_last() =~= old(self).errors@);
        assert(self.tags == old(self).tags && self.elements == old(self).elements);
    }

    /// Whether a child added now goes below the document: no element is
    /// open.
    pub open spec fn at_root(&self) -> bool {
        self.tags@.len() == 0
    }

    /// `after` is `self` with one more child below the innermost open
    /// element, or below the document if none is open.
    pub open spec fn grew(&self, after: &SAXState) -> bool {
        if self.at_root() {
            &&& after.root@.len() == self.root@.len() + 1
            &&& after.root@.drop_last() == self.root@
            &&& after.elements == self.elements
        } else {
            let parent = self.tags@.last() as int;
            &&& after.root == self.root
            &&& after.elements@.len() == self.elements@.len()
            &&& forall|k: int|
                0 <= k < self.elements@.len() && k != parent ==> #[trigger] after.elements@[k]
                    == self.elements@[k]
            &&& after.elements@[parent].children@.len() == self.elements@[parent].children@.len()
                + 1
            &&& after.elements@[parent].children@.drop_last() == self.elements@[parent].children@
            &&& after.elements@[parent].name == self.elements@[parent].name
            &&& after.elements@[parent].attributes == self.elements@[parent].attributes
            &&& after.elements@[parent].is_self_closing == self.elements@[parent].is_self_closing
        }
    }

    /// The child that `after` has more than `self`.
    pub open spec fn added(&self, after: &SAXState) -> Child {
        if self.at_root() {
            after.root@.last()
        } else {
            after.elements@[self.tags@.last() as int].children@.last()
        }
    }

    /// Adds `child` below the innermost open element, or below the
    /// document if none is open.
    pub fn add_child(&mut self, child: Child)
        requires
            old(self).wf(),
        ensures
            old(self).grew(final(self)),
            old(self).added(final(self)) == child,
            final(self).wf(),
            *final(self) == (SAXState {
                root: final(self).root,
                elements: final(self).elements,
                ..*old(self)
            }),
    {
        if self.tags.len() == 0 {
            self.root.push(child);
            assert(self.root@.drop_last() =~= old(self).root@);
        } else {
            let parent = self.tags[self.tags.len() - 1];
            self.elements[parent].children.push(child);
            assert(self.elements@[parent as int].children@.drop_last() =~= old(
                self,
            ).elements@[parent as int].children@);
        }
    }
}

} // verus!
