//! The states that read tags: the name of an opening tag, the slash of a
//! self-closing one, and closing tags.

use vstd::prelude::*;
use crate::state::is_name;
use crate::state::is_name_start;
use crate::state::is_whitespace;
use crate::state::name;
use crate::state::name_start;
use crate::state::whitespace;
use crate::state::Child;
use crate::state::Element;
use crate::state::Parent;
use crate::state::SAXState;
use crate::state::ID;
use crate::text::is_word;
use crate::text::lowercase;
use crate::text::push_char;
use crate::text::same;
use crate::text::take;
use crate::text::to_lowercase;

verus! {

/// Inside the name of an opening tag.
pub struct OpenTag;

/// After the slash of a self-closing tag.
pub struct OpenTagSlash;

/// Inside a closing tag.
pub struct CloseTag;

/// After white space inside a closing tag.
pub struct CloseTagSawWhite;

/// `text` with `</`, `name` and `>` appended.
pub open spec fn with_close_tag(text: Seq<char>, name: Seq<char>) -> Seq<char> {
    (text + "</"@ + name).push('>')
}

/// The index in `tags` of the innermost open element among the first `n`
/// that is not self-closing and whose name has the lower-case form
/// `name`.
pub open spec fn matching_open(sax: &SAXState, name: Seq<char>, n: int) -> Option<int>
    decreases n,
{
    if n <= 0 {
        None
    } else {
        let element = sax.elements@[sax.tags@[n - 1] as int];
        if !element.is_self_closing && lowercase(element.name@) == name {
            Some(n - 1)
        } else {
            matching_open(sax, name, n - 1)
        }
    }
}

/// The index of the innermost among the first `n` of `open`, each a name
/// and whether its element is self-closing, that is not self-closing and
/// has the name `name`.
pub open spec fn last_open(open: Seq<(String, bool)>, name: Seq<char>, n: int) -> Option<int>
    decreases n,
{
    if n <= 0 {
        None
    } else if !open[n - 1].1 && open[n - 1].0@ == name {
        Some(n - 1)
    } else {
        last_open(open, name, n - 1)
    }
}

/// Whether `open` holds, for each of the first `n` open elements, the
/// lower-case form of its name and whether it is self-closing.
pub open spec fn lists_open(open: Seq<(String, bool)>, sax: &SAXState, n: int) -> bool {
    &&& open.len() == n
    &&& forall|k: int|
        0 <= k < n ==> (#[trigger] open[k]).0@ == lowercase(
            sax.elements@[sax.tags@[k] as int].name@,
        ) && open[k].1 == sax.elements@[sax.tags@[k] as int].is_self_closing
}

/// The open element that matches is the one found among the lower-case
/// names.
pub proof fn lemma_last_open(open: Seq<(String, bool)>, sax: &SAXState, name: Seq<char>, n: int)
    requires
        0 <= n <= open.len(),
        lists_open(open, sax, open.len() as int),
    ensures
        last_open(open, name, n) == matching_open(sax, name, n),
    decreases n,
{
    if n > 0 {
        lemma_last_open(open, sax, name, n - 1);
        assert(open[n - 1].0@ == lowercase(sax.elements@[sax.tags@[n - 1] as int].name@));
    }
}

/// The index of the innermost of `open`, each a name and whether its
/// element is self-closing, that is not self-closing and has the name
/// `name`.
pub fn find_open(open: &Vec<(String, bool)>, name: &str) -> (r: Option<usize>)
    ensures
        match r {
            Some(i) => last_open(open@, name@, open@.len() as int) == Some(i as int) && i
                < open@.len(),
            None => last_open(open@, name@, open@.len() as int) is None,
        },
{
    let mut n: usize = open.len();
    while n > 0
        invariant
            n <= open@.len(),
            last_open(open@, name@, open@.len() as int) == last_open(open@, name@, n as int),
        decreases n,
    {
        if !open[n - 1].1 && same(open[n - 1].0.as_str(), name) {
            return Some(n - 1);
        }
        n = n - 1;
    }
    None
}

/// Which open element matches depends on the elements and on which are
/// open only.
pub proof fn lemma_matching_open_frame(a: &SAXState, b: &SAXState, name: Seq<char>, n: int)
    requires
        a.elements == b.elements,
        a.tags == b.tags,
    ensures
        matching_open(a, name, n) == matching_open(b, name, n),
    decreases n,
{
    if n > 0 {
        lemma_matching_open_frame(a, b, name, n - 1);
    }
}

impl OpenTag {
    /// What the end of an opening tag does to the state: the root is seen;
    /// the tag under construction takes the name and the attributes read,
    /// is opened, and is the root tag if there was none.
    pub open spec fn ended(before: &SAXState, after: &SAXState) -> bool {
        match before.tag {
            Parent::Root => *after == (SAXState { saw_root: true, ..*before }),
            Parent::Element(e) => {
                &&& after.saw_root
                &&& after.tag_name@ == Seq::<char>::empty()
                &&& after.attribute_map@ == Seq::<(String, String)>::empty()
                &&& after.tags@ == before.tags@.push(e)
                &&& after.root_tag == if before.root_tag is None {
                    Some(e)
                } else {
                    before.root_tag
                }
                &&& after.elements@.len() == before.elements@.len()
                &&& forall|k: int|
                    0 <= k < before.elements@.len() && k != e ==> #[trigger] after.elements@[k]
                        == before.elements@[k]
                &&& after.elements@[e as int].name@ == before.tag_name@
                &&& after.elements@[e as int].attributes@ == before.attribute_map@
                &&& after.elements@[e as int].is_self_closing
                    == before.elements@[e as int].is_self_closing
                &&& after.elements@[e as int].children == before.elements@[e as int].children
                &&& *after == (SAXState {
                    saw_root: after.saw_root,
                    tag_name: after.tag_name,
                    attribute_map: after.attribute_map,
                    tags: after.tags,
                    root_tag: after.root_tag,
                    elements: after.elements,
                    ..*before
                })
            },
        }
    }

    /// The state that reads what follows an opening tag named `name`:
    /// the script state after a `script` tag that is not self-closing.
    pub open spec fn follows(name: Seq<char>, is_self_closing: bool) -> ID {
        if !is_self_closing && lowercase(name) == "script"@ {
            ID::Script
        } else {
            ID::Text
        }
    }

    /// Reads `c`: a name character is added to the name of the tag; `>`
    /// ends the tag; `/` may end a self-closing tag; anything else starts
    /// the attributes, and is reported unless it is white space.
    pub fn next(&self, sax: &mut SAXState, c: char) -> (r: ID)
        requires
            old(sax).wf(),
            !is_name(c) && c == '>' ==> !old(sax).options.xmlns,
        ensures
            final(sax).wf(),
            if is_name(c) {
                &&& r == ID::OpenTag
                &&& final(sax).tag_name@ == old(sax).tag_name@.push(c)
                &&& *final(sax) == (SAXState { tag_name: final(sax).tag_name, ..*old(sax) })
            } else if c == '>' {
                r == Self::follows(old(sax).tag_name@, false) && Self::ended(old(sax), final(sax))
            } else if c == '/' {
                r == ID::OpenTagSlash && *final(sax) == *old(sax)
            } else {
                &&& r == ID::Attribute
                &&& if is_whitespace(c) {
                    final(sax).errors == old(sax).errors
                } else {
                    old(sax).reported(
                        final(sax),
                        "Expected a valid tag name character"@,
                        old(sax).last_char(),
                    )
                }
                &&& *final(sax) == (SAXState { errors: final(sax).errors, ..*old(sax) })
            },
    {
        if name(c) {
            push_char(&mut sax.tag_name, c);
            ID::OpenTag
        } else if c == '>' {
            Self::handle_end(sax, false)
        } else if c == '/' {
            ID::OpenTagSlash
        } else {
            if !whitespace(c) {
                sax.error("Expected a valid tag name character");
            }
            ID::Attribute
        }
    }

    /// The name of this state.
    pub fn id(&self) -> (r: ID)
        ensures
            r == ID::OpenTag,
    {
        ID::OpenTag
    }

    /// Ends the opening tag under construction and names the state that
    /// reads what follows it.
    #[verifier::rlimit(40)]
    pub fn handle_end(sax: &mut SAXState, is_self_closing: bool) -> (r: ID)
        requires
            old(sax).wf(),
            !old(sax).options.xmlns,
        ensures
            final(sax).wf(),
            r == Self::follows(old(sax).tag_name@, is_self_closing),
            Self::ended(old(sax), final(sax)),
    {
        sax.saw_root = true;
        let state = if !is_self_closing && is_word(sax.tag_name.as_str(), "script") {
            ID::Script
        } else {
            ID::Text
        };
        match sax.tag {
            Parent::Element(e) => {
                let name = take(&mut sax.tag_name);
                let mut attributes: Vec<(String, String)> = Vec::new();
                std::mem::swap(&mut sax.attribute_map, &mut attributes);
                sax.elements[e].name = name;
                sax.elements[e].attributes = attributes;
                sax.tags.push(e);
                if sax.root_tag.is_none() {
                    sax.root_tag = Some(e);
                }
            },
            Parent::Root => {},
        }
        state
    }
}

impl OpenTagSlash {
    /// Reads `c`: `>` ends the self-closing tag, which is opened and
    /// closed at once; anything else is reported and starts the
    /// attributes.
    pub fn next(&self, sax: &mut SAXState, c: char) -> (r: ID)
        requires
            old(sax).wf(),
            c == '>' ==> !old(sax).options.xmlns,
        ensures
            final(sax).wf(),
            if c == '>' {
                exists|opened: SAXState|
                    OpenTag::ended(old(sax), &opened) && #[trigger] CloseTag::ended(
                        &opened,
                        final(sax),
                        r,
                    )
            } else {
                &&& r == ID::Attribute
                &&& old(sax).reported(
                    final(sax),
                    "Expected a `>` to end self-closing tag"@,
                    old(sax).last_char(),
                )
                &&& *final(sax) == (SAXState { errors: final(sax).errors, ..*old(sax) })
            },
    {
        if c == '>' {
            OpenTag::handle_end(sax, true);
            let ghost opened = *sax;
            let r = CloseTag::handle_end(sax);
            assert(CloseTag::ended(&opened, sax, r));
            r
        } else {
            sax.error("Expected a `>` to end self-closing tag");
            ID::Attribute
        }
    }

    /// The name of this state.
    pub fn id(&self) -> (r: ID)
        ensures
            r == ID::OpenTagSlash,
    {
        ID::OpenTagSlash
    }
}

impl CloseTag {
    /// What the end of a closing tag does to the state, and the state
    /// `r` that reads what follows.
    ///
    /// Without a name the text `</>` is read as text. Inside a script a
    /// closing tag of another name is part of the script. Otherwise the
    /// innermost open element of that name is closed, with every element
    /// opened after it, and becomes a child of the element that is then
    /// innermost, or of the document; where none has that name, this is
    /// reported and the tag is added to the text.
    pub open spec fn ended(before: &SAXState, after: &SAXState, r: ID) -> bool {
        if before.tag_name@.len() == 0 {
            &&& r == ID::Text
            &&& after.text_node@ == "</>"@
            &&& if before.options.strict {
                before.reported(after, "start of tag name"@, before.last_char())
            } else {
                after.errors == before.errors
            }
            &&& *after == (SAXState {
                text_node: after.text_node,
                errors: after.errors,
                ..*before
            })
        } else if before.script@.len() > 0 && lowercase(before.tag_name@) != "script"@ {
            &&& r == ID::Script
            &&& after.script@ == with_close_tag(before.script@, before.tag_name@)
            &&& after.tag_name@ == Seq::<char>::empty()
            &&& *after == (SAXState { script: after.script, tag_name: after.tag_name, ..*before })
        } else {
            &&& r == ID::Text
            &&& after.script@ == Seq::<char>::empty()
            &&& match matching_open(before, lowercase(before.tag_name@), before.tags@.len() as int) {
                None => {
                    &&& before.reported(
                        after,
                        "Matching opening tag not found"@,
                        before.last_char(),
                    )
                    &&& after.text_node@ == with_close_tag(before.text_node@, before.tag_name@)
                    &&& *after == (SAXState {
                        script: after.script,
                        errors: after.errors,
                        text_node: after.text_node,
                        ..*before
                    })
                },
                Some(i) => {
                    let closed = before.tags@[i];
                    let popped = SAXState { tags: after.tags, ..*before };
                    &&& after.tags@ == before.tags@.take(i)
                    &&& after.closed_root == (before.closed_root || i == 0)
                    &&& popped.grew(after)
                    &&& popped.added(after) == Child::Element(closed)
                    &&& after.tag_name@ == Seq::<char>::empty()
                    &&& after.attribute_name@ == Seq::<char>::empty()
                    &&& after.attribute_map@ == Seq::<(String, String)>::empty()
                    &&& *after == (SAXState {
                        script: after.script,
                        tags: after.tags,
                        closed_root: after.closed_root,
                        root: after.root,
                        elements: after.elements,
                        tag_name: after.tag_name,
                        attribute_name: after.attribute_name,
                        attribute_map: after.attribute_map,
                        ..*before
                    })
                },
            }
        }
    }

    /// `script` with `</` and `c` appended.
    pub open spec fn script_with(script: Seq<char>, c: char) -> Seq<char> {
        (script + "</"@).push(c)
    }

    /// Reads `c`. Before the name, white space is skipped and a character
    /// that cannot start a name is reported, or read as part of the script
    /// being read. A name character is added to the name; `>` ends the
    /// tag; inside a script anything else is part of the script; white
    /// space ends the name; anything else is reported.
    pub fn next(&self, sax: &mut SAXState, c: char) -> (r: ID)
        requires
            old(sax).wf(),
        ensures
            final(sax).wf(),
            if old(sax).tag_name@.len() == 0 && is_whitespace(c) {
                r == ID::CloseTag && *final(sax) == *old(sax)
            } else if old(sax).tag_name@.len() == 0 && !is_name_start(c) {
                if old(sax).script@.len() > 0 {
                    &&& r == ID::Script
                    &&& final(sax).script@ == Self::script_with(old(sax).script@, c)
                    &&& *final(sax) == (SAXState { script: final(sax).script, ..*old(sax) })
                } else {
                    &&& r == ID::CloseTag
                    &&& old(sax).reported(
                        final(sax),
                        "Expected a valid starting tag name character"@,
                        old(sax).last_char(),
                    )
                    &&& *final(sax) == (SAXState { errors: final(sax).errors, ..*old(sax) })
                }
            } else if is_name(c) {
                &&& r == ID::CloseTag
                &&& final(sax).tag_name@ == old(sax).tag_name@.push(c)
                &&& *final(sax) == (SAXState { tag_name: final(sax).tag_name, ..*old(sax) })
            } else if c == '>' {
                Self::ended(old(sax), final(sax), r)
            } else if old(sax).script@.len() > 0 {
                &&& r == ID::Script
                &&& final(sax).script@ == Self::script_with(old(sax).script@, c)
                &&& final(sax).tag_name@ == Seq::<char>::empty()
                &&& *final(sax) == (SAXState {
                    script: final(sax).script,
                    tag_name: final(sax).tag_name,
                    ..*old(sax)
                })
            } else if is_whitespace(c) {
                r == ID::CloseTagSawWhite && *final(sax) == *old(sax)
            } else {
                &&& r == ID::CloseTag
                &&& old(sax).reported(
                    final(sax),
                    "Expected a valid tag name character"@,
                    old(sax).last_char(),
                )
                &&& *final(sax) == (SAXState { errors: final(sax).errors, ..*old(sax) })
            },
    {
        let unnamed = sax.tag_name.as_str().is_empty();
        let in_script = !sax.script.as_str().is_empty();
        if unnamed && whitespace(c) {
            ID::CloseTag
        } else if unnamed && !name_start(c) {
            if in_script {
                sax.script.append("</");
                push_char(&mut sax.script, c);
                return ID::Script;
            }
            sax.error("Expected a valid starting tag name character");
            ID::CloseTag
        } else if name(c) {
            push_char(&mut sax.tag_name, c);
            ID::CloseTag
        } else if c == '>' {
            Self::handle_end(sax)
        } else if in_script {
            sax.script.append("</");
            push_char(&mut sax.script, c);
            sax.tag_name = String::new();
            ID::Script
        } else if whitespace(c) {
            ID::CloseTagSawWhite
        } else {
            sax.error("Expected a valid tag name character");
            ID::CloseTag
        }
    }

    /// The name of this state.
    pub fn id(&self) -> (r: ID)
        ensures
            r == ID::CloseTag,
    {
        ID::CloseTag
    }

    /// Ends the closing tag read and names the state that reads what
    /// follows it.
    #[verifier::rlimit(40)]
    pub fn handle_end(sax: &mut SAXState) -> (r: ID)
        requires
            old(sax).wf(),
        ensures
            final(sax).wf(),
            Self::ended(old(sax), final(sax), r),
    {
        if sax.tag_name.as_str().is_empty() {
            if sax.get_options().strict {
                sax.error("start of tag name");
            }
            sax.text_node = "</>".to_owned();
            return ID::Text;
        }
        if !sax.script.as_str().is_empty() {
            if !is_word(sax.tag_name.as_str(), "script") {
                sax.script.append("</");
                let name = take(&mut sax.tag_name);
                sax.script.append(name.as_str());
                push_char(&mut sax.script, '>');
                return ID::Script;
            }
            sax.script = String::new();
        }
        assert(sax.script@ =~= Seq::<char>::empty());
        let normalised_tag_name = to_lowercase(sax.tag_name.as_str());
        // The matching opening tag is the last one open, unless tags
        // overlap, as in <a><b></a></b>.
        let mut open: Vec<(String, bool)> = Vec::new();
        let mut k: usize = 0;
        while k < sax.tags.len()
            invariant
                k <= sax.tags@.len(),
                sax.wf(),
                lists_open(open@, sax, k as int),
            decreases sax.tags@.len() - k,
        {
            let element = &sax.elements[sax.tags[k]];
            open.push((to_lowercase(element.name.as_str()), element.is_self_closing));
            k = k + 1;
        }
        let opening_tag_index = find_open(&open, normalised_tag_name.as_str());
        proof {
            lemma_last_open(open@, sax, normalised_tag_name@, sax.tags@.len() as int);
            lemma_matching_open_frame(
                old(sax),
                sax,
                normalised_tag_name@,
                sax.tags@.len() as int,
            );
        }
        let i = match opening_tag_index {
            None => {
                sax.error("Matching opening tag not found");
                sax.text_node.append("</");
                sax.text_node.append(sax.tag_name.as_str());
                push_char(&mut sax.text_node, '>');
                assert(sax.text_node@ =~= with_close_tag(old(sax).text_node@, old(sax).tag_name@));
                return ID::Text;
            },
            Some(i) => i,
        };
        let ghost before_pop = sax.tags@;
        // The opening tag goes, and every tag opened after it.
        let closed = sax.tags[i];
        sax.tags.truncate(i);
        assert(sax.tags@ =~= before_pop.take(i as int));
        if i == 0 {
            sax.closed_root = true;
        }
        let ghost popped = *sax;
        sax.add_child(Child::Element(closed));
        proof {
            let expected = SAXState { tags: sax.tags, ..*old(sax) };
            assert(expected.grew(sax) == popped.grew(sax));
            assert(expected.added(sax) == popped.added(sax));
        }
        sax.tag_name = String::new();
        sax.attribute_map = Vec::new();
        sax.attribute_name = String::new();
        ID::Text
    }
}

impl CloseTagSawWhite {
    /// Reads `c`: white space is skipped; `>` ends the tag; anything else
    /// is reported.
    pub fn next(&self, sax: &mut SAXState, c: char) -> (r: ID)
        requires
            old(sax).wf(),
        ensures
            final(sax).wf(),
            if is_whitespace(c) {
                r == ID::CloseTagSawWhite && *final(sax) == *old(sax)
            } else if c == '>' {
                CloseTag::ended(old(sax), final(sax), r)
            } else {
                &&& r == ID::CloseTagSawWhite
                &&& old(sax).reported(
                    final(sax),
                    "Expected `>` to end closing tag"@,
                    old(sax).last_char(),
                )
                &&& *final(sax) == (SAXState { errors: final(sax).errors, ..*old(sax) })
            },
    {
        if whitespace(c) {
            ID::CloseTagSawWhite
        } else if c == '>' {
            CloseTag::handle_end(sax)
        } else {
            sax.error("Expected `>` to end closing tag");
            ID::CloseTagSawWhite
        }
    }

    /// The name of this state.
    pub fn id(&self) -> (r: ID)
        ensures
            r == ID::CloseTagSawWhite,
    {
        ID::CloseTagSawWhite
    }
}

} // verus!
