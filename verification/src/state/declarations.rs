//! The states that read declarations: SGML declarations, character data
//! sections, comments and the document type.

use vstd::prelude::*;
use crate::state::Child;
use crate::state::SAXState;
use crate::state::SVGError;
use crate::state::ID;
use crate::text::is_upper_word;
use crate::text::push_char;
use crate::text::same;
use crate::text::take;
use crate::text::uppercase;

verus! {

/// After `<!` and the start of a declaration.
pub struct SGMLDeclaration;

/// Inside a quoted text of a declaration.
pub struct SGMLDeclarationQuoted;

/// Inside a character data section.
pub struct CData;

/// After one `]` inside a character data section.
pub struct CDataEnding;

/// After `]]` inside a character data section.
pub struct CDataEnded;

/// Inside a comment.
pub struct Comment;

/// After one `-` inside a comment.
pub struct CommentEnding;

/// After `--` inside a comment.
pub struct CommentEnded;

/// Inside the document type.
pub struct Doctype;

/// Inside a quoted text of the document type.
pub struct DoctypeQuoted;

/// Inside the internal subset of the document type.
pub struct DoctypeDTD;

/// Inside a quoted text of the internal subset.
pub struct DoctypeDTDQuoted;

/// Whether `c` opens a quoted text.
pub open spec fn is_quote(c: char) -> bool {
    c == '"' || c == '\''
}

impl SGMLDeclaration {
    /// What the declaration read so far turns out to be, if anything: a
    /// character data section, a comment (with the character `c`), or the
    /// document type.
    pub open spec fn turns_into(declaration: Seq<char>, c: char) -> Option<ID> {
        if uppercase(declaration) == "[CDATA["@ {
            Some(ID::CData)
        } else if declaration == "-"@ && c == '-' {
            Some(ID::Comment)
        } else if uppercase(declaration) == "DOCTYPE"@ {
            Some(ID::Doctype)
        } else {
            None
        }
    }

    /// Reads `c`. A declaration that turns out to be a section, a comment
    /// or the document type is dropped and the state for it takes over;
    /// `>` ends the declaration, which becomes a child; a quote opens a
    /// quoted text; any other character is added to the declaration.
    pub fn next(&self, sax: &mut SAXState, c: char) -> (r: ID)
        requires
            old(sax).wf(),
        ensures
            final(sax).wf(),
            match Self::turns_into(old(sax).sgml_declaration@, c) {
                Some(ID::CData) => {
                    &&& r == ID::CData
                    &&& final(sax).sgml_declaration@ == Seq::<char>::empty()
                    &&& final(sax).cdata@ == Seq::<char>::empty()
                    &&& *final(sax) == (SAXState {
                        sgml_declaration: final(sax).sgml_declaration,
                        cdata: final(sax).cdata,
                        ..*old(sax)
                    })
                },
                Some(ID::Comment) => {
                    &&& r == ID::Comment
                    &&& final(sax).sgml_declaration@ == Seq::<char>::empty()
                    &&& final(sax).comment@ == Seq::<char>::empty()
                    &&& *final(sax) == (SAXState {
                        sgml_declaration: final(sax).sgml_declaration,
                        comment: final(sax).comment,
                        ..*old(sax)
                    })
                },
                Some(_) => {
                    &&& r == ID::Doctype
                    &&& final(sax).sgml_declaration@ == Seq::<char>::empty()
                    &&& final(sax).doctype@ == Seq::<char>::empty()
                    &&& if old(sax).doctype@.len() > 0 || old(sax).saw_root {
                        old(sax).reported(
                            final(sax),
                            "Doctype should only be declared before root"@,
                            old(sax).last_char(),
                        )
                    } else {
                        final(sax).errors == old(sax).errors
                    }
                    &&& *final(sax) == (SAXState {
                        sgml_declaration: final(sax).sgml_declaration,
                        doctype: final(sax).doctype,
                        errors: final(sax).errors,
                        ..*old(sax)
                    })
                },
                None => if c == '>' {
                    &&& r == ID::Text
                    &&& final(sax).sgml_declaration@ == Seq::<char>::empty()
                    &&& old(sax).grew(final(sax))
                    &&& old(sax).added(final(sax)) matches Child::SGMLDeclaration { value }
                        && value@ == old(sax).sgml_declaration@
                    &&& *final(sax) == (SAXState {
                        sgml_declaration: final(sax).sgml_declaration,
                        root: final(sax).root,
                        elements: final(sax).elements,
                        ..*old(sax)
                    })
                } else {
                    &&& r == if is_quote(c) {
                        ID::SGMLDeclarationQuoted
                    } else {
                        ID::SGMLDeclaration
                    }
                    &&& final(sax).sgml_declaration@ == old(sax).sgml_declaration@.push(c)
                    &&& final(sax).quote == if is_quote(c) {
                        Some(c)
                    } else {
                        old(sax).quote
                    }
                    &&& *final(sax) == (SAXState {
                        sgml_declaration: final(sax).sgml_declaration,
                        quote: final(sax).quote,
                        ..*old(sax)
                    })
                },
            },
    {
        if is_upper_word(sax.sgml_declaration.as_str(), "[CDATA[") {
            sax.sgml_declaration = String::new();
            sax.cdata = String::new();
            return ID::CData;
        }
        if same(sax.sgml_declaration.as_str(), "-") && c == '-' {
            sax.comment = String::new();
            sax.sgml_declaration = String::new();
            return ID::Comment;
        }
        if is_upper_word(sax.sgml_declaration.as_str(), "DOCTYPE") {
            if !sax.doctype.as_str().is_empty() || sax.saw_root {
                sax.error("Doctype should only be declared before root");
            }
            sax.doctype = String::new();
            sax.sgml_declaration = String::new();
            return ID::Doctype;
        }
        if c == '>' {
            let value = take(&mut sax.sgml_declaration);
            sax.add_child(Child::SGMLDeclaration { value });
            ID::Text
        } else if c == '"' || c == '\'' {
            push_char(&mut sax.sgml_declaration, c);
            sax.quote = Some(c);
            ID::SGMLDeclarationQuoted
        } else {
            push_char(&mut sax.sgml_declaration, c);
            ID::SGMLDeclaration
        }
    }

    /// The name of this state.
    pub fn id(&self) -> (r: ID)
        ensures
            r == ID::SGMLDeclaration,
    {
        ID::SGMLDeclaration
    }
}

impl SGMLDeclarationQuoted {
    /// Reads `c`: the quote that opened the text closes it and is left
    /// out; any other character is added to the declaration.
    pub fn next(&self, sax: &mut SAXState, c: char) -> (r: ID)
        ensures
            if old(sax).quote == Some(c) {
                &&& r == ID::SGMLDeclaration
                &&& *final(sax) == (SAXState { quote: None, ..*old(sax) })
            } else {
                &&& r == ID::SGMLDeclarationQuoted
                &&& final(sax).sgml_declaration@ == old(sax).sgml_declaration@.push(c)
                &&& *final(sax) == (SAXState {
                    sgml_declaration: final(sax).sgml_declaration,
                    ..*old(sax)
                })
            },
    {
        if is_quote_of(sax.quote, c) {
            sax.quote = None;
            return ID::SGMLDeclaration;
        }
        push_char(&mut sax.sgml_declaration, c);
        ID::SGMLDeclarationQuoted
    }

    /// The name of this state.
    pub fn id(&self) -> (r: ID)
        ensures
            r == ID::SGMLDeclarationQuoted,
    {
        ID::SGMLDeclarationQuoted
    }
}

/// Whether `c` is the quote `quote`.
pub fn is_quote_of(quote: Option<char>, c: char) -> (r: bool)
    ensures
        r == (quote == Some(c)),
{
    match quote {
        Some(q) => q == c,
        None => false,
    }
}

impl CData {
    /// Reads `c`: `]` may start the end of the section; any other
    /// character is added to it.
    pub fn next(&self, sax: &mut SAXState, c: char) -> (r: ID)
        ensures
            if c == ']' {
                r == ID::CDataEnding && *final(sax) == *old(sax)
            } else {
                &&& r == ID::CData
                &&& final(sax).cdata@ == old(sax).cdata@.push(c)
                &&& *final(sax) == (SAXState { cdata: final(sax).cdata, ..*old(sax) })
            },
    {
        if c == ']' {
            ID::CDataEnding
        } else {
            push_char(&mut sax.cdata, c);
            ID::CData
        }
    }

    /// The name of this state.
    pub fn id(&self) -> (r: ID)
        ensures
            r == ID::CData,
    {
        ID::CData
    }
}

impl CDataEnding {
    /// Reads `c`: a second `]` may end the section; any other character
    /// is added to it after the `]` that was held back.
    pub fn next(&self, sax: &mut SAXState, c: char) -> (r: ID)
        ensures
            if c == ']' {
                r == ID::CDataEnded && *final(sax) == *old(sax)
            } else {
                &&& r == ID::CData
                &&& final(sax).cdata@ == old(sax).cdata@.push(']').push(c)
                &&& *final(sax) == (SAXState { cdata: final(sax).cdata, ..*old(sax) })
            },
    {
        if c == ']' {
            ID::CDataEnded
        } else {
            push_char(&mut sax.cdata, ']');
            push_char(&mut sax.cdata, c);
            ID::CData
        }
    }

    /// The name of this state.
    pub fn id(&self) -> (r: ID)
        ensures
            r == ID::CDataEnding,
    {
        ID::CDataEnding
    }
}

impl CDataEnded {
    /// Reads `c`: `>` ends the section, which becomes a child; a further
    /// `]` is added to the section; any other character is added to it
    /// after the `]]` that was held back.
    pub fn next(&self, sax: &mut SAXState, c: char) -> (r: ID)
        requires
            old(sax).wf(),
        ensures
            final(sax).wf(),
            if c == '>' {
                &&& r == ID::Text
                &&& final(sax).cdata@ == Seq::<char>::empty()
                &&& old(sax).grew(final(sax))
                &&& old(sax).added(final(sax)) matches Child::CData { value } && value@ == old(
                    sax,
                ).cdata@
                &&& *final(sax) == (SAXState {
                    cdata: final(sax).cdata,
                    root: final(sax).root,
                    elements: final(sax).elements,
                    ..*old(sax)
                })
            } else {
                &&& r == if c == ']' {
                    ID::CDataEnded
                } else {
                    ID::CData
                }
                &&& final(sax).cdata@ == if c == ']' {
                    old(sax).cdata@.push(c)
                } else {
                    old(sax).cdata@.push(']').push(']').push(c)
                }
                &&& *final(sax) == (SAXState { cdata: final(sax).cdata, ..*old(sax) })
            },
    {
        if c == '>' {
            let value = take(&mut sax.cdata);
            sax.add_child(Child::CData { value });
            ID::Text
        } else if c == ']' {
            push_char(&mut sax.cdata, c);
            ID::CDataEnded
        } else {
            push_char(&mut sax.cdata, ']');
            push_char(&mut sax.cdata, ']');
            push_char(&mut sax.cdata, c);
            ID::CData
        }
    }

    /// The name of this state.
    pub fn id(&self) -> (r: ID)
        ensures
            r == ID::CDataEnded,
    {
        ID::CDataEnded
    }
}

impl Comment {
    /// Reads `c`: `-` may start the end of the comment; any other
    /// character is added to it.
    pub fn next(&self, sax: &mut SAXState, c: char) -> (r: ID)
        ensures
            if c == '-' {
                r == ID::CommentEnding && *final(sax) == *old(sax)
            } else {
                &&& r == ID::Comment
                &&& final(sax).comment@ == old(sax).comment@.push(c)
                &&& *final(sax) == (SAXState { comment: final(sax).comment, ..*old(sax) })
            },
    {
        if c == '-' {
            ID::CommentEnding
        } else {
            push_char(&mut sax.comment, c);
            ID::Comment
        }
    }

    /// The name of this state.
    pub fn id(&self) -> (r: ID)
        ensures
            r == ID::Comment,
    {
        ID::Comment
    }
}

impl CommentEnding {
    /// Reads `c`: a second `-` may end the comment; any other character
    /// is added to it after the `-` that was held back.
    pub fn next(&self, sax: &mut SAXState, c: char) -> (r: ID)
        ensures
            if c == '-' {
                r == ID::CommentEnded && *final(sax) == *old(sax)
            } else {
                &&& r == ID::Comment
                &&& final(sax).comment@ == old(sax).comment@.push('-').push(c)
                &&& *final(sax) == (SAXState { comment: final(sax).comment, ..*old(sax) })
            },
    {
        if c == '-' {
            ID::CommentEnded
        } else {
            push_char(&mut sax.comment, '-');
            push_char(&mut sax.comment, c);
            ID::Comment
        }
    }

    /// The name of this state.
    pub fn id(&self) -> (r: ID)
        ensures
            r == ID::CommentEnding,
    {
        ID::CommentEnding
    }
}

impl CommentEnded {
    /// Reads `c`: `>` ends the comment, which becomes a child; any other
    /// character is added to it after the `--` that was held back, which a
    /// strict reader reports.
    pub fn next(&self, sax: &mut SAXState, c: char) -> (r: ID)
        requires
            old(sax).wf(),
            old(sax).options.strict && c != '>' ==> old(sax).position >= 2,
        ensures
            final(sax).wf(),
            if c == '>' {
                &&& r == ID::Text
                &&& final(sax).comment@ == Seq::<char>::empty()
                &&& old(sax).grew(final(sax))
                &&& old(sax).added(final(sax)) matches Child::Comment { value } && value@ == old(
                    sax,
                ).comment@
                &&& *final(sax) == (SAXState {
                    comment: final(sax).comment,
                    root: final(sax).root,
                    elements: final(sax).elements,
                    ..*old(sax)
                })
            } else {
                &&& r == ID::Comment
                &&& final(sax).comment@ == old(sax).comment@.push('-').push('-').push(c)
                &&& if old(sax).options.strict {
                    old(sax).reported(
                        final(sax),
                        "`--` in comments should be avoided"@,
                        ((old(sax).position - 2) as usize, old(sax).position),
                    )
                } else {
                    final(sax).errors == old(sax).errors
                }
                &&& *final(sax) == (SAXState {
                    comment: final(sax).comment,
                    errors: final(sax).errors,
                    ..*old(sax)
                })
            },
    {
        if c == '>' {
            let value = take(&mut sax.comment);
            sax.add_child(Child::Comment { value });
            ID::Text
        } else {
            if sax.get_options().strict {
                let message = "`--` in comments should be avoided".to_owned();
                sax.add_error(SVGError { message, span: (sax.position - 2, sax.position) });
                assert(sax.errors@.drop_last() =~= old(sax).errors@);
            }
            push_char(&mut sax.comment, '-');
            push_char(&mut sax.comment, '-');
            push_char(&mut sax.comment, c);
            ID::Comment
        }
    }

    /// The name of this state.
    pub fn id(&self) -> (r: ID)
        ensures
            r == ID::CommentEnded,
    {
        ID::CommentEnded
    }
}

impl Doctype {
    /// Reads `c`: `>` ends the document type, which becomes a child and
    /// is reported where a tag is under construction; `[` opens the
    /// internal subset; a quote opens a quoted text; every character but
    /// `>` is added to the document type.
    pub fn next(&self, sax: &mut SAXState, c: char) -> (r: ID)
        requires
            old(sax).wf(),
        ensures
            final(sax).wf(),
            if c == '>' {
                let warned = SAXState { errors: final(sax).errors, ..*old(sax) };
                &&& r == ID::Text
                &&& final(sax).doctype@ == Seq::<char>::empty()
                &&& if old(sax).tag == crate::state::Parent::Root {
                    final(sax).errors == old(sax).errors
                } else {
                    old(sax).reported(
                        final(sax),
                        "Doctype is only allowed in the root"@,
                        old(sax).last_char(),
                    )
                }
                &&& warned.grew(final(sax))
                &&& warned.added(final(sax)) matches Child::Doctype { data } && data@ == old(
                    sax,
                ).doctype@
                &&& *final(sax) == (SAXState {
                    doctype: final(sax).doctype,
                    errors: final(sax).errors,
                    root: final(sax).root,
                    elements: final(sax).elements,
                    ..*old(sax)
                })
            } else {
                &&& r == if c == '[' {
                    ID::DoctypeDTD
                } else if is_quote(c) {
                    ID::DoctypeQuoted
                } else {
                    ID::Doctype
                }
                &&& final(sax).doctype@ == old(sax).doctype@.push(c)
                &&& final(sax).quote == if is_quote(c) {
                    Some(c)
                } else {
                    old(sax).quote
                }
                &&& *final(sax) == (SAXState {
                    doctype: final(sax).doctype,
                    quote: final(sax).quote,
                    ..*old(sax)
                })
            },
    {
        if c == '>' {
            if !sax.tag.is_root() {
                sax.error("Doctype is only allowed in the root");
            }
            let data = take(&mut sax.doctype);
            sax.add_child(Child::Doctype { data });
            ID::Text
        } else if c == '[' {
            push_char(&mut sax.doctype, c);
            ID::DoctypeDTD
        } else if c == '"' || c == '\'' {
            push_char(&mut sax.doctype, c);
            sax.quote = Some(c);
            ID::DoctypeQuoted
        } else {
            push_char(&mut sax.doctype, c);
            ID::Doctype
        }
    }

    /// The name of this state.
    pub fn id(&self) -> (r: ID)
        ensures
            r == ID::Doctype,
    {
        ID::Doctype
    }
}

impl DoctypeDTD {
    /// Reads `c` into the document type: `]` closes the internal subset,
    /// a quote opens a quoted text.
    pub fn next(&self, sax: &mut SAXState, c: char) -> (r: ID)
        ensures
            r == if c == ']' {
                ID::Doctype
            } else if is_quote(c) {
                ID::DoctypeDTDQuoted
            } else {
                ID::DoctypeDTD
            },
            final(sax).doctype@ == old(sax).doctype@.push(c),
            final(sax).quote == if is_quote(c) {
                Some(c)
            } else {
                old(sax).quote
            },
            *final(sax) == (SAXState {
                doctype: final(sax).doctype,
                quote: final(sax).quote,
                ..*old(sax)
            }),
    {
        push_char(&mut sax.doctype, c);
        if c == ']' {
            ID::Doctype
        } else if c == '"' || c == '\'' {
            sax.quote = Some(c);
            ID::DoctypeDTDQuoted
        } else {
            ID::DoctypeDTD
        }
    }

    /// The name of this state.
    pub fn id(&self) -> (r: ID)
        ensures
            r == ID::DoctypeDTD,
    {
        ID::DoctypeDTD
    }
}

impl DoctypeQuoted {
    /// Reads `c` into the document type; the quote that opened the text
    /// closes it.
    pub fn next(&self, sax: &mut SAXState, c: char) -> (r: ID)
        ensures
            r == if old(sax).quote == Some(c) {
                ID::Doctype
            } else {
                ID::DoctypeQuoted
            },
            final(sax).doctype@ == old(sax).doctype@.push(c),
            final(sax).quote == if old(sax).quote == Some(c) {
                None
            } else {
                old(sax).quote
            },
            *final(sax) == (SAXState {
                doctype: final(sax).doctype,
                quote: final(sax).quote,
                ..*old(sax)
            }),
    {
        push_char(&mut sax.doctype, c);
        if is_quote_of(sax.quote, c) {
            sax.quote = None;
            ID::Doctype
        } else {
            ID::DoctypeQuoted
        }
    }

    /// The name of this state.
    pub fn id(&self) -> (r: ID)
        ensures
            r == ID::DoctypeQuoted,
    {
        ID::DoctypeQuoted
    }
}

impl DoctypeDTDQuoted {
    /// Reads `c` into the document type; the quote that opened the text
    /// closes it.
    pub fn next(&self, sax: &mut SAXState, c: char) -> (r: ID)
        ensures
            r == if old(sax).quote == Some(c) {
                ID::DoctypeDTD
            } else {
                ID::DoctypeDTDQuoted
            },
            final(sax).doctype@ == old(sax).doctype@.push(c),
            final(sax).quote == if old(sax).quote == Some(c) {
                None
            } else {
                old(sax).quote
            },
            *final(sax) == (SAXState {
                doctype: final(sax).doctype,
                quote: final(sax).quote,
                ..*old(sax)
            }),
    {
        push_char(&mut sax.doctype, c);
        if is_quote_of(sax.quote, c) {
            sax.quote = None;
            ID::DoctypeDTD
        } else {
            ID::DoctypeDTDQuoted
        }
    }

    /// The name of this state.
    pub fn id(&self) -> (r: ID)
        ensures
            r == ID::DoctypeDTDQuoted,
    {
        ID::DoctypeDTDQuoted
    }
}

} // verus!
