use oxvg::state::declarations::CData;
use oxvg::state::declarations::CDataEnded;
use oxvg::state::declarations::CDataEnding;
use oxvg::state::declarations::Comment;
use oxvg::state::declarations::CommentEnded;
use oxvg::state::declarations::CommentEnding;
use oxvg::state::declarations::Doctype;
use oxvg::state::declarations::DoctypeDTD;
use oxvg::state::declarations::DoctypeDTDQuoted;
use oxvg::state::declarations::DoctypeQuoted;
use oxvg::state::declarations::SGMLDeclaration;
use oxvg::state::declarations::SGMLDeclarationQuoted;
use oxvg::state::tags::CloseTag;
use oxvg::state::tags::CloseTagSawWhite;
use oxvg::state::tags::OpenTag;
use oxvg::state::tags::OpenTagSlash;
use oxvg::state::Child;
use oxvg::state::Element;
use oxvg::state::Options;
use oxvg::state::Parent;
use oxvg::state::SAXState;
use oxvg::state::ID;

fn lenient() -> SAXState {
    SAXState::new(Options { strict: false, xmlns: false })
}

fn strict() -> SAXState {
    SAXState::new(Options { strict: true, xmlns: false })
}

fn element(name: &str) -> Element {
    Element { name: String::from(name), attributes: vec![], is_self_closing: false, children: vec![] }
}

/// A state with the elements of these names open, outermost first.
fn open(names: &[&str]) -> SAXState {
    let mut sax = lenient();
    for (i, name) in names.iter().enumerate() {
        sax.elements.push(element(name));
        sax.tags.push(i);
    }
    sax
}

fn feed(sax: &mut SAXState, start: ID, text: &str) -> ID {
    let mut state = start;
    for c in text.chars() {
        sax.position += 1;
        state = match state {
            ID::OpenTag => OpenTag.next(sax, c),
            ID::OpenTagSlash => OpenTagSlash.next(sax, c),
            ID::CloseTag => CloseTag.next(sax, c),
            ID::CloseTagSawWhite => CloseTagSawWhite.next(sax, c),
            ID::SGMLDeclaration => SGMLDeclaration.next(sax, c),
            ID::SGMLDeclarationQuoted => SGMLDeclarationQuoted.next(sax, c),
            ID::CData => CData.next(sax, c),
            ID::CDataEnding => CDataEnding.next(sax, c),
            ID::CDataEnded => CDataEnded.next(sax, c),
            ID::Comment => Comment.next(sax, c),
            ID::CommentEnding => CommentEnding.next(sax, c),
            ID::CommentEnded => CommentEnded.next(sax, c),
            ID::Doctype => Doctype.next(sax, c),
            ID::DoctypeQuoted => DoctypeQuoted.next(sax, c),
            ID::DoctypeDTD => DoctypeDTD.next(sax, c),
            ID::DoctypeDTDQuoted => DoctypeDTDQuoted.next(sax, c),
            other => return other,
        };
    }
    state
}

#[test]
fn every_state_has_its_name() {
    assert_eq!(OpenTag.id(), ID::OpenTag);
    assert_eq!(OpenTagSlash.id(), ID::OpenTagSlash);
    assert_eq!(CloseTag.id(), ID::CloseTag);
    assert_eq!(CloseTagSawWhite.id(), ID::CloseTagSawWhite);
    assert_eq!(SGMLDeclaration.id(), ID::SGMLDeclaration);
    assert_eq!(SGMLDeclarationQuoted.id(), ID::SGMLDeclarationQuoted);
    assert_eq!(CData.id(), ID::CData);
    assert_eq!(CDataEnding.id(), ID::CDataEnding);
    assert_eq!(CDataEnded.id(), ID::CDataEnded);
    assert_eq!(Comment.id(), ID::Comment);
    assert_eq!(CommentEnding.id(), ID::CommentEnding);
    assert_eq!(CommentEnded.id(), ID::CommentEnded);
    assert_eq!(Doctype.id(), ID::Doctype);
    assert_eq!(DoctypeQuoted.id(), ID::DoctypeQuoted);
    assert_eq!(DoctypeDTD.id(), ID::DoctypeDTD);
    assert_eq!(DoctypeDTDQuoted.id(), ID::DoctypeDTDQuoted);
}

#[test]
fn an_opening_tag_reads_its_name() {
    let mut sax = lenient();
    assert_eq!(feed(&mut sax, ID::OpenTag, "svg"), ID::OpenTag);
    assert_eq!(sax.tag_name, "svg");
    assert_eq!(OpenTag.next(&mut sax, ' '), ID::Attribute);
    assert!(sax.errors.is_empty());
    assert_eq!(OpenTag.next(&mut sax, '/'), ID::OpenTagSlash);
    assert_eq!(sax.tag_name, "svg");
}

#[test]
fn a_character_that_no_name_holds_is_reported() {
    let mut sax = lenient();
    sax.position = 5;
    assert_eq!(OpenTag.next(&mut sax, '!'), ID::Attribute);
    assert_eq!(sax.errors.len(), 1);
    assert_eq!(sax.errors[0].message, "Expected a valid tag name character");
    assert_eq!(sax.errors[0].span, (4, 5));
}

#[test]
fn the_end_of_an_opening_tag_opens_the_element() {
    let mut sax = lenient();
    sax.elements.push(element(""));
    sax.tag = Parent::Element(0);
    sax.attribute_map.push((String::from("id"), String::from("a")));
    assert_eq!(feed(&mut sax, ID::OpenTag, "svg>"), ID::Text);
    assert!(sax.saw_root);
    assert_eq!(sax.tags, vec![0]);
    assert_eq!(sax.root_tag, Some(0));
    assert_eq!(sax.elements[0].name, "svg");
    assert_eq!(sax.elements[0].attributes, vec![(String::from("id"), String::from("a"))]);
    assert_eq!(sax.tag_name, "");
    assert!(sax.attribute_map.is_empty());
}

#[test]
fn the_first_element_opened_stays_the_root_tag() {
    let mut sax = open(&["svg"]);
    sax.root_tag = Some(0);
    sax.elements.push(element(""));
    sax.tag = Parent::Element(1);
    assert_eq!(feed(&mut sax, ID::OpenTag, "g>"), ID::Text);
    assert_eq!(sax.tags, vec![0, 1]);
    assert_eq!(sax.root_tag, Some(0));
}

#[test]
fn a_script_tag_is_followed_by_its_script() {
    let mut sax = lenient();
    assert_eq!(feed(&mut sax, ID::OpenTag, "SCRIPT>"), ID::Script);
    assert!(sax.saw_root);
    // without a tag under construction the name is kept
    assert_eq!(sax.tag_name, "SCRIPT");
    let mut closing = lenient();
    closing.tag_name = String::from("script");
    assert_eq!(OpenTag::handle_end(&mut closing, true), ID::Text);
}

#[test]
fn a_self_closing_tag_is_opened_and_closed() {
    let mut sax = open(&["svg"]);
    sax.elements.push(element(""));
    sax.tag = Parent::Element(1);
    assert_eq!(feed(&mut sax, ID::OpenTag, "path/>"), ID::Text);
    assert_eq!(sax.elements[1].name, "path");
    // the name went with the opening, so the closing finds none
    assert_eq!(sax.tags, vec![0, 1]);
    assert_eq!(sax.text_node, "</>");
    assert_eq!(sax.tag_name, "");
    // without a tag under construction the name is there to close
    let mut sax = open(&["svg", "path"]);
    assert_eq!(feed(&mut sax, ID::OpenTag, "path/>"), ID::Text);
    assert_eq!(sax.tags, vec![0]);
    assert!(matches!(sax.elements[0].children[..], [Child::Element(1)]));
    assert_eq!(sax.tag_name, "");
    let mut other = lenient();
    assert_eq!(OpenTagSlash.next(&mut other, 'x'), ID::Attribute);
    assert_eq!(other.errors[0].message, "Expected a `>` to end self-closing tag");
}

#[test]
fn a_closing_tag_closes_the_element_of_its_name() {
    let mut sax = open(&["svg", "g", "path"]);
    assert_eq!(feed(&mut sax, ID::CloseTag, "path>"), ID::Text);
    assert_eq!(sax.tags, vec![0, 1]);
    assert!(matches!(sax.elements[1].children[..], [Child::Element(2)]));
    assert!(!sax.closed_root);
    assert_eq!(sax.tag_name, "");
    assert!(sax.errors.is_empty());
}

#[test]
fn a_closing_tag_closes_what_was_opened_after_its_element() {
    let mut sax = open(&["svg", "g", "path"]);
    assert_eq!(feed(&mut sax, ID::CloseTag, "G >"), ID::Text);
    assert_eq!(sax.tags, vec![0]);
    assert!(matches!(sax.elements[0].children[..], [Child::Element(1)]));
    assert!(sax.elements[1].children.is_empty());
}

#[test]
fn the_innermost_element_of_a_name_is_closed() {
    let mut sax = open(&["g", "g", "g"]);
    assert_eq!(CloseTag.next(&mut sax, 'g'), ID::CloseTag);
    assert_eq!(CloseTag::handle_end(&mut sax), ID::Text);
    assert_eq!(sax.tags, vec![0, 1]);
    sax.tag_name = String::from("g");
    sax.elements[1].is_self_closing = true;
    assert_eq!(CloseTag::handle_end(&mut sax), ID::Text);
    assert!(sax.tags.is_empty());
    assert!(sax.closed_root);
    assert!(matches!(sax.root[..], [Child::Element(0)]));
}

#[test]
fn closing_the_root_is_noted() {
    let mut sax = open(&["svg"]);
    assert_eq!(feed(&mut sax, ID::CloseTag, "svg>"), ID::Text);
    assert!(sax.closed_root);
    assert!(sax.tags.is_empty());
    assert!(matches!(sax.root[..], [Child::Element(0)]));
}

#[test]
fn a_closing_tag_without_its_element_is_text() {
    let mut sax = open(&["svg"]);
    sax.text_node = String::from("a");
    sax.position = 9;
    assert_eq!(feed(&mut sax, ID::CloseTag, "g>"), ID::Text);
    assert_eq!(sax.tags, vec![0]);
    assert_eq!(sax.text_node, "a</g>");
    assert_eq!(sax.errors.len(), 1);
    assert_eq!(sax.errors[0].message, "Matching opening tag not found");
    assert_eq!(sax.errors[0].span, (10, 11));
    // the name stays for what reads on
    assert_eq!(sax.tag_name, "g");
}

#[test]
fn a_closing_tag_without_a_name_is_text() {
    let mut sax = lenient();
    assert_eq!(CloseTag::handle_end(&mut sax), ID::Text);
    assert_eq!(sax.text_node, "</>");
    assert!(sax.errors.is_empty());
    let mut sax = strict();
    assert_eq!(CloseTag::handle_end(&mut sax), ID::Text);
    assert_eq!(sax.text_node, "</>");
    assert_eq!(sax.errors[0].message, "start of tag name");
}

#[test]
fn a_closing_tag_inside_a_script_is_script() {
    let mut sax = open(&["script"]);
    sax.script = String::from("if (a");
    assert_eq!(feed(&mut sax, ID::CloseTag, "b>"), ID::Script);
    assert_eq!(sax.script, "if (a</b>");
    assert_eq!(sax.tag_name, "");
    assert_eq!(sax.tags, vec![0]);
    assert_eq!(feed(&mut sax, ID::CloseTag, "1"), ID::Script);
    assert_eq!(sax.script, "if (a</b></1");
    sax.tag_name = String::from("b");
    assert_eq!(CloseTag.next(&mut sax, '<'), ID::Script);
    assert_eq!(sax.script, "if (a</b></1</<");
    assert_eq!(sax.tag_name, "");
    assert_eq!(feed(&mut sax, ID::CloseTag, "Script>"), ID::Text);
    assert_eq!(sax.script, "");
    assert!(sax.tags.is_empty());
}

#[test]
fn white_space_in_a_closing_tag() {
    let mut sax = open(&["svg"]);
    assert_eq!(feed(&mut sax, ID::CloseTag, "  "), ID::CloseTag);
    assert_eq!(feed(&mut sax, ID::CloseTag, "svg "), ID::CloseTagSawWhite);
    assert_eq!(feed(&mut sax, ID::CloseTagSawWhite, " \n"), ID::CloseTagSawWhite);
    assert_eq!(CloseTagSawWhite.next(&mut sax, 'x'), ID::CloseTagSawWhite);
    assert_eq!(sax.errors[0].message, "Expected `>` to end closing tag");
    assert_eq!(CloseTagSawWhite.next(&mut sax, '>'), ID::Text);
    assert!(sax.closed_root);
}

#[test]
fn what_cannot_be_in_a_closing_tag_is_reported() {
    let mut sax = lenient();
    assert_eq!(CloseTag.next(&mut sax, '1'), ID::CloseTag);
    assert_eq!(sax.errors[0].message, "Expected a valid starting tag name character");
    assert_eq!(feed(&mut sax, ID::CloseTag, "a1"), ID::CloseTag);
    assert_eq!(sax.tag_name, "a1");
    assert_eq!(CloseTag.next(&mut sax, '!'), ID::CloseTag);
    assert_eq!(sax.errors[1].message, "Expected a valid tag name character");
}

#[test]
fn a_declaration_becomes_a_child() {
    let mut sax = lenient();
    assert_eq!(feed(&mut sax, ID::SGMLDeclaration, "ENTITY a \"b>c\" 'd'>"), ID::Text);
    assert!(matches!(&sax.root[..], [Child::SGMLDeclaration { value }] if value == "ENTITY a \"b>c 'd"));
    assert_eq!(sax.sgml_declaration, "");
    assert_eq!(sax.quote, None);
}

#[test]
fn a_quote_opens_a_quoted_text() {
    let mut sax = lenient();
    assert_eq!(SGMLDeclaration.next(&mut sax, '\''), ID::SGMLDeclarationQuoted);
    assert_eq!(sax.quote, Some('\''));
    assert_eq!(SGMLDeclarationQuoted.next(&mut sax, '"'), ID::SGMLDeclarationQuoted);
    assert_eq!(SGMLDeclarationQuoted.next(&mut sax, '\''), ID::SGMLDeclaration);
    assert_eq!(sax.quote, None);
    assert_eq!(sax.sgml_declaration, "'\"");
}

#[test]
fn a_declaration_turns_into_a_section_a_comment_or_the_doctype() {
    let mut sax = lenient();
    sax.cdata = String::from("old");
    assert_eq!(feed(&mut sax, ID::SGMLDeclaration, "[cdata[a"), ID::CData);
    assert_eq!(sax.sgml_declaration, "");
    // the character that the section starts with was read for nothing
    assert_eq!(sax.cdata, "");
    let mut sax = lenient();
    assert_eq!(feed(&mut sax, ID::SGMLDeclaration, "--"), ID::Comment);
    assert_eq!(sax.comment, "");
    let mut sax = lenient();
    assert_eq!(feed(&mut sax, ID::SGMLDeclaration, "doctype "), ID::Doctype);
    assert_eq!(sax.doctype, "");
    assert!(sax.errors.is_empty());
    let mut sax = lenient();
    sax.saw_root = true;
    assert_eq!(feed(&mut sax, ID::SGMLDeclaration, "DOCTYPE "), ID::Doctype);
    assert_eq!(sax.errors[0].message, "Doctype should only be declared before root");
}

#[test]
fn a_section_of_character_data_becomes_a_child() {
    let mut sax = open(&["svg"]);
    assert_eq!(feed(&mut sax, ID::CData, "a]b]]c]]]>"), ID::Text);
    assert!(matches!(&sax.elements[0].children[..], [Child::CData { value }] if value == "a]b]]c]"));
    assert_eq!(sax.cdata, "");
    assert_eq!(CData.next(&mut sax, ']'), ID::CDataEnding);
    assert_eq!(CDataEnding.next(&mut sax, ']'), ID::CDataEnded);
    assert_eq!(CDataEnded.next(&mut sax, ']'), ID::CDataEnded);
    assert_eq!(CDataEnded.next(&mut sax, 'x'), ID::CData);
    assert_eq!(sax.cdata, "]]]x");
}

#[test]
fn a_comment_becomes_a_child() {
    let mut sax = lenient();
    assert_eq!(feed(&mut sax, ID::Comment, " a-b --c -->"), ID::Text);
    assert!(matches!(&sax.root[..], [Child::Comment { value }] if value == " a-b --c "));
    assert!(sax.errors.is_empty());
    assert_eq!(Comment.next(&mut sax, '-'), ID::CommentEnding);
    assert_eq!(CommentEnding.next(&mut sax, 'x'), ID::Comment);
    assert_eq!(sax.comment, "-x");
}

#[test]
fn two_dashes_inside_a_comment_are_reported_to_the_strict() {
    let mut sax = strict();
    assert_eq!(feed(&mut sax, ID::Comment, "a--b"), ID::Comment);
    assert_eq!(sax.comment, "a--b");
    assert_eq!(sax.errors.len(), 1);
    assert_eq!(sax.errors[0].message, "`--` in comments should be avoided");
    // the position is that before the character after the dashes
    assert_eq!(sax.errors[0].span, (2, 4));
}

#[test]
fn the_document_type_becomes_a_child() {
    let mut sax = lenient();
    assert_eq!(feed(&mut sax, ID::Doctype, " svg \"a>b\" [<!ENTITY x ']>'>] >"), ID::Text);
    assert!(matches!(&sax.root[..], [Child::Doctype { data }] if data == " svg \"a>b\" [<!ENTITY x ']>'>] "));
    assert_eq!(sax.doctype, "");
    assert!(sax.errors.is_empty());
    assert_eq!(Doctype.next(&mut sax, '['), ID::DoctypeDTD);
    assert_eq!(DoctypeDTD.next(&mut sax, '"'), ID::DoctypeDTDQuoted);
    assert_eq!(DoctypeDTDQuoted.next(&mut sax, '\''), ID::DoctypeDTDQuoted);
    assert_eq!(DoctypeDTDQuoted.next(&mut sax, '"'), ID::DoctypeDTD);
    assert_eq!(DoctypeDTD.next(&mut sax, ']'), ID::Doctype);
    assert_eq!(Doctype.next(&mut sax, '\''), ID::DoctypeQuoted);
    assert_eq!(DoctypeQuoted.next(&mut sax, '\''), ID::Doctype);
    assert_eq!(sax.doctype, "[\"'\"]''");
}

#[test]
fn a_document_type_inside_a_tag_is_reported() {
    let mut sax = open(&["svg"]);
    sax.tag = Parent::Element(0);
    assert_eq!(feed(&mut sax, ID::Doctype, "x>"), ID::Text);
    assert_eq!(sax.errors[0].message, "Doctype is only allowed in the root");
    assert!(matches!(&sax.elements[0].children[..], [Child::Doctype { data }] if data == "x"));
}

#[test]
fn a_child_goes_below_the_innermost_open_element() {
    let mut sax = open(&["svg", "g"]);
    sax.add_child(Child::Comment { value: String::from("a") });
    assert!(sax.root.is_empty());
    assert!(sax.elements[0].children.is_empty());
    assert!(matches!(&sax.elements[1].children[..], [Child::Comment { value }] if value == "a"));
    let mut sax = lenient();
    sax.add_child(Child::Comment { value: String::from("a") });
    assert_eq!(sax.root.len(), 1);
    assert_eq!(sax.get_options(), Options { strict: false, xmlns: false });
}

#[test]
fn the_indices_of_a_state_are_checked() {
    assert!(lenient().is_wf());
    assert!(open(&["svg", "g"]).is_wf());
    let mut sax = open(&["svg"]);
    sax.tags.push(5);
    assert!(!sax.is_wf());
    let mut sax = open(&["svg"]);
    sax.tag = Parent::Element(1);
    assert!(!sax.is_wf());
    sax.tag = Parent::Element(0);
    assert!(sax.is_wf());
}

#[test]
fn a_tag_has_no_attribute_twice() {
    let mut sax = lenient();
    sax.set_attribute(String::from("id"), String::from("a"));
    sax.set_attribute(String::from("class"), String::from("b"));
    sax.set_attribute(String::from("id"), String::from("c"));
    assert_eq!(
        sax.attribute_map,
        vec![(String::from("id"), String::from("c")), (String::from("class"), String::from("b"))]
    );
    assert!(sax.is_wf());
    // names differ by case
    sax.set_attribute(String::from("ID"), String::from("d"));
    assert_eq!(sax.attribute_map.len(), 3);
    assert!(sax.is_wf());
    sax.attribute_map.push((String::from("class"), String::from("e")));
    assert!(!sax.is_wf());
    sax.attribute_map.pop();
    assert!(sax.is_wf());
    let mut twice = element("g");
    twice.attributes.push((String::from("x"), String::from("1")));
    twice.attributes.push((String::from("y"), String::from("2")));
    sax.elements.push(twice);
    assert!(sax.is_wf());
    sax.elements[0].attributes.push((String::from("x"), String::from("3")));
    assert!(!sax.is_wf());
}

#[test]
fn the_attributes_read_go_to_the_element_opened() {
    let mut sax = lenient();
    sax.elements.push(element(""));
    sax.tag = Parent::Element(0);
    sax.tag_name = String::from("rect");
    sax.set_attribute(String::from("x"), String::from("1"));
    sax.set_attribute(String::from("x"), String::from("2"));
    sax.set_attribute(String::from("y"), String::from("3"));
    assert_eq!(OpenTag::handle_end(&mut sax, false), ID::Text);
    assert_eq!(
        sax.elements[0].attributes,
        vec![(String::from("x"), String::from("2")), (String::from("y"), String::from("3"))]
    );
    assert!(sax.attribute_map.is_empty());
    assert!(sax.is_wf());
}

#[test]
fn the_innermost_open_element_of_a_name_is_found() {
    let open = |names: &[(&str, bool)]| {
        names.iter().map(|(name, closing)| (String::from(*name), *closing)).collect::<Vec<_>>()
    };
    let tags = open(&[("svg", false), ("g", false), ("path", true), ("g", false), ("g", true)]);
    assert_eq!(oxvg::state::tags::find_open(&tags, "g"), Some(3));
    assert_eq!(oxvg::state::tags::find_open(&tags, "svg"), Some(0));
    // a self-closing element is passed over
    assert_eq!(oxvg::state::tags::find_open(&tags, "path"), None);
    // the names are compared as they are
    assert_eq!(oxvg::state::tags::find_open(&tags, "G"), None);
    assert_eq!(oxvg::state::tags::find_open(&tags, ""), None);
    assert_eq!(oxvg::state::tags::find_open(&open(&[]), "g"), None);
}
