//! Cleans up the `enable-background` property, which only filters use.

use vstd::prelude::*;
use crate::jobs::AttributeChange;
use crate::jobs::PrepareOutcome;
use crate::pattern::regex_replace_all;
use crate::pattern::replace_all;
use crate::text::chars_of;
use crate::text::same;
use crate::text::string_of;
use crate::words::split_whitespace;
use crate::words::words;

verus! {

/// The regular expression for a declaration of `enable-background` with
/// the value `new` in a `style` attribute.
pub const ENABLE_BACKGROUND_DECLARATION: &'static str =
    "(^|;)\\s*enable-background\\s*:\\s*new[\\d\\s]*";

/// The name of the attribute that the job reads.
pub const ENABLE_BACKGROUND: &'static str = "enable-background";

/// The name of the attribute that the job removes or sets.
pub const ENABLE_BACKGROUND_LOCALNAME: &'static str = "enable_background";

/// The job that cleans up `enable-background`.
#[derive(Clone, Copy, Debug, PartialEq, Eq, Structural)]
pub struct CleanupEnableBackground {
    /// Whether the document has a `filter` element.
    pub contains_filter: bool,
}

impl Default for CleanupEnableBackground {
    fn default() -> (r: CleanupEnableBackground)
        ensures
            !r.contains_filter,
    {
        CleanupEnableBackground { contains_filter: false }
    }
}

/// The width and the height that a value of `enable-background` names.
#[derive(Debug)]
pub struct EnableBackgroundDimensions {
    pub width: String,
    pub height: String,
}

/// What the job changes on an element.
#[derive(Debug)]
pub struct Cleaned {
    /// The new value of the `style` attribute, if the element has one.
    pub style: Option<String>,
    /// What becomes of the attribute [`ENABLE_BACKGROUND_LOCALNAME`].
    pub enable_background: AttributeChange,
}

/// The value of a `style` attribute without its declarations of
/// `enable-background`.
pub open spec fn cleaned_style(style: Seq<char>) -> Seq<char> {
    match regex_replace_all(ENABLE_BACKGROUND_DECLARATION@, style, Seq::empty()) {
        Some(cleaned) => cleaned,
        None => style,
    }
}

/// The width and the height that the value `attr` names, as its fourth
/// and fifth word, if it has five words.
pub open spec fn dimensions_of(attr: Seq<char>) -> Option<(Seq<char>, Seq<char>)> {
    let parameters = words(attr);
    if parameters.len() == 5 {
        Some((parameters[3], parameters[4]))
    } else {
        None
    }
}

/// Whether the dimensions are those of an element with the attributes
/// `width` and `height`.
pub open spec fn dimensions_match(
    width: Option<&str>,
    height: Option<&str>,
    dimensions: Option<(Seq<char>, Seq<char>)>,
) -> bool {
    match (dimensions, width, height) {
        (Some(d), Some(w), Some(h)) => d.0 == w@ && d.1 == h@,
        _ => false,
    }
}

/// Whether the element named `name` with these attributes loses
/// `enable-background`, in a document with a filter.
pub open spec fn drops(
    name: Seq<char>,
    enable_background: Option<&str>,
    width: Option<&str>,
    height: Option<&str>,
) -> bool {
    &&& enable_background is Some
    &&& dimensions_match(width, height, dimensions_of(enable_background.unwrap()@))
    &&& name == "svg"@
}

/// Whether the element named `name` with these attributes has its
/// `enable-background` cut down to `new`, in a document with a filter.
pub open spec fn shortens(
    name: Seq<char>,
    enable_background: Option<&str>,
    width: Option<&str>,
    height: Option<&str>,
) -> bool {
    &&& enable_background is Some
    &&& dimensions_match(width, height, dimensions_of(enable_background.unwrap()@))
    &&& name != "svg"@
    &&& (name == "mask"@ || name == "pattern"@)
}

impl CleanupEnableBackground {
    /// Prepares for a document; `root` says, if the document has a root
    /// element, whether a `filter` element is below it.
    pub fn prepare(&mut self, root: Option<bool>) -> (r: PrepareOutcome)
        ensures
            r == PrepareOutcome::Proceed,
            final(self).contains_filter == match root {
                Some(found) => found,
                None => old(self).contains_filter,
            },
    {
        match root {
            Some(found) => {
                self.prepare_contains_filter(found);
            },
            None => {},
        }
        PrepareOutcome::Proceed
    }

    /// What the job changes on the element named `name` with the
    /// attributes `style`, `enable-background`, `width` and `height`.
    ///
    /// The declarations of `enable-background` go from the style. Without
    /// a filter in the document the attribute goes. With one, it goes
    /// from an `svg` element and is cut down to `new` on a `mask` or a
    /// `pattern`, where it names the width and the height of the element.
    pub fn run(
        &self,
        name: &str,
        style: Option<&str>,
        enable_background: Option<&str>,
        width: Option<&str>,
        height: Option<&str>,
    ) -> (r: Cleaned)
        ensures
            match (style, r.style) {
                (Some(before), Some(after)) => after@ == cleaned_style(before@),
                (None, None) => true,
                _ => false,
            },
            match r.enable_background {
                AttributeChange::Remove => !self.contains_filter || drops(
                    name@,
                    enable_background,
                    width,
                    height,
                ),
                AttributeChange::Assign(value) => self.contains_filter && value@ == "new"@ && shortens(
                    name@,
                    enable_background,
                    width,
                    height,
                ),
                AttributeChange::Keep => self.contains_filter && !drops(
                    name@,
                    enable_background,
                    width,
                    height,
                ) && !shortens(name@, enable_background, width, height),
            },
    {
        let cleaned = match style {
            Some(before) => Some(
                match replace_all(ENABLE_BACKGROUND_DECLARATION, before, "") {
                    Some(after) => after,
                    None => before.to_owned(),
                },
            ),
            None => None,
        };
        proof {
            reveal_strlit("");
            assert(""@ =~= Seq::<char>::empty());
        }
        if !self.contains_filter {
            return Cleaned { style: cleaned, enable_background: AttributeChange::Remove };
        }
        let value = match enable_background {
            Some(value) => value,
            None => {
                return Cleaned { style: cleaned, enable_background: AttributeChange::Keep };
            },
        };
        let dimensions = Self::get_enabled_background_dimensions(value);
        let matches_dimensions = Self::enabled_background_matches(width, height, dimensions);
        let change = if matches_dimensions && same(name, "svg") {
            AttributeChange::Remove
        } else if matches_dimensions && (same(name, "mask") || same(name, "pattern")) {
            AttributeChange::Assign("new".to_owned())
        } else {
            AttributeChange::Keep
        };
        Cleaned { style: cleaned, enable_background: change }
    }

    /// Notes whether the document has a `filter` element.
    pub fn prepare_contains_filter(&mut self, found: bool)
        ensures
            final(self).contains_filter == found,
    {
        self.contains_filter = found;
    }

    /// The width and the height that the value `attr` of
    /// `enable-background` names: its fourth and fifth word, if it has
    /// five words.
    pub fn get_enabled_background_dimensions(attr: &str) -> (r: Option<EnableBackgroundDimensions>)
        ensures
            match r {
                Some(d) => dimensions_of(attr@) == Some((d.width@, d.height@)),
                None => dimensions_of(attr@) is None,
            },
    {
        let parameters = split_whitespace(&chars_of(attr));
        if parameters.len() != 5 {
            return None;
        }
        Some(
            EnableBackgroundDimensions {
                width: string_of(&parameters[3]),
                height: string_of(&parameters[4]),
            },
        )
    }

    /// Whether the dimensions are those of an element with the attributes
    /// `width` and `height`.
    pub fn enabled_background_matches(
        width: Option<&str>,
        height: Option<&str>,
        dimensions: Option<EnableBackgroundDimensions>,
    ) -> (r: bool)
        ensures
            r == dimensions_match(
                width,
                height,
                match dimensions {
                    Some(d) => Some((d.width@, d.height@)),
                    None => None,
                },
            ),
    {
        let dimensions = match dimensions {
            Some(d) => d,
            None => {
                return false;
            },
        };
        let width = match width {
            Some(w) => w,
            None => {
                return false;
            },
        };
        let height = match height {
            Some(h) => h,
            None => {
                return false;
            },
        };
        same(dimensions.width.as_str(), width) && same(dimensions.height.as_str(), height)
    }
}

} // verus!
