//! The style unit descriptor: a logical name and optional compiled CSS text.

use vstd::prelude::*;

use crate::names::canonical_name;

verus! {

/// The mathematical value of a style unit.
pub struct StyleUnit {
    /// The logical name of the style sheet file.
    pub name: Seq<char>,
    /// The compiled CSS text, where the unit carries one.
    pub content: Option<Seq<char>>,
}

impl StyleUnit {
    /// Whether the unit is well formed: its name is not empty.
    pub open spec fn wf(self) -> bool {
        self.name.len() > 0
    }

    /// The canonical name of the file that the unit belongs to.
    pub open spec fn file(self) -> Seq<char> {
        canonical_name(self.name)
    }

    /// The text that the unit adds to its file: its content, or nothing where
    /// it carries none.
    pub open spec fn text(self) -> Seq<char> {
        match self.content {
            Some(text) => text,
            None => Seq::empty(),
        }
    }
}

/// Represents a stylesheet with its name and optional content.
#[derive(Debug, Clone, Copy)]
pub struct StyleSheet {
    /// The name of the stylesheet file
    pub name: &'static str,
    /// The optional content of the stylesheet
    pub content: Option<&'static str>,
}

impl View for StyleSheet {
    type V = StyleUnit;

    open spec fn view(&self) -> StyleUnit {
        StyleUnit {
            name: self.name@,
            content: match self.content {
                Some(text) => Some(text@),
                None => None,
            },
        }
    }
}

impl DeepView for StyleSheet {
    type V = StyleUnit;

    open spec fn deep_view(&self) -> StyleUnit {
        self.view()
    }
}

impl StyleSheet {
    /// Creates a new StyleSheet instance with the given name and content.
    pub fn new(name: &'static str, content: Option<&'static str>) -> (sheet: Self)
        requires
            name@.len() > 0,
        ensures
            sheet.name == name,
            sheet.content == content,
            sheet@.wf(),
    {
        Self { name, content }
    }
}

} // verus!
