//! Delivery of the registered style sheets.
//!
//! A registry built for server delivery is flushed to files once, and
//! rendered as one link for each file. A registry built for client delivery
//! is rendered as one inline style block. A registry built for no delivery
//! yields neither files nor markup.

use vstd::prelude::*;

use crate::grouping::{
    concat_groups, file_names, group_units, groups_of, inline_text, lemma_file_names_distinct,
    lemma_file_names_push, list_files, Group, GroupView,
};
use crate::names::{lemma_link_address_injective, link_address, link_href};
use crate::registry::{registered, DeliveryMode, Registry};
use crate::style_sheet::{StyleSheet, StyleUnit};

verus! {

/// The base URL below which the style sheet files are linked, where the
/// caller names none.
pub const DEFAULT_BASE_URL: &'static str = "pkg";

/// The mathematical value of what a registry renders to.
pub enum RenderedView {
    /// No markup.
    Nothing,
    /// One style sheet link for each address, in this order.
    Links(Seq<Seq<char>>),
    /// One style block with this text.
    Inline(Seq<char>),
}

/// What a registry renders to: the markup that takes the style sheets into
/// a page.
#[derive(Debug)]
pub enum Rendered {
    /// No markup.
    Nothing,
    /// One style sheet link for each address, in this order.
    Links(Vec<String>),
    /// One style block with this text.
    Inline(String),
}

impl View for Rendered {
    type V = RenderedView;

    open spec fn view(&self) -> RenderedView {
        match self {
            Rendered::Nothing => RenderedView::Nothing,
            Rendered::Links(addresses) => RenderedView::Links(addresses.deep_view()),
            Rendered::Inline(text) => RenderedView::Inline(text@),
        }
    }
}

/// The addresses of the files of `units` below `base_url`: one for each
/// canonical name, in the order of the names' first occurrence.
pub open spec fn link_addresses(base_url: Seq<char>, units: Seq<StyleUnit>) -> Seq<Seq<char>> {
    Seq::new(file_names(units).len(), |j: int| link_address(base_url, file_names(units)[j]))
}

/// What a registry of mode `mode` that holds `units` renders to.
pub open spec fn rendered(mode: DeliveryMode, base_url: Seq<char>, units: Seq<StyleUnit>)
    -> RenderedView {
    match mode {
        DeliveryMode::Inert => RenderedView::Nothing,
        DeliveryMode::Server => RenderedView::Links(link_addresses(base_url, units)),
        DeliveryMode::Client => RenderedView::Inline(inline_text(units)),
    }
}

/// The files that a registry of mode `mode` that holds `units` is flushed
/// to: the groups of the units under server delivery, none otherwise.
pub open spec fn flushed(mode: DeliveryMode, units: Seq<StyleUnit>) -> Seq<GroupView> {
    match mode {
        DeliveryMode::Server => groups_of(units),
        _ => Seq::empty(),
    }
}

/// There is one link for each canonical file name, and no two links have
/// the same address.
pub proof fn lemma_one_link_per_file(base_url: Seq<char>, units: Seq<StyleUnit>)
    ensures
        link_addresses(base_url, units).len() == file_names(units).len(),
        link_addresses(base_url, units).no_duplicates(),
{
    let links = link_addresses(base_url, units);
    lemma_file_names_distinct(units);
    assert forall|j: int, k: int|
        0 <= j < links.len() && 0 <= k < links.len() && j != k implies links[j] != links[k] by {
        if links[j] == links[k] {
            lemma_link_address_injective(base_url, file_names(units)[j], file_names(units)[k]);
        }
    }
}

/// Two units of one canonical name are rendered as one link.
pub proof fn lemma_same_file_one_link(base_url: Seq<char>, first: StyleUnit, second: StyleUnit)
    requires
        first.file() == second.file(),
    ensures
        link_addresses(base_url, seq![first, second]) == seq![
            link_address(base_url, first.file()),
        ],
{
    let none = Seq::<StyleUnit>::empty();
    lemma_file_names_push(none, first);
    lemma_file_names_push(none.push(first), second);
    assert(seq![first, second] =~= none.push(first).push(second));
    assert(file_names(none.push(first))[0] == first.file());
    assert(link_addresses(base_url, seq![first, second]) =~= seq![
        link_address(base_url, first.file()),
    ]);
}

/// Where nothing is delivered, nothing comes out: the registry keeps no
/// content, is rendered as no markup and is flushed to no file.
pub proof fn lemma_inert_delivers_nothing(base_url: Seq<char>, declared: Seq<StyleUnit>)
    ensures
        forall|i: int|
            0 <= i < declared.len() ==> (#[trigger] registered(DeliveryMode::Inert, declared)[i]).content
                is None,
        rendered(DeliveryMode::Inert, base_url, registered(DeliveryMode::Inert, declared))
            == RenderedView::Nothing,
        flushed(DeliveryMode::Inert, registered(DeliveryMode::Inert, declared)).len() == 0,
{
}

/// Renders the style sheets as link addresses below `base_url`, one for
/// each canonical file name.
pub fn render_links(sheets: &Vec<StyleSheet>, base_url: &str) -> (addresses: Vec<String>)
    ensures
        addresses.deep_view() == link_addresses(base_url@, sheets.deep_view()),
{
    let names = list_files(sheets);
    let mut addresses: Vec<String> = Vec::new();
    let mut j: usize = 0;
    while j < names.len()
        invariant
            j <= names.len(),
            names.deep_view() == file_names(sheets.deep_view()),
            addresses.len() == j,
            forall|k: int|
                0 <= k < j ==> (#[trigger] addresses[k])@ == link_address(
                    base_url@,
                    file_names(sheets.deep_view())[k],
                ),
        decreases names.len() - j,
    {
        proof {
            assert(names.deep_view()[j as int] == names[j as int]@);
        }
        addresses.push(link_href(base_url, names[j].as_str()));
        j += 1;
    }
    proof {
        assert(addresses.deep_view() =~= link_addresses(base_url@, sheets.deep_view()));
    }
    addresses
}

/// Renders the style sheets as the text of one style block: the merged
/// content of every group, group after group.
pub fn render_inline(sheets: &Vec<StyleSheet>) -> (text: String)
    ensures
        text@ == inline_text(sheets.deep_view()),
{
    let groups = group_units(sheets);
    concat_groups(&groups)
}

/// Renders the registry for its delivery mode: as links below `base_url`
/// under server delivery, as one style block under client delivery, as
/// nothing where nothing is delivered.
#[allow(non_snake_case)]
pub fn StyleSheets(registry: &Registry, base_url: &str) -> (markup: Rendered)
    ensures
        markup@ == rendered(registry.mode(), base_url@, registry@),
{
    match registry.mode() {
        DeliveryMode::Inert => Rendered::Nothing,
        DeliveryMode::Server => Rendered::Links(render_links(registry.all(), base_url)),
        DeliveryMode::Client => Rendered::Inline(render_inline(registry.all())),
    }
}

/// Generates the style sheet files of a registry: under server delivery one
/// file for each canonical name, holding the merged content of its group;
/// otherwise none. Writing them is left to the caller.
pub fn generate_style_sheets(registry: &Registry) -> (files: Vec<Group>)
    ensures
        files.deep_view() == flushed(registry.mode(), registry@),
{
    match registry.mode() {
        DeliveryMode::Server => group_units(registry.all()),
        _ => {
            let files: Vec<Group> = Vec::new();
            proof {
                assert(files.deep_view() =~= Seq::<GroupView>::empty());
            }
            files
        },
    }
}

} // verus!
