//! The registry of style units and the delivery mode that it is built for.
//!
//! A registry is filled while the program is set up and read afterwards. It
//! only grows: one unit at a time, at its end.

use vstd::prelude::*;

use crate::style_sheet::{StyleSheet, StyleUnit};

verus! {

/// How the registered style sheets reach the page.
#[derive(Clone, Copy, Debug, PartialEq, Eq, Structural)]
pub enum DeliveryMode {
    /// Nothing is delivered, and no content is kept.
    Inert,
    /// The content is written to files, and the page links to them.
    Server,
    /// The content is put into the page, as one style block.
    Client,
}

impl DeliveryMode {
    /// Whether units keep their content in this mode.
    pub open spec fn carries_content(self) -> bool {
        self != DeliveryMode::Inert
    }

    /// The mode that a build asks for: client delivery where it is asked
    /// for, else server delivery where that is asked for, else none.
    pub open spec fn selected(server: bool, client: bool) -> DeliveryMode {
        if client {
            DeliveryMode::Client
        } else if server {
            DeliveryMode::Server
        } else {
            DeliveryMode::Inert
        }
    }

    /// Selects the delivery mode of a build from what the build asks for.
    pub fn select(server: bool, client: bool) -> (mode: DeliveryMode)
        ensures
            mode == DeliveryMode::selected(server, client),
    {
        if client {
            DeliveryMode::Client
        } else if server {
            DeliveryMode::Server
        } else {
            DeliveryMode::Inert
        }
    }
}

/// What a registry of mode `mode` keeps of a unit: the unit itself where the
/// mode carries content, its name alone where it does not.
pub open spec fn retained(mode: DeliveryMode, unit: StyleUnit) -> StyleUnit {
    if mode.carries_content() {
        unit
    } else {
        StyleUnit { name: unit.name, content: None }
    }
}

/// What a registry of mode `mode` holds once `declared` has been registered
/// with it, unit by unit.
pub open spec fn registered(mode: DeliveryMode, declared: Seq<StyleUnit>) -> Seq<StyleUnit> {
    Seq::new(declared.len(), |i: int| retained(mode, declared[i]))
}

/// Whether `units` can be what a registry of mode `mode` holds: every unit is
/// well formed, and none has content unless the mode carries content.
pub open spec fn admissible(mode: DeliveryMode, units: Seq<StyleUnit>) -> bool {
    forall|i: int|
        0 <= i < units.len() ==> (#[trigger] units[i]).wf() && (!mode.carries_content()
            ==> units[i].content is None)
}

/// The style units that the modules of a program have declared, in the order
/// of their registration.
pub struct Registry {
    mode: DeliveryMode,
    sheets: Vec<StyleSheet>,
}

impl View for Registry {
    type V = Seq<StyleUnit>;

    closed spec fn view(&self) -> Seq<StyleUnit> {
        self.sheets.deep_view()
    }
}

impl Registry {
    #[verifier::type_invariant]
    spec fn inv(self) -> bool {
        admissible(self.mode, self.sheets.deep_view())
    }

    /// The delivery mode that the registry was made for.
    pub closed spec fn spec_mode(&self) -> DeliveryMode {
        self.mode
    }

    /// Makes an empty registry for the given delivery mode.
    pub fn new(mode: DeliveryMode) -> (registry: Registry)
        ensures
            registry@ == Seq::<StyleUnit>::empty(),
            registry.mode() == mode,
    {
        Registry { mode, sheets: Vec::new() }
    }

    /// The delivery mode that the registry was made for.
    #[verifier::when_used_as_spec(spec_mode)]
    pub fn mode(&self) -> (mode: DeliveryMode)
        ensures
            mode == self.spec_mode(),
    {
        self.mode
    }

    /// Adds a unit at the end of the registry. Its content is kept only
    /// where the registry's mode carries content.
    pub fn register(&mut self, sheet: StyleSheet)
        requires
            sheet@.wf(),
        ensures
            final(self)@ == old(self)@.push(retained(old(self).mode(), sheet@)),
            final(self).mode() == old(self).mode(),
    {
        proof {
            use_type_invariant(&*self);
        }
        let ghost before = self.sheets.deep_view();
        let kept = match self.mode {
            DeliveryMode::Inert => StyleSheet { name: sheet.name, content: None },
            _ => sheet,
        };
        let mut sheets: Vec<StyleSheet> = Vec::new();
        core::mem::swap(&mut self.sheets, &mut sheets);
        sheets.push(kept);
        proof {
            assert(sheets.deep_view() =~= before.push(retained(self.mode, sheet@)));
        }
        core::mem::swap(&mut self.sheets, &mut sheets);
    }

    /// Makes a registry for the given mode and registers the sheets with it,
    /// in their order.
    pub fn collect(mode: DeliveryMode, sheets: Vec<StyleSheet>) -> (registry: Registry)
        requires
            forall|i: int| 0 <= i < sheets.len() ==> (#[trigger] sheets[i])@.wf(),
        ensures
            registry@ == registered(mode, sheets.deep_view()),
            registry.mode() == mode,
    {
        let mut registry = Registry::new(mode);
        let mut i: usize = 0;
        while i < sheets.len()
            invariant
                i <= sheets.len(),
                forall|k: int| 0 <= k < sheets.len() ==> (#[trigger] sheets[k])@.wf(),
                registry.mode() == mode,
                registry@ == registered(mode, sheets.deep_view().take(i as int)),
            decreases sheets.len() - i,
        {
            proof {
                let seen = sheets.deep_view().take(i as int);
                lemma_registered_push(mode, seen, sheets[i as int]@);
                assert(sheets.deep_view().take(i as int + 1) =~= seen.push(sheets[i as int]@));
            }
            registry.register(sheets[i]);
            i += 1;
        }
        proof {
            assert(sheets.deep_view().take(sheets.len() as int) =~= sheets.deep_view());
        }
        registry
    }

    /// Every unit registered so far, in the order of registration.
    pub fn all(&self) -> (sheets: &Vec<StyleSheet>)
        ensures
            sheets.deep_view() == self@,
            admissible(self.mode(), self@),
    {
        proof {
            use_type_invariant(self);
        }
        &self.sheets
    }
}

/// A registry holds one unit for each unit declared, in the order of the
/// declarations and under the declared name. Where the mode carries content
/// it holds the declared units themselves.
pub proof fn lemma_registry_complete(mode: DeliveryMode, declared: Seq<StyleUnit>)
    ensures
        registered(mode, declared).len() == declared.len(),
        forall|i: int|
            0 <= i < declared.len() ==> (#[trigger] registered(mode, declared)[i]).name
                == declared[i].name,
        mode.carries_content() ==> registered(mode, declared) == declared,
{
    if mode.carries_content() {
        assert(registered(mode, declared) =~= declared);
    }
}

/// Registering one unit more extends what the registry holds by what it
/// keeps of that unit.
pub proof fn lemma_registered_push(mode: DeliveryMode, declared: Seq<StyleUnit>, unit: StyleUnit)
    ensures
        registered(mode, declared.push(unit)) == registered(mode, declared).push(
            retained(mode, unit),
        ),
{
    assert(registered(mode, declared.push(unit)) =~= registered(mode, declared).push(
        retained(mode, unit),
    ));
}

} // verus!
