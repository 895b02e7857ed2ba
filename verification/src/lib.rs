//! Style sheet registration and delivery.
//!
//! Modules declare style units; a registry collects them; a delivery mode
//! decides how the collected units reach the page: as files referenced by
//! links, as one inline style block, or not at all.

pub mod delivery;
pub mod grouping;
pub mod names;
pub mod registry;
pub mod style_sheet;

pub use delivery::{generate_style_sheets, Rendered, StyleSheets, DEFAULT_BASE_URL};
pub use grouping::Group;
pub use registry::{DeliveryMode, Registry};
pub use style_sheet::{StyleSheet, StyleUnit};
