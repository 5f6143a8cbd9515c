//! Core data model of an INI-style settings manager: key/value pairs grouped
//! into named sections, sections grouped into named settings files, and a
//! collection of such files acting as a library of presets.  Every level
//! carries a selection flag; selection-based subset copies, merges, removals
//! and the text codec are specified and verified here.  File and directory
//! access, clipboard and window chrome live outside this crate.

pub mod codec;
pub mod collection;
pub mod filtering;
pub mod keyed;
pub mod pair;
pub mod section;
pub mod settings;

pub use codec::LoadError;
pub use collection::SettingsCollection;
pub use pair::SettingsPair;
pub use section::SettingsSection;
pub use settings::Settings;
