//! Named actions resolved from raw keyboard and mouse state.
//!
//! A [`Binding`] is a chord of [`Key`]s with a trigger mode; a [`UserInput`]
//! holds the registered `(name, binding)` entries and the set of action names
//! whose binding matched on the last update. A [`Bindings`] type supplies the
//! default entries of a control scheme.

pub mod binding;
pub mod bindings;
pub mod canon;
pub mod device;
pub mod key;
pub mod name_set;
pub mod user_input;

pub use binding::Binding;
pub use bindings::Bindings;
pub use key::{Device, Key, Keys, C};
pub use user_input::UserInput;
