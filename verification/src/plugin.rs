//! What every plugin tells about itself.
use vstd::prelude::*;

verus! {

/// A plugin of the server. Its asynchronous life cycle (start, cleanup,
/// health check) is run by the application around the library.
pub trait Plugin {
    /// The plugin's name.
    fn name(&self) -> &str;

    /// The plugin's version.
    fn version(&self) -> &str;
}

/// A plugin that answers requests for some media.
pub trait MediaHandler: Plugin {
    /// Whether the plugin answers requests for `uri`.
    fn can_handle(&self, uri: &str) -> bool;
}

} // verus!
