//! User configuration of the engine.

use vstd::prelude::*;

verus! {

/// Where the engine keeps its plugins.
pub struct Config {
    pub plugin_dir: String,
}

impl Config {
    pub fn get_plugin_dir(&self) -> (r: &str)
        ensures
            r@ == self.plugin_dir@,
    {
        self.plugin_dir.as_str()
    }

    /// The stored configuration when there is one, else `default`; the
    /// flag says whether that default is to be saved, which `save` asks.
    pub fn load_or_default(loaded: Option<Config>, default: Config, save: bool) -> (r: (Config, bool))
        ensures
            loaded matches Some(c) ==> r.0 == c && !r.1,
            loaded is None ==> r.0 == default && r.1 == save,
    {
        match loaded {
            Some(c) => (c, false),
            None => (default, save),
        }
    }
}

} // verus!
