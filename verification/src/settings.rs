//! User settings that survive between sessions.  Reading and writing the
//! settings file is done by the program; the library holds the values.
use vstd::prelude::*;

verus! {

/// Persistent user settings.
pub struct Settings {
    /// The model chosen last, if any.
    pub model: Option<String>,
}

impl Default for Settings {
    fn default() -> (s: Self)
        ensures
            s.model is None,
    {
        Settings { model: None }
    }
}

impl Settings {
    /// Make `model` the saved model; nothing else changes.
    pub fn set_model(&mut self, model: &str)
        ensures
            final(self).model matches Some(m) && m@ == model@,
    {
        self.model = Some(model.to_string());
    }
}

} // verus!
