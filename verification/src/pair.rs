use vstd::prelude::*;

verus! {

/// One `key=value` entry of a settings section, together with the
/// session-local selection flag.  The key is the pair's identity for every
/// merge operation; the flag is never serialized.
pub struct SettingsPair {
    pub key: String,
    pub value: String,
    pub is_selected: bool,
}

impl SettingsPair {
    /// A fresh pair starts unselected.
    pub fn new(key: String, value: String) -> (r: SettingsPair)
        ensures
            r.key@ == key@,
            r.value@ == value@,
            !r.is_selected,
    {
        SettingsPair { key, value, is_selected: false }
    }
}

impl Clone for SettingsPair {
    fn clone(&self) -> (r: Self)
        ensures
            r == *self,
    {
        SettingsPair { key: self.key.clone(), value: self.value.clone(), is_selected: self.is_selected }
    }
}

} // verus!
