use vstd::prelude::*;

use crate::settings::Settings;

verus! {

/// The library of presets: the settings instances loaded from the preset
/// directory, in discovery order.  Names need not be unique; order carries
/// no meaning beyond stable display.
pub struct SettingsCollection {
    pub settings: Vec<Settings>,
}

impl SettingsCollection {
    /// Every member is well formed.
    pub open spec fn wf(self) -> bool {
        forall|i: int| 0 <= i < self.settings@.len() ==> (#[trigger] self.settings@[i]).wf()
    }

    /// An empty collection: the state before any preset was loaded, and the
    /// state a missing preset directory loads to.
    pub fn new() -> (r: SettingsCollection)
        ensures
            r.settings@.len() == 0,
            r.wf(),
    {
        SettingsCollection { settings: Vec::new() }
    }

    /// Appends one preset.  During an export this must run only after the
    /// preset's text reached durable storage: a failed write must leave the
    /// collection unchanged.
    pub fn append(&mut self, s: Settings)
        ensures
            final(self).settings@ == old(self).settings@.push(s),
            old(self).wf() && s.wf() ==> final(self).wf(),
    {
        self.settings.push(s);
        proof {
            if old(self).wf() && s.wf() {
                assert forall|i: int|
                    0 <= i < self.settings@.len() implies (#[trigger] self.settings@[i]).wf() by {
                    if i < old(self).settings@.len() {
                        assert(self.settings@[i] == old(self).settings@[i]);
                    }
                }
            }
        }
    }

    /// Drops every member: a reload of the preset directory starts from this.
    pub fn clear(&mut self)
        ensures
            final(self).settings@.len() == 0,
            final(self).wf(),
    {
        self.settings.clear();
    }
}

} // verus!
