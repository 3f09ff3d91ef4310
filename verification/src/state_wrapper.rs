//! Read-only access to a component's state together with the app settings.

use vstd::prelude::*;

use crate::settings::Settings;

verus! {

/// Immutable reference wrapper for component state: carries the app-level
/// settings along with read-only access to the state.
#[derive(Debug)]
pub struct StateRef<'a, T> {
    state: &'a T,
    settings: &'a Settings,
}

impl<'a, T> StateRef<'a, T> {
    /// The wrapped state.
    pub closed spec fn spec_state(&self) -> &'a T {
        self.state
    }

    /// The carried settings.
    pub closed spec fn spec_settings(&self) -> &'a Settings {
        self.settings
    }

    /// Create a new immutable state wrapper.
    pub fn new(state: &'a T, settings: &'a Settings) -> (res: Self)
        ensures
            res.spec_state() == state,
            res.spec_settings() == settings,
    {
        StateRef { state, settings }
    }

    /// Access the wrapped state for as long as it was lent.
    pub fn state(&self) -> (res: &'a T)
        ensures
            res == self.spec_state(),
    {
        self.state
    }

    /// Access the app-level settings.
    pub fn settings(&self) -> (res: &'a Settings)
        ensures
            res == self.spec_settings(),
    {
        self.settings
    }

    /// Map to a different state type while retaining settings.
    pub fn map<U, F: FnOnce(&'a T) -> &'a U>(&self, f: F) -> (res: StateRef<'a, U>)
        requires
            call_requires(f, (self.spec_state(),)),
        ensures
            call_ensures(f, (self.spec_state(),), res.spec_state()),
            res.spec_settings() == self.spec_settings(),
    {
        StateRef { state: f(self.state), settings: self.settings }
    }

    /// Map with a closure that borrows the wrapper (shorter lifetime).
    pub fn map_ref<'b, U, F: FnOnce(&'b T) -> &'b U>(&'b self, f: F) -> (res: StateRef<'b, U>)
        requires
            call_requires(f, (self.spec_state(),)),
        ensures
            call_ensures(f, (self.spec_state(),), res.spec_state()),
            res.spec_settings() == self.spec_settings(),
    {
        StateRef { state: f(self.state), settings: self.settings }
    }
}

impl<T> Clone for StateRef<'_, T> {
    fn clone(&self) -> (res: Self)
        ensures
            res == *self,
    {
        *self
    }
}

impl<T> std::ops::Deref for StateRef<'_, T> {
    type Target = T;

    /// The wrapped state.
    fn deref(&self) -> (res: &T)
        ensures
            res == self.spec_state(),
    {
        self.state
    }
}

impl<T> Copy for StateRef<'_, T> {

}

} // verus!
