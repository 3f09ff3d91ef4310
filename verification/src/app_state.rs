//! Application-level decisions: the open repository tabs and the loading
//! status shown before the first repository is ready.

use vstd::prelude::*;

use crate::worker_error::RefreshError;

verus! {

/// The open repositories, one tab each, and the active one.
#[derive(Debug)]
pub struct RepoTabs<T> {
    items: Vec<T>,
    active: usize,
}

impl<T> RepoTabs<T> {
    /// The open repositories.
    pub closed spec fn spec_items(&self) -> Seq<T> {
        self.items@
    }

    /// The active tab.
    pub closed spec fn spec_active(&self) -> usize {
        self.active
    }

    /// At least one repository is open and the active tab is one of them.
    pub open spec fn wf(&self) -> bool {
        &&& self.spec_items().len() > 0
        &&& self.spec_active() < self.spec_items().len()
    }

    /// A single open repository, active.
    pub fn new(first: T) -> (res: RepoTabs<T>)
        ensures
            res.spec_items() == seq![first],
            res.spec_active() == 0,
            res.wf(),
    {
        let mut items: Vec<T> = Vec::new();
        items.push(first);
        proof {
            assert(items@ =~= seq![first]);
        }
        RepoTabs { items, active: 0 }
    }

    /// The open repositories.
    pub fn items(&self) -> (res: &Vec<T>)
        ensures
            res@ == self.spec_items(),
    {
        &self.items
    }

    /// The index of the active tab.
    pub fn active(&self) -> (res: usize)
        ensures
            res == self.spec_active(),
    {
        self.active
    }

    /// The active repository, when the active tab is open.
    pub fn active_item(&self) -> (res: Option<&T>)
        ensures
            match res {
                Some(t) => self.spec_active() < self.spec_items().len() && *t
                    == self.spec_items()[self.spec_active() as int],
                None => self.spec_active() >= self.spec_items().len(),
            },
    {
        if self.active < self.items.len() {
            Some(&self.items[self.active])
        } else {
            None
        }
    }

    /// The repository of tab `index`, if it is open.
    pub fn get_mut(&mut self, index: usize) -> (res: Option<&mut T>)
        ensures
            final(self).spec_active() == old(self).spec_active(),
            match res {
                Some(t) => index < old(self).spec_items().len() && *t == old(self).spec_items()[index as int] && final(self).spec_items() == old(self).spec_items().update(index as int, *final(t)),
                None => index >= old(self).spec_items().len() && final(self).spec_items() == old(self).spec_items(),
            },
    {
        if index < self.items.len() {
            Some(&mut self.items[index])
        } else {
            None
        }
    }

    /// Makes tab `index` active, when it is open.
    pub fn select(&mut self, index: usize)
        ensures
            final(self).spec_items() == old(self).spec_items(),
            final(self).spec_active() == (if index < old(self).spec_items().len() {
                index
            } else {
                old(self).spec_active()
            }),
            old(self).wf() ==> final(self).wf(),
    {
        if index < self.items.len() {
            self.active = index;
        }
    }

    /// Closes tab `index`, unless it is the last open one. When the active
    /// position falls past the end it moves to the last tab; otherwise it
    /// keeps its number.
    pub fn close(&mut self, index: usize)
        ensures
            old(self).spec_items().len() > 1 && index < old(self).spec_items().len() ==> {
                &&& final(self).spec_items() == old(self).spec_items().remove(index as int)
                &&& final(self).spec_active() == (if old(self).spec_active() >= final(self).spec_items().len() {
                    (final(self).spec_items().len() - 1) as usize
                } else {
                    old(self).spec_active()
                })
            },
            !(old(self).spec_items().len() > 1 && index < old(self).spec_items().len()) ==> {
                &&& final(self).spec_items() == old(self).spec_items()
                &&& final(self).spec_active() == old(self).spec_active()
            },
            old(self).wf() ==> final(self).wf(),
    {
        if self.items.len() > 1 && index < self.items.len() {
            self.items.remove(index);
            if self.active >= self.items.len() {
                self.active = self.items.len() - 1;
            }
        }
    }

    /// Opens a repository in a new tab, which becomes active.
    pub fn open(&mut self, item: T)
        requires
            old(self).spec_items().len() < usize::MAX,
        ensures
            final(self).spec_items() == old(self).spec_items().push(item),
            final(self).spec_active() == old(self).spec_items().len(),
            final(self).wf(),
    {
        let index = self.items.len();
        self.items.push(item);
        self.active = index;
    }
}

/// Whether the tab bar is shown: only when more than one repository is open.
pub fn tab_bar_visible(count: usize) -> (res: bool)
    ensures
        res == (count > 1),
{
    count > 1
}

/// Whether the application is still loading, and the error it shows.
#[derive(Debug)]
pub struct LoadStatus {
    pub loading: bool,
    pub error: Option<String>,
}

impl LoadStatus {
    /// Loading, no error yet.
    pub fn new() -> (res: LoadStatus)
        ensures
            res.loading,
            res.error is None,
    {
        LoadStatus { loading: true, error: None }
    }

    /// A repository finished loading: loading ends, and the error shown is the
    /// message of `failure`, or none.
    pub fn record_load(&mut self, failure: Option<&RefreshError>)
        ensures
            !final(self).loading,
            match failure {
                Some(e) => final(self).error matches Some(m) && m@ == match e {
                    RefreshError::ChannelClosed => crate::worker_error::channel_closed_text(),
                    RefreshError::Jj(t) => t@,
                },
                None => final(self).error is None,
            },
    {
        self.loading = false;
        self.error = match failure {
            Some(e) => Some(e.message()),
            None => None,
        };
    }
}

} // verus!
