//! Open documents and the list of tabs that shows them.
use vstd::prelude::*;
use std::path::PathBuf;
use crate::editor::{Editor, EditorV};
use crate::project::file_name_of;
use crate::text::{parse, serialize_lines};

verus! {

/// Relies on `PartialEq` for `PathBuf`: whether two paths are equal
/// component by component, which depends on the platform; nothing more is
/// stated.
#[verifier::external_body]
fn paths_equal(a: &PathBuf, b: &PathBuf) -> (r: bool) {
    a == b
}

/// One open document and the file it came from, if any.
pub struct Tab {
    pub file_path: Option<PathBuf>,
    pub editor: Editor,
}

impl Tab {
    /// An empty document with no file.
    pub fn new() -> (r: Tab)
        ensures
            r.file_path.is_none(),
            r.editor.wf(),
            r.editor@.lines.len() == 1,
            r.editor@.lines[0].text.len() == 0,
    {
        Tab { file_path: None, editor: Editor::new() }
    }

    /// Shows the text `text` read from `file_path`.
    pub fn open_file(&mut self, file_path: PathBuf, text: &str)
        requires
            old(self).editor.wf(),
        ensures
            final(self).editor.wf(),
            final(self).file_path == Some(file_path),
            final(self).editor@.lines == parse(text@),
            final(self).editor@.cursor == (crate::text::Cursor { line: 0, index: 0 }),
            final(self).editor@.anchor.is_none(),
            final(self).editor@.open.is_none(),
            final(self).editor@.undo.len() == 0,
            final(self).editor@.redo.len() == 0,
    {
        self.editor.load_text(text);
        self.file_path = Some(file_path);
    }

    /// What saving writes: the document's text, if the tab has a file.
    pub fn save_text(&self) -> (r: Option<String>)
        ensures
            match r {
                Some(t) => self.file_path.is_some() && t@ == serialize_lines(self.editor@.lines),
                None => self.file_path.is_none(),
            },
    {
        match &self.file_path {
            Some(_) => Some(self.editor.serialize()),
            None => None,
        }
    }

    /// The tab's title: the file's name, or "New Tab" for a document with
    /// no file.
    pub fn get_name(&self) -> (r: String)
        ensures
            self.file_path.is_none() ==> r@ == "New Tab"@,
    {
        match &self.file_path {
            Some(p) => match file_name_of(p) {
                Some(n) => n,
                None => String::new(),
            },
            None => String::from_str("New Tab"),
        }
    }
}

/// The open tabs and the one shown.
pub struct TabView {
    active: Option<usize>,
    tabs: Vec<Tab>,
}

/// The shown tab after removing tab `index` from `len` tabs: a tab after the
/// removed one stays shown, the removed or a later shown tab moves one
/// left, and removing the first shown tab shows the new first one.
pub open spec fn active_after_remove(active: Option<usize>, index: nat, len: nat) -> Option<usize> {
    match active {
        None => None,
        Some(a) => if a < index {
            Some(a)
        } else if a > 0 {
            Some((a - 1) as usize)
        } else if len > 1 {
            Some(0)
        } else {
            None
        },
    }
}

impl TabView {
    pub closed spec fn active_view(&self) -> Option<usize> {
        self.active
    }

    pub closed spec fn tabs_view(&self) -> Seq<Tab> {
        self.tabs@
    }

    /// The shown tab exists.
    pub open spec fn wf(&self) -> bool {
        match self.active_view() {
            Some(a) => a < self.tabs_view().len(),
            None => true,
        }
    }

    pub fn new() -> (r: TabView)
        ensures
            r.wf(),
            r.active_view().is_none(),
            r.tabs_view().len() == 0,
    {
        TabView { active: None, tabs: Vec::new() }
    }

    /// Adds `tab` after the others and returns its index.
    pub fn insert(&mut self, tab: Tab) -> (r: usize)
        requires
            old(self).wf(),
        ensures
            final(self).wf(),
            final(self).tabs_view() == old(self).tabs_view().push(tab),
            final(self).active_view() == old(self).active_view(),
            r == old(self).tabs_view().len(),
    {
        self.tabs.push(tab);
        assert(self.tabs@[self.tabs@.len() - 1] == tab);
        self.tabs.len() - 1
    }

    /// Closes tab `index`, if it exists; see `active_after_remove` for the
    /// tab shown next.
    pub fn remove(&mut self, index: usize)
        requires
            old(self).wf(),
        ensures
            final(self).wf(),
            index < old(self).tabs_view().len() ==> {
                &&& final(self).tabs_view() == old(self).tabs_view().remove(index as int)
                &&& final(self).active_view() == active_after_remove(
                    old(self).active_view(),
                    index as nat,
                    old(self).tabs_view().len(),
                )
            },
            index >= old(self).tabs_view().len() ==> final(self).tabs_view() == old(
                self,
            ).tabs_view() && final(self).active_view() == old(self).active_view(),
    {
        if index >= self.tabs.len() {
            return;
        }
        self.tabs.remove(index);
        let last_active = match self.active {
            Some(active) => {
                if active >= index {
                    active
                } else {
                    return;
                }
            },
            None => {
                return;
            },
        };
        if last_active > 0 {
            self.active = Some(last_active - 1);
        } else {
            if self.tabs.len() > 0 {
                self.active = Some(0);
            } else {
                self.active = None;
            }
        }
    }

    /// Shows tab `index`, if it exists.
    pub fn activate(&mut self, index: usize)
        requires
            old(self).wf(),
        ensures
            final(self).wf(),
            final(self).tabs_view() == old(self).tabs_view(),
            final(self).active_view() == if index < old(self).tabs_view().len() {
                Some(index)
            } else {
                old(self).active_view()
            },
    {
        if index < self.tabs.len() {
            self.active = Some(index);
        }
    }

    pub fn active(&self) -> (r: Option<usize>)
        ensures
            r == self.active_view(),
    {
        self.active
    }

    pub fn len(&self) -> (r: usize)
        ensures
            r == self.tabs_view().len(),
    {
        self.tabs.len()
    }

    pub fn tab(&self, index: usize) -> (r: Option<&Tab>)
        ensures
            match r {
                Some(t) => index < self.tabs_view().len() && *t == self.tabs_view()[index as int],
                None => index >= self.tabs_view().len(),
            },
    {
        if index < self.tabs.len() {
            Some(&self.tabs[index])
        } else {
            None
        }
    }

    pub fn tab_mut(&mut self, index: usize) -> (r: Option<&mut Tab>)
        ensures
            final(self).active_view() == old(self).active_view(),
            match r {
                Some(t) => {
                    &&& index < old(self).tabs_view().len()
                    &&& *t == old(self).tabs_view()[index as int]
                    &&& final(self).tabs_view() == old(self).tabs_view().update(index as int, *final(t))
                },
                None => index >= old(self).tabs_view().len() && final(self).tabs_view() == old(
                    self,
                ).tabs_view(),
            },
    {
        if index < self.tabs.len() {
            Some(&mut self.tabs[index])
        } else {
            None
        }
    }

    /// The first tab showing the file `path`.
    pub fn position(&self, path: &PathBuf) -> (r: Option<usize>)
        ensures
            match r {
                Some(i) => i < self.tabs_view().len() && self.tabs_view()[i as int].file_path.is_some(),
                None => true,
            },
    {
        let mut i: usize = 0;
        while i < self.tabs.len()
            invariant
                i <= self.tabs@.len(),
            decreases self.tabs.len() - i,
        {
            match &self.tabs[i].file_path {
                Some(p) => {
                    if paths_equal(p, path) {
                        return Some(i);
                    }
                },
                None => {},
            }
            i = i + 1;
        }
        None
    }
}

} // verus!
