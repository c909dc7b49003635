//! The file-tree panel: the tree plus the rendered text the host editor
//! shows, and the decisions taken when the user activates a line.
//!
//! The host is responsible for the keystroke plumbing and for carrying the
//! returned action out (opening a file, showing the side menu, forwarding a
//! key to the editor); the panel decides what to do and keeps its text in
//! step with the tree.

use vstd::prelude::*;
use crate::fs::FileSystem;
use crate::path::TreePath;
use crate::tree::{
    Node, NodeKind, ScanError, OpenChange, Tree, NodeV, KindV, node_view, visible,
    first_visible_match, join_lines, render_lines, level_of, reveal_spec, refresh_spec,
    toggle_nodes_spec,
};

verus! {

pub struct FileExplorer {
    pub tree: Tree,
    pub text: String,
}

/// The keys the panel handles itself; anything else belongs to the editor.
#[derive(Clone, Copy, PartialEq, Eq, Structural, Debug)]
pub enum ExplorerKey {
    Enter,
    Space,
    Other,
}

/// What the host must carry out after a key was handled.
pub enum ExplorerAction {
    /// The user activated a file: emit the open-this-file intent.
    OpenFile(TreePath),
    /// The user activated a directory: the panel toggled it and re-rendered.
    ToggledDirectory,
    /// The user asked for the side menu, for the node under the cursor.
    ActionMenu(Option<TreePath>),
    /// The key is not the panel's: forward it to the editor.
    Forwarded,
    /// The cursor was on no node: nothing to do.
    Nothing,
}

impl FileExplorer {
    /// The rendered text is exactly the tree's rendering.
    pub open spec fn wf(&self) -> bool {
        self.text@ == join_lines(render_lines(self.tree@, 0, 0))
    }

    /// Builds the panel over one scanned level of `path`.  Fails exactly
    /// when the snapshot has no listing for `path`.
    pub fn new(fs: &FileSystem, path: &TreePath) -> (r: Result<Self, ScanError>)
        ensures
            match r {
                Ok(e) => level_of(fs@, path@) == Some(e.tree@) && e.wf(),
                Err(err) => level_of(fs@, path@) is None && err == ScanError::Unreadable,
            },
    {
        let tree = match Tree::new(fs, path) {
            Ok(t) => t,
            Err(e) => {
                return Err(e);
            },
        };
        let text = tree.render();
        Ok(FileExplorer { tree, text })
    }

    /// Re-renders the tree into the panel text.
    pub fn refresh_editor(&mut self)
        ensures
            final(self).tree == old(self).tree,
            final(self).wf(),
    {
        self.text = self.tree.render();
    }

    /// Force-opens every ancestor of `path` so the entry becomes visible,
    /// re-renders, and returns the line to move the cursor to: the revealed
    /// entry's visible index, if the entry exists.
    pub fn reveal_path(&mut self, fs: &FileSystem, path: &TreePath) -> (r: Option<usize>)
        ensures
            final(self).tree@ == reveal_spec(old(self).tree@, fs@, path@),
            final(self).wf(),
            match first_visible_match(visible(final(self).tree@), path@) {
                Some(i) => r matches Some(u) && u == i,
                None => r is None,
            },
    {
        let mut taken = Tree { nodes: Vec::new() };
        core::mem::swap(&mut self.tree, &mut taken);
        self.tree = taken.reveal_path(fs, path);
        self.text = self.tree.render();
        self.tree.find_index(path)
    }

    /// Re-derives the tree from the snapshot, keeping open what was open.
    /// On failure the panel retains its previous state.
    pub fn refresh(&mut self, fs: &FileSystem, wd: &TreePath) -> (r: Result<(), ScanError>)
        ensures
            match r {
                Ok(u) => refresh_spec(old(self).tree@, fs@, wd@) == Some(final(self).tree@)
                    && final(self).wf(),
                Err(e) => refresh_spec(old(self).tree@, fs@, wd@) is None && *final(self) == *old(
                    self,
                ) && e == ScanError::Unreadable,
            },
    {
        match self.tree.refresh(fs, wd) {
            Ok(t) => {
                self.tree = t;
                self.text = self.tree.render();
                Ok(())
            },
            Err(e) => Err(e),
        }
    }

    /// The node under the cursor line, if the line carries one.
    pub fn get_current_node<'a>(&'a self, cursor_line: usize) -> (r: Option<&'a Node>)
        ensures
            match r {
                Some(n) => cursor_line < visible(self.tree@).len() && node_view(*n) == visible(
                    self.tree@,
                )[cursor_line as int],
                None => cursor_line >= visible(self.tree@).len(),
            },
    {
        self.tree.get(cursor_line)
    }

    /// The panel's decisions on a keystroke, given the cursor line the host
    /// reports: activating a file emits an open intent; activating a
    /// directory flips it and re-renders; the space key requests the side
    /// menu for the node under the cursor; any other key is the editor's.
    pub fn handle_key_event(&mut self, fs: &FileSystem, key: ExplorerKey, cursor_line: usize) -> (r:
        ExplorerAction)
        ensures
            ({
                let vis0 = visible(old(self).tree@);
                let line = cursor_line as int;
                match key {
                    ExplorerKey::Other => r is Forwarded && *final(self) == *old(self),
                    ExplorerKey::Space => *final(self) == *old(self) && (if cursor_line
                        < vis0.len() {
                        r matches ExplorerAction::ActionMenu(p) && p matches Some(q) && q@
                            == vis0[line].path
                    } else {
                        r matches ExplorerAction::ActionMenu(p) && p is None
                    }),
                    ExplorerKey::Enter => {
                        if cursor_line >= vis0.len() {
                            r is Nothing && *final(self) == *old(self)
                        } else if vis0[line].kind is File {
                            r matches ExplorerAction::OpenFile(p) && p@ == vis0[line].path
                                && *final(self) == *old(self)
                        } else {
                            r is ToggledDirectory && final(self).tree@ == toggle_nodes_spec(
                                old(self).tree@,
                                fs@,
                                vis0[line].path,
                                OpenChange::Flip,
                            ) && final(self).wf()
                        }
                    },
                }
            }),
    {
        match key {
            ExplorerKey::Other => ExplorerAction::Forwarded,
            ExplorerKey::Space => {
                match self.tree.get(cursor_line) {
                    Some(n) => ExplorerAction::ActionMenu(Some(n.path.clone())),
                    None => ExplorerAction::ActionMenu(None),
                }
            },
            ExplorerKey::Enter => {
                let target: Option<(TreePath, bool)> = match self.tree.get(cursor_line) {
                    Some(n) => {
                        let is_dir = match &n.kind {
                            NodeKind::Directory { .. } => true,
                            NodeKind::File => false,
                        };
                        Some((n.path.clone(), is_dir))
                    },
                    None => None,
                };
                match target {
                    None => ExplorerAction::Nothing,
                    Some((p, false)) => ExplorerAction::OpenFile(p),
                    Some((p, true)) => {
                        let mut taken = Tree { nodes: Vec::new() };
                        core::mem::swap(&mut self.tree, &mut taken);
                        self.tree = taken.toggle(fs, &p, OpenChange::Flip);
                        self.text = self.tree.render();
                        ExplorerAction::ToggledDirectory
                    },
                }
            },
        }
    }
}

/// Whether `c` counts as white space; what `char::is_whitespace` decides.
pub uninterp spec fn is_whitespace_char(c: char) -> bool;

/// Relies on char::is_whitespace: the result depends on the character alone.
#[verifier::external_body]
fn char_is_whitespace(c: char) -> (r: bool)
    ensures
        r == is_whitespace_char(c),
{
    c.is_whitespace()
}

/// A non-empty token with no white space and no parenthesis.
pub open spec fn valid_lisp_atom(s: Seq<char>) -> bool {
    s.len() > 0 && forall|i: int|
        0 <= i < s.len() ==> !is_whitespace_char(s[i]) && s[i] != '(' && s[i] != ')'
}

pub fn is_valid_lisp_atom(s: &str) -> (r: bool)
    ensures
        r == valid_lisp_atom(s@),
{
    let n = s.unicode_len();
    if n == 0 {
        return false;
    }
    let mut i: usize = 0;
    while i < n
        invariant
            n == s@.len(),
            i <= n,
            forall|m: int|
                0 <= m < i ==> !is_whitespace_char(s@[m]) && s@[m] != '(' && s@[m] != ')',
        decreases n - i,
    {
        let c = s.get_char(i);
        if char_is_whitespace(c) || c == '(' || c == ')' {
            return false;
        }
        i += 1;
    }
    true
}

} // verus!
