//! The editor shell state: a flat registry of panes keyed by identifier, a
//! layout tree referencing those identifiers, and the pane holding focus.
//! The shell interprets the action protocol of the embedding application's
//! handler: continue, close the active pane, or exit.

use crate::buffer::Buffer;
use crate::layout::{
    leaf_panes, lemma_remove_pane_effect, lemma_split_panes_effect, remove_pane, tree_wf, Layout,
    SplitType,
};
use vstd::prelude::*;

verus! {

/// A view onto one buffer: unloaded until a buffer is attached, then bound
/// to that buffer and a view position for the rest of its life.
pub enum Pane {
    Loaded { buffer: Buffer, position: (usize, usize) },
    Unloaded,
}

/// What the embedding application's handler asks after each event.
pub enum Action {
    DoNothing,
    ClosePane,
    Exit,
}

/// The pane bound to the given identifier among the registry entries, if
/// any.
pub open spec fn find_pane(s: Seq<(usize, Pane)>, id: usize) -> Option<Pane>
    decreases s.len(),
{
    if s.len() == 0 {
        None
    } else if s[0].0 == id {
        Some(s[0].1)
    } else {
        find_pane(s.drop_first(), id)
    }
}

/// The identifiers of the registry entries, in order.
pub open spec fn entry_ids(s: Seq<(usize, Pane)>) -> Seq<usize> {
    s.map_values(|e: (usize, Pane)| e.0)
}

/// A lookup succeeds exactly for registered identifiers, and an entry's
/// identifier leads to that entry's pane when identifiers are unique.
pub proof fn lemma_find_pane_index(s: Seq<(usize, Pane)>, id: usize)
    requires
        entry_ids(s).no_duplicates(),
    ensures
        (find_pane(s, id) is Some) <==> entry_ids(s).contains(id),
        forall|i: int| 0 <= i < s.len() && s[i].0 == id ==> find_pane(s, id) == Some(s[i].1),
    decreases s.len(),
{
    let keys = entry_ids(s);
    if s.len() > 0 {
        assert(entry_ids(s.drop_first()) =~= keys.drop_first());
        assert(keys.drop_first().no_duplicates());
        lemma_find_pane_index(s.drop_first(), id);
        assert(keys[0] == s[0].0);
        if s[0].0 == id {
            assert(keys.contains(id)) by {
                assert(keys[0] == id);
            }
            assert forall|i: int| 0 <= i < s.len() && s[i].0 == id implies find_pane(s, id)
                == Some(s[i].1) by {
                if i > 0 {
                    assert(keys[i] == id && keys[0] == id);
                }
            }
        } else {
            assert forall|i: int| 0 <= i < s.len() && s[i].0 == id implies find_pane(s, id)
                == Some(s[i].1) by {
                assert(s.drop_first()[i - 1] == s[i]);
            }
            if keys.contains(id) {
                let i = choose|i: int| 0 <= i < keys.len() && keys[i] == id;
                assert(keys.drop_first()[i - 1] == id);
            }
            if keys.drop_first().contains(id) {
                let i = choose|i: int|
                    0 <= i < keys.drop_first().len() && keys.drop_first()[i] == id;
                assert(keys[i + 1] == id);
            }
        }
    }
}

/// Removing an entry of a duplicate-free identifier sequence removes
/// exactly that identifier.
pub proof fn lemma_ids_remove(s: Seq<usize>, i: int)
    requires
        s.no_duplicates(),
        0 <= i < s.len(),
    ensures
        s.remove(i).no_duplicates(),
        forall|x: usize| s.remove(i).contains(x) <==> (s.contains(x) && x != s[i]),
{
    let r = s.remove(i);
    assert(forall|j: int|
        0 <= j < r.len() ==> r[j] == (if j < i {
            s[j]
        } else {
            s[j + 1]
        }));
    assert forall|x: usize| r.contains(x) implies (s.contains(x) && x != s[i]) by {
        let j = choose|j: int| 0 <= j < r.len() && r[j] == x;
        if j < i {
            assert(s[j] == x);
        } else {
            assert(s[j + 1] == x);
        }
    }
    assert forall|x: usize| s.contains(x) && x != s[i] implies r.contains(x) by {
        let j = choose|j: int| 0 <= j < s.len() && s[j] == x;
        if j < i {
            assert(r[j] == x);
        } else {
            assert(r[j - 1] == x);
        }
    }
}

/// The editor shell state. The registry and the tree reference the same
/// panes: every leaf of the layout is a registered pane, every registered
/// pane stands in exactly one leaf, and the active pane is always a leaf.
pub struct SphinxBox {
    panes: Vec<(usize, Pane)>,
    active_pane: usize,
    layout: Layout,
    next_id: usize,
}

impl SphinxBox {
    /// The identifiers of the registered panes, in registration order.
    pub closed spec fn pane_ids(&self) -> Seq<usize> {
        entry_ids(self.panes@)
    }

    /// The pane registered under the given identifier, if any.
    pub closed spec fn pane(&self, id: usize) -> Option<Pane> {
        find_pane(self.panes@, id)
    }

    /// The identifiers of the layout's leaves, left to right.
    pub closed spec fn leaves(&self) -> Seq<usize> {
        leaf_panes(self.layout)
    }

    /// The pane holding focus.
    pub closed spec fn active(&self) -> usize {
        self.active_pane
    }

    /// The identifier the next split will hand out.
    pub closed spec fn next_pane_id(&self) -> usize {
        self.next_id
    }

    /// The shell invariant: a well-formed tree whose leaves are exactly the
    /// registered panes, each in one leaf, with the focus on a leaf and all
    /// identifiers below the allocation bound.
    pub closed spec fn inv(&self) -> bool {
        &&& tree_wf(self.layout)
        &&& self.leaves().no_duplicates()
        &&& self.pane_ids().no_duplicates()
        &&& forall|p: usize| self.leaves().contains(p) <==> self.pane_ids().contains(p)
        &&& self.leaves().contains(self.active_pane)
        &&& forall|p: usize| self.leaves().contains(p) ==> p < self.next_id
    }
}

/// Two duplicate-free sequences holding the same elements have the same
/// length.
pub proof fn lemma_same_elements_same_len(a: Seq<usize>, b: Seq<usize>)
    requires
        a.no_duplicates(),
        b.no_duplicates(),
        forall|x: usize| a.contains(x) <==> b.contains(x),
    ensures
        a.len() == b.len(),
{
    broadcast use vstd::set::group_set_axioms;

    a.unique_seq_to_set();
    b.unique_seq_to_set();
    assert(a.to_set() =~= b.to_set());
}

impl SphinxBox {
    /// A fresh shell: one unloaded pane with identifier 1, a single-leaf
    /// layout, and the focus on it.
    pub fn new() -> (s: SphinxBox)
        ensures
            s.inv(),
            s.pane_ids() == seq![1usize],
            s.leaves() == seq![1usize],
            s.active() == 1,
            s.next_pane_id() == 2,
            s.pane(1) == Some(Pane::Unloaded),
    {
        let mut panes: Vec<(usize, Pane)> = Vec::new();
        panes.push((1, Pane::Unloaded));
        let s = SphinxBox { panes, active_pane: 1, layout: Layout::Leaf(1), next_id: 2 };
        proof {
            assert(s.pane_ids() =~= seq![1usize]);
            assert(s.leaves() == seq![1usize]);
            assert(seq![1usize][0] == 1usize);
            assert forall|p: usize| seq![1usize].contains(p) implies p == 1 by {
                let i = choose|i: int| 0 <= i < 1 && seq![1usize][i] == p;
            }
            assert(find_pane(s.panes@, 1) == Some(Pane::Unloaded));
        }
        s
    }

    /// Where the given identifier stands in the registry, if anywhere.
    fn find_index(&self, id: usize) -> (r: Option<usize>)
        ensures
            match r {
                Some(i) => i < self.panes@.len() && self.panes@[i as int].0 == id,
                None => !self.pane_ids().contains(id),
            },
    {
        let mut i: usize = 0;
        while i < self.panes.len()
            invariant
                i <= self.panes@.len(),
                forall|j: int| 0 <= j < i ==> self.panes@[j].0 != id,
            decreases self.panes@.len() - i,
        {
            if self.panes[i].0 == id {
                return Some(i);
            }
            i = i + 1;
        }
        proof {
            if self.pane_ids().contains(id) {
                let j = choose|j: int|
                    0 <= j < self.pane_ids().len() && self.pane_ids()[j] == id;
                assert(self.pane_ids()[j] == self.panes@[j].0);
            }
        }
        None
    }

    /// The pane currently holding focus.
    pub fn active_pane(&self) -> (r: usize)
        ensures
            r == self.active(),
    {
        self.active_pane
    }

    /// How many panes are registered.
    pub fn pane_count(&self) -> (n: usize)
        ensures
            n == self.pane_ids().len(),
    {
        self.panes.len()
    }

    /// Whether a pane with the given identifier is registered.
    pub fn has_pane(&self, id: usize) -> (r: bool)
        ensures
            r == self.pane_ids().contains(id),
    {
        match self.find_index(id) {
            Some(i) => {
                proof {
                    assert(self.pane_ids()[i as int] == self.panes@[i as int].0);
                }
                true
            },
            None => false,
        }
    }

    /// Moves the focus to the given pane; refused when no such pane is
    /// registered.
    pub fn set_active(&mut self, id: usize) -> (r: bool)
        requires
            old(self).inv(),
        ensures
            final(self).inv(),
            r == old(self).pane_ids().contains(id),
            r ==> final(self).active() == id && final(self).pane_ids() == old(self).pane_ids()
                && final(self).leaves() == old(self).leaves() && (forall|p: usize|
                final(self).pane(p) == old(self).pane(p)),
            !r ==> *final(self) == *old(self),
    {
        if self.has_pane(id) {
            self.active_pane = id;
            true
        } else {
            false
        }
    }

    /// Whether the pane with the given identifier is loaded; nothing when
    /// no such pane is registered.
    pub fn pane_loaded(&self, id: usize) -> (r: Option<bool>)
        requires
            self.inv(),
        ensures
            match r {
                Some(b) => self.pane(id) is Some && (b <==> (self.pane(id) matches Some(
                    Pane::Loaded { .. },
                ))),
                None => self.pane(id) is None,
            },
    {
        proof {
            lemma_find_pane_index(self.panes@, id);
        }
        match self.find_index(id) {
            None => {
                proof {
                    assert(!self.pane_ids().contains(id));
                }
                None
            },
            Some(i) => {
                let entry = &self.panes[i];
                match &entry.1 {
                    Pane::Loaded { .. } => Some(true),
                    Pane::Unloaded => Some(false),
                }
            },
        }
    }

    /// Splits the leaf of the active pane in the given orientation: the
    /// active pane keeps its place and a fresh unloaded pane appears as its
    /// sibling. `None` only once the identifier space is exhausted.
    pub fn split_active(&mut self, split_type: SplitType) -> (r: Option<usize>)
        requires
            old(self).inv(),
        ensures
            final(self).inv(),
            match r {
                Some(id) => {
                    &&& id == old(self).next_pane_id()
                    &&& !old(self).pane_ids().contains(id)
                    &&& forall|p: usize|
                        final(self).pane_ids().contains(p) <==> (old(self).pane_ids().contains(p)
                            || p == id)
                    &&& final(self).pane_ids().len() == old(self).pane_ids().len() + 1
                    &&& final(self).active() == old(self).active()
                    &&& final(self).pane(id) == Some(Pane::Unloaded)
                },
                None => *final(self) == *old(self),
            },
            (r is Some) <==> old(self).next_pane_id() < usize::MAX,
    {
        if self.next_id == usize::MAX {
            return None;
        }
        let id = self.next_id;
        self.next_id = self.next_id + 1;
        let target = self.active_pane;
        let mut layout = Layout::Leaf(0);
        core::mem::swap(&mut layout, &mut self.layout);
        let ghost old_leaves = leaf_panes(layout);
        proof {
            assert(!old_leaves.contains(id));
            lemma_split_panes_effect(old_leaves, target, id);
        }
        let layout = layout.split(target, split_type, id);
        self.layout = layout;
        let ghost ids_old = entry_ids(old(self).panes@);
        self.panes.push((id, Pane::Unloaded));
        proof {
            broadcast use vstd::seq_lib::lemma_seq_contains_after_push;

            assert(self.pane_ids() =~= ids_old.push(id));
            assert(!ids_old.contains(id));
            assert forall|i: int, j: int|
                0 <= i < j < ids_old.push(id).len() implies ids_old.push(id)[i] != ids_old.push(
                id,
            )[j] by {
                if j == ids_old.len() {
                    if ids_old.push(id)[i] == id {
                        assert(ids_old.contains(id));
                    }
                }
            }
            assert(self.pane_ids().no_duplicates());
            lemma_find_pane_index(self.panes@, id);
            assert(self.panes@[self.panes@.len() - 1].0 == id);
            assert(forall|p: usize| self.leaves().contains(p) <==> self.pane_ids().contains(p));
        }
        Some(id)
    }

    /// Closes the active pane: its leaf leaves the layout, its identifier
    /// is retired from the registry, and the focus moves to the leftmost
    /// remaining leaf. With no other pane left the shell is unchanged and
    /// the caller is told to stop.
    pub fn close_active(&mut self) -> (r: bool)
        requires
            old(self).inv(),
        ensures
            final(self).inv(),
            r == (old(self).pane_ids().len() > 1),
            !r ==> *final(self) == *old(self),
            r ==> {
                &&& forall|p: usize|
                    final(self).pane_ids().contains(p) <==> (old(self).pane_ids().contains(p)
                        && p != old(self).active())
                &&& final(self).pane_ids().len() == old(self).pane_ids().len() - 1
                &&& final(self).leaves().contains(final(self).active())
            },
    {
        if self.panes.len() <= 1 {
            return false;
        }
        let target = self.active_pane;
        let mut layout = Layout::Leaf(0);
        core::mem::swap(&mut layout, &mut self.layout);
        let ghost old_leaves = leaf_panes(layout);
        proof {
            lemma_remove_pane_effect(old_leaves, target);
            lemma_same_elements_same_len(old_leaves, entry_ids(old(self).panes@));
        }
        match layout.close(target) {
            None => {
                proof {
                    assert(false);
                }
                self.layout = Layout::Leaf(target);
                false
            },
            Some(l2) => {
                self.layout = l2;
                let new_active = self.layout.first_leaf();
                self.active_pane = new_active;
                let idx = match self.find_index(target) {
                    Some(i) => i,
                    None => {
                        proof {
                            assert(false);
                        }
                        0
                    },
                };
                let ghost ids_old = entry_ids(old(self).panes@);
                let _removed = self.panes.remove(idx);
                proof {
                    assert(self.pane_ids() =~= ids_old.remove(idx as int));
                    assert(ids_old[idx as int] == target);
                    lemma_ids_remove(ids_old, idx as int);
                    let lp = leaf_panes(l2);
                    assert(lp.contains(lp[0]));
                    assert(tree_wf(self.layout));
                    assert(self.leaves().no_duplicates());
                    assert(self.pane_ids().no_duplicates());
                    assert(self.leaves() == remove_pane(old_leaves, target));
                    assert(old_leaves == old(self).leaves());
                    assert(ids_old == old(self).pane_ids());
                    assert forall|p: usize|
                        self.leaves().contains(p) <==> self.pane_ids().contains(p) by {
                        assert(self.leaves().contains(p) <==> (old_leaves.contains(p) && p
                            != target));
                        assert(old_leaves.contains(p) <==> ids_old.contains(p));
                        assert(self.pane_ids().contains(p) <==> (ids_old.contains(p) && p
                            != target));
                    }
                    assert(self.leaves().contains(self.active_pane));
                    assert forall|p: usize| self.leaves().contains(p) implies p
                        < self.next_id by {
                        assert(old_leaves.contains(p));
                    }
                }
                true
            },
        }
    }

    /// Applies a handler's action and says whether the event loop goes on:
    /// it stops on an exit, or once closing the active pane would leave no
    /// pane at all.
    pub fn apply_action(&mut self, action: Action) -> (r: bool)
        requires
            old(self).inv(),
        ensures
            final(self).inv(),
            match action {
                Action::DoNothing => r == true && *final(self) == *old(self),
                Action::Exit => r == false && *final(self) == *old(self),
                Action::ClosePane => {
                    &&& r == (old(self).pane_ids().len() > 1)
                    &&& (!r ==> *final(self) == *old(self))
                    &&& (r ==> forall|p: usize|
                        final(self).pane_ids().contains(p) <==> (old(self).pane_ids().contains(p)
                            && p != old(self).active()))
                },
            },
    {
        match action {
            Action::DoNothing => true,
            Action::Exit => false,
            Action::ClosePane => self.close_active(),
        }
    }

    /// Binds a buffer to an unloaded pane: the one-way loading transition
    /// of a pane's life. Everything else is untouched.
    pub fn attach_buffer(&mut self, id: usize, buffer: Buffer, position: (usize, usize))
        requires
            old(self).inv(),
            old(self).pane(id) == Some(Pane::Unloaded),
        ensures
            final(self).inv(),
            final(self).pane(id) == Some((Pane::Loaded { buffer, position })),
            final(self).pane_ids() == old(self).pane_ids(),
            final(self).leaves() == old(self).leaves(),
            final(self).active() == old(self).active(),
            forall|p: usize| p != id ==> final(self).pane(p) == old(self).pane(p),
    {
        proof {
            lemma_find_pane_index(self.panes@, id);
        }
        let idx = match self.find_index(id) {
            Some(i) => i,
            None => {
                proof {
                    assert(false);
                }
                0
            },
        };
        let ghost entries_old = self.panes@;
        let _old_entry = self.panes.remove(idx);
        self.panes.insert(idx, (id, Pane::Loaded { buffer, position }));
        proof {
            assert(self.panes@ =~= entries_old.update(idx as int, self.panes@[idx as int]));
            assert(self.pane_ids() =~= entry_ids(entries_old));
            lemma_find_pane_index(self.panes@, id);
            assert forall|p: usize| p != id implies find_pane(self.panes@, p) == find_pane(
                entries_old,
                p,
            ) by {
                lemma_find_pane_index(self.panes@, p);
                lemma_find_pane_index(entries_old, p);
                if entry_ids(entries_old).contains(p) {
                    let j = choose|j: int|
                        0 <= j < entry_ids(entries_old).len() && entry_ids(entries_old)[j] == p;
                    assert(entries_old[j].0 == p);
                    assert(j != idx);
                    assert(self.panes@[j] == entries_old[j]);
                }
            }
        }
    }
}

/// Layout invariant: in a well-formed shell every leaf of the layout
/// references a registered pane, every registered pane is referenced by
/// exactly one leaf, and the active pane is a leaf.
pub proof fn lemma_shell_invariant(s: &SphinxBox)
    requires
        s.inv(),
    ensures
        s.leaves().no_duplicates(),
        s.pane_ids().no_duplicates(),
        forall|p: usize| s.leaves().contains(p) <==> s.pane_ids().contains(p),
        s.leaves().contains(s.active()),
        s.leaves().len() == s.pane_ids().len(),
{
    lemma_same_elements_same_len(s.leaves(), s.pane_ids());
}

} // verus!
