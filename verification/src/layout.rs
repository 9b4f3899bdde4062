//! The pane layout: a tree of nested horizontal/vertical splits whose
//! leaves reference panes by identifier. Splitting replaces a leaf by a
//! two-child split; closing removes a leaf and collapses splits left with a
//! single child.

use vstd::prelude::*;

verus! {

/// The orientation of a split.
#[derive(Clone, Copy)]
pub enum SplitType {
    Vertical,
    Horizontal,
}

/// A tree of splits; every leaf references exactly one pane.
pub enum Layout {
    Leaf(usize),
    Split(SplitType, Vec<Layout>),
}

/// The pane identifiers of all leaves below the given children, in order.
pub open spec fn leaf_panes_list(cs: Seq<Layout>) -> Seq<usize>
    decreases cs,
{
    if cs.len() == 0 {
        Seq::empty()
    } else {
        leaf_panes(cs[0]) + leaf_panes_list(cs.drop_first())
    }
}

/// The pane identifiers of all leaves of the tree, left to right.
pub open spec fn leaf_panes(l: Layout) -> Seq<usize>
    decreases l,
{
    match l {
        Layout::Leaf(p) => seq![p],
        Layout::Split(_, cs) => leaf_panes_list(cs@),
    }
}

/// Every split of the children has at least two children of its own.
pub open spec fn tree_wf_list(cs: Seq<Layout>) -> bool
    decreases cs,
{
    if cs.len() == 0 {
        true
    } else {
        tree_wf(cs[0]) && tree_wf_list(cs.drop_first())
    }
}

/// Every split of the tree has at least two children, so every subtree has
/// at least one leaf.
pub open spec fn tree_wf(l: Layout) -> bool
    decreases l,
{
    match l {
        Layout::Leaf(_) => true,
        Layout::Split(_, cs) => cs.len() >= 2 && tree_wf_list(cs@),
    }
}

/// The leaf list after splitting: every leaf carrying `target` is followed
/// by a new leaf carrying `new_id`.
pub open spec fn split_panes(s: Seq<usize>, target: usize, new_id: usize) -> Seq<usize>
    decreases s.len(),
{
    if s.len() == 0 {
        s
    } else if s[0] == target {
        seq![target, new_id] + split_panes(s.drop_first(), target, new_id)
    } else {
        seq![s[0]] + split_panes(s.drop_first(), target, new_id)
    }
}

/// The leaf list after closing: every leaf carrying `target` is gone.
pub open spec fn remove_pane(s: Seq<usize>, target: usize) -> Seq<usize>
    decreases s.len(),
{
    if s.len() == 0 {
        s
    } else if s[0] == target {
        remove_pane(s.drop_first(), target)
    } else {
        seq![s[0]] + remove_pane(s.drop_first(), target)
    }
}

pub proof fn lemma_split_panes_concat(a: Seq<usize>, b: Seq<usize>, target: usize, new_id: usize)
    ensures
        split_panes(a + b, target, new_id) == split_panes(a, target, new_id) + split_panes(
            b,
            target,
            new_id,
        ),
    decreases a.len(),
{
    if a.len() == 0 {
        assert(a + b =~= b);
        assert(split_panes(a, target, new_id) + split_panes(b, target, new_id) =~= split_panes(
            b,
            target,
            new_id,
        ));
    } else {
        lemma_split_panes_concat(a.drop_first(), b, target, new_id);
        assert((a + b).drop_first() =~= a.drop_first() + b);
        assert((a + b)[0] == a[0]);
        assert(split_panes(a + b, target, new_id) =~= split_panes(a, target, new_id)
            + split_panes(b, target, new_id));
    }
}

pub proof fn lemma_remove_pane_concat(a: Seq<usize>, b: Seq<usize>, target: usize)
    ensures
        remove_pane(a + b, target) == remove_pane(a, target) + remove_pane(b, target),
    decreases a.len(),
{
    if a.len() == 0 {
        assert(a + b =~= b);
        assert(remove_pane(a, target) + remove_pane(b, target) =~= remove_pane(b, target));
    } else {
        lemma_remove_pane_concat(a.drop_first(), b, target);
        assert((a + b).drop_first() =~= a.drop_first() + b);
        assert((a + b)[0] == a[0]);
        assert(remove_pane(a + b, target) =~= remove_pane(a, target) + remove_pane(b, target));
    }
}

/// Splitting changes nothing where the target pane does not occur.
pub proof fn lemma_split_panes_absent(s: Seq<usize>, target: usize, new_id: usize)
    requires
        !s.contains(target),
    ensures
        split_panes(s, target, new_id) == s,
    decreases s.len(),
{
    broadcast use vstd::seq_lib::group_seq_properties;

    if s.len() > 0 {
        lemma_split_panes_absent(s.drop_first(), target, new_id);
        assert(split_panes(s, target, new_id) =~= s);
    }
}

/// Closing changes nothing where the target pane does not occur.
pub proof fn lemma_remove_pane_absent(s: Seq<usize>, target: usize)
    requires
        !s.contains(target),
    ensures
        remove_pane(s, target) == s,
    decreases s.len(),
{
    broadcast use vstd::seq_lib::group_seq_properties;

    if s.len() > 0 {
        lemma_remove_pane_absent(s.drop_first(), target);
        assert(remove_pane(s, target) =~= s);
    }
}

/// A sequence with one element put in front contains exactly that element
/// and what the rest contains.
pub proof fn lemma_cons_contains(h: usize, r: Seq<usize>, x: usize)
    ensures
        (seq![h] + r).contains(x) <==> (x == h || r.contains(x)),
{
    let c = seq![h] + r;
    if x == h {
        assert(c[0] == x);
    }
    if r.contains(x) {
        let i = choose|i: int| 0 <= i < r.len() && r[i] == x;
        assert(c[i + 1] == x);
    }
    if c.contains(x) {
        let i = choose|i: int| 0 <= i < c.len() && c[i] == x;
        if i > 0 {
            assert(r[i - 1] == x);
        }
    }
}

/// Putting a fresh element in front of a duplicate-free sequence keeps it
/// duplicate-free.
pub proof fn lemma_cons_no_dup(h: usize, r: Seq<usize>)
    requires
        r.no_duplicates(),
        !r.contains(h),
    ensures
        (seq![h] + r).no_duplicates(),
{
    assert forall|i: int, j: int| 0 <= i < 1 && 0 <= j < r.len() implies seq![h][i] != r[j] by {
        if r[j] == h {
            assert(r.contains(h));
        }
    }
    vstd::seq_lib::lemma_no_dup_in_concat(seq![h], r);
}

/// What splitting does to a duplicate-free leaf list: the new identifier
/// appears exactly where the target was present, nothing else changes, and
/// the list stays duplicate-free.
pub proof fn lemma_split_panes_effect(s: Seq<usize>, target: usize, new_id: usize)
    requires
        s.no_duplicates(),
        !s.contains(new_id),
        new_id != target,
    ensures
        split_panes(s, target, new_id).no_duplicates(),
        forall|x: usize|
            split_panes(s, target, new_id).contains(x) <==> (s.contains(x) || (x == new_id
                && s.contains(target))),
    decreases s.len(),
{
    if s.len() > 0 {
        let rest = s.drop_first();
        let sp = split_panes(s, target, new_id);
        assert(s =~= seq![s[0]] + rest);
        assert(s.contains(s[0])) by {
            assert(s[0] == (seq![s[0]] + rest)[0]);
        }
        lemma_split_panes_effect(rest, target, new_id);
        assert forall|x: usize| rest.contains(x) implies s.contains(x) by {
            lemma_cons_contains(s[0], rest, x);
        }
        assert(!rest.contains(s[0])) by {
            if rest.contains(s[0]) {
                let j = choose|j: int| 0 <= j < rest.len() && rest[j] == s[0];
                assert(s[j + 1] == s[0]);
            }
        }
        if s[0] == target {
            assert(!rest.contains(target));
            lemma_split_panes_absent(rest, target, new_id);
            assert(sp == seq![target, new_id] + rest);
            assert(seq![target, new_id] + rest =~= seq![target] + (seq![new_id] + rest));
            lemma_cons_contains(new_id, rest, target);
            lemma_cons_no_dup(new_id, rest);
            lemma_cons_no_dup(target, seq![new_id] + rest);
            assert(sp.no_duplicates());
            assert forall|x: usize|
                sp.contains(x) <==> (s.contains(x) || (x == new_id && s.contains(target))) by {
                lemma_cons_contains(target, seq![new_id] + rest, x);
                lemma_cons_contains(new_id, rest, x);
                lemma_cons_contains(s[0], rest, x);
            }
        } else {
            let spr = split_panes(rest, target, new_id);
            assert(sp == seq![s[0]] + spr);
            assert(!spr.contains(s[0]));
            lemma_cons_no_dup(s[0], spr);
            assert(sp.no_duplicates());
            assert forall|x: usize|
                sp.contains(x) <==> (s.contains(x) || (x == new_id && s.contains(target))) by {
                lemma_cons_contains(s[0], spr, x);
                lemma_cons_contains(s[0], rest, x);
                lemma_cons_contains(s[0], rest, target);
            }
        }
    }
}

/// What closing does to a duplicate-free leaf list: exactly the target
/// disappears, and the list stays duplicate-free.
pub proof fn lemma_remove_pane_effect(s: Seq<usize>, target: usize)
    requires
        s.no_duplicates(),
    ensures
        remove_pane(s, target).no_duplicates(),
        forall|x: usize| remove_pane(s, target).contains(x) <==> (s.contains(x) && x != target),
        s.contains(target) ==> remove_pane(s, target).len() == s.len() - 1,
        !s.contains(target) ==> remove_pane(s, target) == s,
    decreases s.len(),
{
    if s.len() > 0 {
        let rest = s.drop_first();
        let rp = remove_pane(s, target);
        assert(s =~= seq![s[0]] + rest);
        assert(s.contains(s[0])) by {
            assert(s[0] == (seq![s[0]] + rest)[0]);
        }
        lemma_remove_pane_effect(rest, target);
        assert(!rest.contains(s[0])) by {
            if rest.contains(s[0]) {
                let j = choose|j: int| 0 <= j < rest.len() && rest[j] == s[0];
                assert(s[j + 1] == s[0]);
            }
        }
        if s[0] == target {
            assert(!rest.contains(target));
            lemma_remove_pane_absent(rest, target);
            assert(rp == rest);
            assert forall|x: usize| rp.contains(x) <==> (s.contains(x) && x != target) by {
                lemma_cons_contains(s[0], rest, x);
            }
        } else {
            let rpr = remove_pane(rest, target);
            assert(rp == seq![s[0]] + rpr);
            assert(!rpr.contains(s[0]));
            lemma_cons_no_dup(s[0], rpr);
            assert(rp.no_duplicates());
            assert forall|x: usize| rp.contains(x) <==> (s.contains(x) && x != target) by {
                lemma_cons_contains(s[0], rpr, x);
                lemma_cons_contains(s[0], rest, x);
            }
            lemma_cons_contains(s[0], rest, target);
            if !s.contains(target) {
                assert(rp =~= s);
            }
        }
    }
}

pub proof fn lemma_leaf_panes_list_push(s: Seq<Layout>, l: Layout)
    ensures
        leaf_panes_list(s.push(l)) == leaf_panes_list(s) + leaf_panes(l),
    decreases s.len(),
{
    if s.len() == 0 {
        assert(s.push(l)[0] == l);
        assert(s.push(l).drop_first() =~= Seq::<Layout>::empty());
        assert(leaf_panes_list(s.push(l).drop_first()) == Seq::<usize>::empty());
        assert(leaf_panes_list(s.push(l)) =~= leaf_panes_list(s) + leaf_panes(l));
    } else {
        lemma_leaf_panes_list_push(s.drop_first(), l);
        assert(s.push(l).drop_first() =~= s.drop_first().push(l));
        assert(s.push(l)[0] == s[0]);
        assert(leaf_panes_list(s.push(l)) =~= leaf_panes_list(s) + leaf_panes(l));
    }
}

pub proof fn lemma_tree_wf_list_push(s: Seq<Layout>, l: Layout)
    ensures
        tree_wf_list(s.push(l)) <==> (tree_wf_list(s) && tree_wf(l)),
    decreases s.len(),
{
    if s.len() == 0 {
        assert(s.push(l)[0] == l);
        assert(s.push(l).drop_first() =~= Seq::<Layout>::empty());
        assert(tree_wf_list(s.push(l).drop_first()));
    } else {
        lemma_tree_wf_list_push(s.drop_first(), l);
        assert(s.push(l).drop_first() =~= s.drop_first().push(l));
        assert(s.push(l)[0] == s[0]);
    }
}

pub proof fn lemma_tree_wf_list_index(s: Seq<Layout>, i: int)
    requires
        tree_wf_list(s),
        0 <= i < s.len(),
    ensures
        tree_wf(s[i]),
    decreases s.len(),
{
    if i > 0 {
        lemma_tree_wf_list_index(s.drop_first(), i - 1);
    }
}

impl Layout {
    /// Replaces every leaf referencing `target` by a split of the given
    /// orientation whose children are that leaf and a new leaf referencing
    /// `new_id`; anywhere else the tree is unchanged.
    pub fn split(self, target: usize, split_type: SplitType, new_id: usize) -> (r: Layout)
        ensures
            leaf_panes(r) == split_panes(leaf_panes(self), target, new_id),
            tree_wf(self) ==> tree_wf(r),
        decreases self,
    {
        let ghost l0 = self;
        match self {
            Layout::Leaf(p) => {
                if p == target {
                    let mut children: Vec<Layout> = Vec::new();
                    children.push(Layout::Leaf(p));
                    children.push(Layout::Leaf(new_id));
                    proof {
                        reveal_with_fuel(leaf_panes_list, 4);
                        reveal_with_fuel(leaf_panes, 4);
                        reveal_with_fuel(tree_wf_list, 4);
                        reveal_with_fuel(tree_wf, 4);
                        reveal_with_fuel(split_panes, 3);
                        let c = children@;
                        assert(c.len() == 2);
                        assert(c[0] == Layout::Leaf(p));
                        assert(c.drop_first() =~= seq![Layout::Leaf(new_id)]);
                        assert(c.drop_first()[0] == Layout::Leaf(new_id));
                        assert(c.drop_first().drop_first() =~= Seq::<Layout>::empty());
                        assert(leaf_panes_list(c.drop_first().drop_first())
                            == Seq::<usize>::empty());
                        assert(leaf_panes_list(c.drop_first()) =~= seq![new_id]);
                        assert(leaf_panes_list(c) =~= seq![p, new_id]);
                        assert(seq![p].drop_first() =~= Seq::<usize>::empty());
                        assert(split_panes(leaf_panes(l0), target, new_id) =~= seq![
                            target,
                            new_id,
                        ]);
                        assert(tree_wf_list(c.drop_first().drop_first()));
                        assert(tree_wf_list(c.drop_first()));
                        assert(tree_wf_list(c));
                    }
                    Layout::Split(split_type, children)
                } else {
                    proof {
                        reveal_with_fuel(split_panes, 3);
                        assert(leaf_panes(l0) == seq![p]);
                        assert(seq![p].drop_first() =~= Seq::<usize>::empty());
                        assert(split_panes(leaf_panes(l0), target, new_id) =~= seq![p]);
                    }
                    Layout::Leaf(p)
                }
            },
            Layout::Split(orientation, cs) => {
                let ghost vfield = cs;
                let ghost cs0 = cs@;
                let mut cs = cs;
                let mut out: Vec<Layout> = Vec::new();
                proof {
                    assert(cs0.take(0) =~= Seq::<Layout>::empty());
                    assert(leaf_panes_list(out@) =~= split_panes(
                        leaf_panes_list(cs0.take(0)),
                        target,
                        new_id,
                    ));
                    assert(cs@ =~= cs0.skip(0));
                }
                #[verifier::loop_isolation(false)]
                while cs.len() > 0
                    invariant
                        out@.len() + cs@.len() == cs0.len(),
                        cs@ =~= cs0.skip(out@.len() as int),
                        leaf_panes_list(out@) == split_panes(
                            leaf_panes_list(cs0.take(out@.len() as int)),
                            target,
                            new_id,
                        ),
                        tree_wf_list(cs0) ==> tree_wf_list(out@),
                        l0 == Layout::Split(orientation, vfield),
                        cs0 == vfield@,
                    decreases cs@.len(),
                {
                    let ghost k = out@.len() as int;
                    let c = cs.remove(0);
                    proof {
                        assert(c == cs0[k]);
                        assert(decreases_to!(l0 => l0->Split_1));
                        assert(decreases_to!(vfield => vfield@));
                        assert(decreases_to!(cs0 => cs0[k]));
                        assert(decreases_to!(l0 => c));
                        if tree_wf_list(cs0) {
                            lemma_tree_wf_list_index(cs0, k);
                        }
                    }
                    let r = c.split(target, split_type, new_id);
                    let ghost out_old = out@;
                    out.push(r);
                    proof {
                        assert(cs0.take(k + 1) =~= cs0.take(k).push(cs0[k]));
                        lemma_leaf_panes_list_push(cs0.take(k), cs0[k]);
                        lemma_split_panes_concat(
                            leaf_panes_list(cs0.take(k)),
                            leaf_panes(cs0[k]),
                            target,
                            new_id,
                        );
                        assert(out@ =~= out_old.push(r));
                        lemma_leaf_panes_list_push(out_old, r);
                        if tree_wf_list(cs0) {
                            lemma_tree_wf_list_push(out_old, r);
                        }
                        assert(cs@ =~= cs0.skip(k + 1));
                    }
                }
                proof {
                    assert(cs0.take(cs0.len() as int) =~= cs0);
                    assert(leaf_panes(l0) == leaf_panes_list(cs0));
                }
                Layout::Split(orientation, out)
            },
        }
    }
}

impl Layout {
    /// Removes every leaf referencing `target`. A split left with a single
    /// child collapses into that child; a tree left without any leaf
    /// disappears altogether.
    pub fn close(self, target: usize) -> (r: Option<Layout>)
        ensures
            match r {
                Some(l2) => {
                    &&& leaf_panes(l2) == remove_pane(leaf_panes(self), target)
                    &&& leaf_panes(l2).len() > 0
                    &&& (tree_wf(self) ==> tree_wf(l2))
                },
                None => remove_pane(leaf_panes(self), target).len() == 0,
            },
        decreases self,
    {
        let ghost l0 = self;
        match self {
            Layout::Leaf(p) => {
                proof {
                    reveal_with_fuel(remove_pane, 2);
                    assert(leaf_panes(l0) == seq![p]);
                    assert(seq![p].drop_first() =~= Seq::<usize>::empty());
                }
                if p == target {
                    None
                } else {
                    proof {
                        assert(remove_pane(seq![p], target) =~= seq![p]);
                    }
                    Some(Layout::Leaf(p))
                }
            },
            Layout::Split(orientation, cs) => {
                let ghost vfield = cs;
                let ghost cs0 = cs@;
                let mut cs = cs;
                let mut out: Vec<Layout> = Vec::new();
                let ghost mut k: int = 0;
                proof {
                    assert(cs0.take(0) =~= Seq::<Layout>::empty());
                    assert(leaf_panes_list(out@) =~= remove_pane(
                        leaf_panes_list(cs0.take(0)),
                        target,
                    ));
                    assert(cs@ =~= cs0.skip(0));
                }
                #[verifier::loop_isolation(false)]
                while cs.len() > 0
                    invariant
                        0 <= k <= cs0.len(),
                        cs@ =~= cs0.skip(k),
                        leaf_panes_list(out@) == remove_pane(leaf_panes_list(cs0.take(k)), target),
                        forall|i: int|
                            0 <= i < out@.len() ==> leaf_panes(#[trigger] out@[i]).len() > 0,
                        tree_wf_list(cs0) ==> tree_wf_list(out@),
                        l0 == Layout::Split(orientation, vfield),
                        cs0 == vfield@,
                    decreases cs@.len(),
                {
                    let c = cs.remove(0);
                    proof {
                        assert(c == cs0[k]);
                        assert(decreases_to!(l0 => l0->Split_1));
                        assert(decreases_to!(vfield => vfield@));
                        assert(decreases_to!(cs0 => cs0[k]));
                        assert(decreases_to!(l0 => c));
                        if tree_wf_list(cs0) {
                            lemma_tree_wf_list_index(cs0, k);
                        }
                        assert(cs0.take(k + 1) =~= cs0.take(k).push(cs0[k]));
                        lemma_leaf_panes_list_push(cs0.take(k), cs0[k]);
                        lemma_remove_pane_concat(
                            leaf_panes_list(cs0.take(k)),
                            leaf_panes(cs0[k]),
                            target,
                        );
                    }
                    match c.close(target) {
                        None => {
                            proof {
                                assert(remove_pane(leaf_panes(cs0[k]), target)
                                    =~= Seq::<usize>::empty());
                                assert(leaf_panes_list(out@) =~= remove_pane(
                                    leaf_panes_list(cs0.take(k + 1)),
                                    target,
                                ));
                                k = k + 1;
                                assert(cs@ =~= cs0.skip(k));
                            }
                        },
                        Some(n) => {
                            let ghost out_old = out@;
                            out.push(n);
                            proof {
                                assert(out@ =~= out_old.push(n));
                                lemma_leaf_panes_list_push(out_old, n);
                                if tree_wf_list(cs0) {
                                    lemma_tree_wf_list_push(out_old, n);
                                }
                                k = k + 1;
                                assert(cs@ =~= cs0.skip(k));
                            }
                        },
                    }
                }
                proof {
                    assert(k == cs0.len());
                    assert(cs0.take(cs0.len() as int) =~= cs0);
                    assert(leaf_panes(l0) == leaf_panes_list(cs0));
                }
                if out.len() == 0 {
                    None
                } else if out.len() == 1 {
                    let ghost fin = out@;
                    let only = out.remove(0);
                    proof {
                        reveal_with_fuel(leaf_panes_list, 2);
                        reveal_with_fuel(tree_wf_list, 2);
                        assert(fin =~= seq![only]);
                        assert(fin.drop_first() =~= Seq::<Layout>::empty());
                        assert(leaf_panes_list(fin) =~= leaf_panes(only));
                        assert(leaf_panes(fin[0]).len() > 0);
                        if tree_wf_list(fin) {
                            lemma_tree_wf_list_index(fin, 0);
                        }
                    }
                    Some(only)
                } else {
                    proof {
                        assert(leaf_panes_list(out@) == leaf_panes(out@[0]) + leaf_panes_list(
                            out@.drop_first(),
                        ));
                        assert(leaf_panes(out@[0]).len() > 0);
                    }
                    Some(Layout::Split(orientation, out))
                }
            },
        }
    }

    /// The pane of the leftmost leaf of a well-formed tree.
    pub fn first_leaf(&self) -> (r: usize)
        requires
            tree_wf(*self),
        ensures
            leaf_panes(*self).len() > 0,
            r == leaf_panes(*self)[0],
        decreases *self,
    {
        match self {
            Layout::Leaf(p) => *p,
            Layout::Split(_, cs) => {
                proof {
                    assert(tree_wf_list(cs@));
                    lemma_tree_wf_list_index(cs@, 0);
                    assert(decreases_to!(*self => (*self)->Split_1));
                    assert(decreases_to!(*cs => cs@));
                    assert(decreases_to!(cs@ => cs@[0]));
                    assert(decreases_to!(*self => cs@[0]));
                }
                let r = cs[0].first_leaf();
                proof {
                    assert(leaf_panes_list(cs@) == leaf_panes(cs@[0]) + leaf_panes_list(
                        cs@.drop_first(),
                    ));
                }
                r
            },
        }
    }
}

} // verus!
