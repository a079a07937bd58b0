//! A tree of splits holding panes: splitting and closing panes, focus, and hit-testing clicks
//! against the sizes recorded at the last render.
//!
//! The widgets shown in the panes live outside the layout, keyed by `PaneKey`: the layout says
//! which pane a widget belongs in, which pane to focus, and which pane an event goes to.
use vstd::prelude::*;
use crate::drawers::Pointer;
use crate::geometry::{Direction, Position, Rect, Side};
use crate::slots::{
    odd_version, pane_slots, panes_contains, panes_get, panes_get_mut, panes_insert, panes_len,
    panes_new, panes_remove, slot_limit, split_slots, splits_contains, splits_get, splits_get_mut,
    splits_insert, splits_len, splits_new, splits_remove, Store,
};
use crate::layout::{split_area, segments_of, Constraint};
use crate::utils::{dragged_size, lemma_prefix_sum_mono, prefix_sum, relative};

verus! {

/// Key of a split.
#[derive(Clone, Copy, PartialEq, Eq, Hash, Debug, Structural)]
pub struct SplitKey(pub u64);

/// Key of a pane.
#[derive(Clone, Copy, PartialEq, Eq, Hash, Debug, Structural)]
pub struct PaneKey(pub u64);

/// A child of a split.
#[derive(Clone, Copy, PartialEq, Eq, Debug, Structural)]
pub enum Child {
    Pane(PaneKey),
    Split(SplitKey),
}

/// A single split in a split layout
pub struct Split {
    pub area: Rect,
    pub direction: Direction,
    pub children: Vec<Child>,
    pub parent: Option<SplitKey>,
    /// Child pane sizes along the split direction, used to compute the layout for the next
    /// frame and for click collisions.
    pub sizes: Vec<u16>,
}

/// What a split holds, as plain values.
pub struct SplitView {
    pub area: Rect,
    pub direction: Direction,
    pub children: Seq<Child>,
    pub parent: Option<SplitKey>,
    pub sizes: Seq<u16>,
}

impl View for Split {
    type V = SplitView;

    open spec fn view(&self) -> SplitView {
        SplitView {
            area: self.area,
            direction: self.direction,
            children: self.children@,
            parent: self.parent,
            sizes: self.sizes@,
        }
    }
}

impl Split {
    /// Create a new child split along a direction, with 2 child panes of size 1.
    pub fn new(direction: Direction, parent: SplitKey, panes: [PaneKey; 2]) -> (s: Split)
        ensures
            s@ == (SplitView {
                area: Rect { x: 0, y: 0, width: 0, height: 0 },
                direction,
                children: seq![Child::Pane(panes@[0]), Child::Pane(panes@[1])],
                parent: Some(parent),
                sizes: seq![1u16, 1u16],
            }),
    {
        let mut children: Vec<Child> = Vec::new();
        children.push(Child::Pane(panes[0]));
        children.push(Child::Pane(panes[1]));
        let mut sizes: Vec<u16> = Vec::new();
        sizes.push(1);
        sizes.push(1);
        let s = Split { direction, children, parent: Some(parent), sizes, area: Rect::zero() };
        proof {
            assert(s@.children =~= seq![Child::Pane(panes@[0]), Child::Pane(panes@[1])]);
            assert(s@.sizes =~= seq![1u16, 1u16]);
        }
        s
    }

    /// Drag the border after child `border` to the cursor (see `utils::drag_to_cursor`).
    pub fn drag_to_cursor(&mut self, border: usize, cursor: Position)
        requires
            border + 1 < old(self).sizes@.len(),
            prefix_sum(old(self).sizes@, border as int) + border <= u16::MAX,
            old(self).sizes@[border as int] + old(self).sizes@[border + 1] <= u16::MAX,
        ensures
            final(self)@ == (SplitView {
                sizes: old(self).sizes@.update(
                    border as int,
                    dragged_size(old(self).sizes@, border as int, relative(cursor, old(self).direction, old(self).area)) as u16,
                ).update(
                    border + 1,
                    (old(self).sizes@[border as int] + old(self).sizes@[border + 1] - dragged_size(
                        old(self).sizes@, border as int, relative(cursor, old(self).direction, old(self).area))) as u16,
                ),
                ..old(self)@
            }),
    {
        crate::utils::drag_to_cursor(&mut self.sizes, border, cursor, self.direction, self.area);
    }

    /// Remove the n-th child and its size.
    pub fn remove(&mut self, child: usize)
        requires
            child < old(self).sizes@.len(),
            child < old(self).children@.len(),
        ensures
            final(self)@ == (SplitView {
                sizes: old(self).sizes@.remove(child as int),
                children: old(self).children@.remove(child as int),
                ..old(self)@
            }),
    {
        self.sizes.remove(child);
        self.children.remove(child);
    }
}

/// The shape of a split layout: the root has no parent; every other split has a parent that
/// lists it and is higher, and at least two children; every child is stored and points back
/// to its split; children are distinct; every pane is listed by its split.
pub open spec fn layout_ok(
    splits: Map<u64, Split>,
    panes: Map<u64, SplitKey>,
    root: u64,
    depth: Map<u64, nat>,
    height: nat,
) -> bool {
    &&& splits.dom().finite()
    &&& panes.dom().finite()
    &&& splits.contains_key(root)
    &&& splits[root].parent is None
    &&& forall|s: u64| #[trigger] splits.contains_key(s) ==> {
        &&& depth.contains_key(s)
        &&& depth[s] <= height
        &&& splits[s].sizes@.len() == splits[s].children@.len()
        &&& odd_version(s)
        &&& s != root ==> {
            &&& splits[s].children@.len() >= 2
            &&& splits[s].parent matches Some(p) && splits.contains_key(p.0) && depth[s] > depth[p.0]
                && splits[p.0].children@.contains(Child::Split(SplitKey(s)))
        }
    }
    &&& forall|s: u64, i: int| splits.contains_key(s) && 0 <= i < splits[s].children@.len() ==> match #[trigger] splits[s].children@[i] {
        Child::Pane(p) => panes.contains_key(p.0) && panes[p.0] == SplitKey(s),
        Child::Split(c) => splits.contains_key(c.0) && splits[c.0].parent == Some(SplitKey(s)),
    }
    &&& forall|s: u64, i: int, j: int| splits.contains_key(s) && 0 <= i < j < splits[s].children@.len() ==>
        #[trigger] splits[s].children@[i] != #[trigger] splits[s].children@[j]
    &&& forall|p: u64| #[trigger] panes.contains_key(p) ==> {
        &&& odd_version(p)
        &&& splits.contains_key(panes[p].0)
        &&& splits[panes[p].0].children@.contains(Child::Pane(PaneKey(p)))
    }
}


/// The pane reached from a split by always taking the first child.
pub open spec fn first_pane(splits: Map<u64, SplitView>, s: u64, fuel: nat) -> Option<PaneKey>
    decreases fuel,
{
    if fuel == 0 || !splits.contains_key(s) || splits[s].children.len() == 0 {
        None
    } else {
        match splits[s].children[0] {
            Child::Pane(p) => Some(p),
            Child::Split(c) => first_pane(splits, c.0, (fuel - 1) as nat),
        }
    }
}

/// The child of a split nearest to an index (the last child for an index past the end).
pub open spec fn nearest_child(splits: Map<u64, SplitView>, s: u64, index: int) -> Option<Child> {
    let n = splits[s].children.len();
    if n == 0 {
        None
    } else {
        Some(splits[s].children[if index < n { index } else { n - 1 }])
    }
}


/// The focus after closing the focused pane: the child of a split nearest to an index.
pub open spec fn focus_after(splits: Map<u64, SplitView>, s: u64, index: int, fuel: nat) -> Option<PaneKey> {
    match nearest_child(splits, s, index) {
        None => None,
        Some(Child::Pane(p)) => Some(p),
        Some(Child::Split(c)) => first_pane(splits, c.0, fuel),
    }
}

/// The pane whose widget gains the focus through a split, after closing the focused pane.
pub open spec fn focus_hook_after(splits: Map<u64, SplitView>, s: u64, index: int, fuel: nat) -> Option<PaneKey> {
    match nearest_child(splits, s, index) {
        Some(Child::Split(c)) => first_pane(splits, c.0, fuel),
        _ => None,
    }
}

/// What an `open` asks of the caller.
pub enum Opened {
    /// The focused pane shows the new widget in place of its old one (which is closed).
    Replaced(PaneKey),
    /// A new pane was added to the root split and focused: the new widget goes in it.
    Added(PaneKey),
}

pub struct Panes {
    /// The root is always a horizontal split
    root: SplitKey,
    drag: Option<(SplitKey, usize)>,
    splits: Store<Split>,
    /// The split holding each pane
    panes: Store<SplitKey>,
    focused: Option<PaneKey>,
    depth: Ghost<Map<u64, nat>>,
    height: Ghost<nat>,
}

impl Panes {
    pub closed spec fn splits_map(self) -> Map<u64, Split> {
        split_slots(self.splits)
    }

    /// The splits, as plain values.
    pub open spec fn splits_view(self) -> Map<u64, SplitView> {
        self.splits_map().map_values(|s: Split| s@)
    }

    /// The split holding each pane.
    pub closed spec fn panes_map(self) -> Map<u64, SplitKey> {
        pane_slots(self.panes)
    }

    pub closed spec fn root_spec(self) -> SplitKey {
        self.root
    }

    pub closed spec fn focused_spec(self) -> Option<PaneKey> {
        self.focused
    }

    pub closed spec fn drag_spec(self) -> Option<(SplitKey, usize)> {
        self.drag
    }

    pub closed spec fn wf(self) -> bool {
        &&& layout_ok(self.splits_map(), self.panes_map(), self.root.0, self.depth@, self.height@)
        &&& self.splits_map()[self.root.0].direction == Direction::Horizontal
        &&& self.focused matches Some(p) ==> self.panes_map().contains_key(p.0)
    }

    /// Index of a child in a split's children.
    pub open spec fn index_of(self, s: u64, c: Child) -> int {
        choose|i: int| 0 <= i < self.splits_view()[s].children.len() && self.splits_view()[s].children[i] == c
    }

    /// A layout with an empty root split and no panes.
    pub fn new() -> (p: Panes)
        ensures
            p.wf(),
            p.splits_view().dom() == set![p.root_spec().0],
            p.splits_view()[p.root_spec().0] == (SplitView {
                area: Rect { x: 0, y: 0, width: 0, height: 0 },
                direction: Direction::Horizontal,
                children: Seq::empty(),
                parent: None,
                sizes: Seq::empty(),
            }),
            p.panes_map().dom() == Set::<u64>::empty(),
            p.focused_spec() is None,
            p.drag_spec() is None,
    {
        let mut splits = splits_new();
        let root = SplitKey(splits_insert(&mut splits, Split {
            direction: Direction::Horizontal,
            children: Vec::new(),
            parent: None,
            sizes: Vec::new(),
            area: Rect::zero(),
        }));
        let p = Panes {
            root,
            drag: None,
            splits,
            panes: panes_new(),
            focused: None,
            depth: Ghost(Map::empty().insert(root.0, 0nat)),
            height: Ghost(0nat),
        };
        proof {
            assert(p.splits_map().dom() =~= set![root.0]);
            assert(p.splits_view().dom() =~= set![root.0]);
            assert(p.splits_view()[root.0].children =~= Seq::<Child>::empty());
            assert(p.splits_view()[root.0].sizes =~= Seq::<u16>::empty());
            assert(p.panes_map().dom() =~= Set::<u64>::empty());
        }
        p
    }

    pub fn root_key(&self) -> (k: SplitKey)
        ensures
            k == self.root_spec(),
    {
        self.root
    }

    pub fn focused(&self) -> (f: Option<PaneKey>)
        ensures
            f == self.focused_spec(),
    {
        self.focused
    }

    /// A split of the layout.
    pub fn split_at(&self, key: SplitKey) -> (s: &Split)
        requires
            self.splits_map().contains_key(key.0),
        ensures
            s@ == self.splits_view()[key.0],
    {
        splits_get(&self.splits, key.0)
    }

    /// Whether a split key is stored.
    pub fn has_split(&self, key: SplitKey) -> (b: bool)
        requires
            self.wf(),
        ensures
            b == self.splits_map().contains_key(key.0),
    {
        if (key.0 >> 32u64) % 2 != 1 {
            return false;
        }
        splits_contains(&self.splits, key.0)
    }

    /// Whether a pane key is stored.
    pub fn has_pane(&self, key: PaneKey) -> (b: bool)
        requires
            self.wf(),
        ensures
            b == self.panes_map().contains_key(key.0),
    {
        if (key.0 >> 32u64) % 2 != 1 {
            return false;
        }
        panes_contains(&self.panes, key.0)
    }

    /// The area where the layout was rendered last time.
    pub fn area(&self) -> (a: Rect)
        requires
            self.wf(),
        ensures
            a == self.splits_view()[self.root_spec().0].area,
    {
        splits_get(&self.splits, self.root.0).area
    }

    /// The index of a child in a split's children.
    fn child_index(&self, split: SplitKey, c: Child) -> (i: usize)
        requires
            self.wf(),
            self.splits_map().contains_key(split.0),
            self.splits_map()[split.0].children@.contains(c),
        ensures
            i < self.splits_map()[split.0].children@.len(),
            self.splits_map()[split.0].children@[i as int] == c,
            i == self.index_of(split.0, c),
    {
        let s = splits_get(&self.splits, split.0);
        proof {
            let sm = self.splits_map();
            assert forall|a: int, b: int| 0 <= a < b < s.children@.len() implies s.children@[a] != s.children@[b] by {
                assert(sm[split.0].children@[a] != sm[split.0].children@[b]);
            }
        }
        let mut i: usize = 0;
        while i < s.children.len()
            invariant
                i <= s.children@.len(),
                forall|j: int| 0 <= j < i ==> s.children@[j] != c,
                self.splits_map().contains_key(split.0),
                *s == self.splits_map()[split.0],
                s.children@.contains(c),
                forall|a: int, b: int| 0 <= a < b < s.children@.len() ==> s.children@[a] != s.children@[b],
            decreases s.children@.len() - i,
        {
            if s.children[i] == c {
                proof {
                    let j = self.index_of(split.0, c);
                    assert(self.splits_view()[split.0].children == s.children@);
                    if j != i {
                        if j < i {
                            assert(s.children@[j] != c);
                        } else {
                            assert(s.children@[i as int] != s.children@[j]);
                        }
                    }
                }
                return i;
            }
            i += 1;
        }
        proof {
            let x = choose|x: int| 0 <= x < s.children@.len() && s.children@[x] == c;
            assert(s.children@[x] != c);
        }
        0
    }

    /// The parent key of a pane, and the pane's index in the parent's children.
    fn pane_parent(&self, key: PaneKey) -> (r: (SplitKey, usize))
        requires
            self.wf(),
            self.panes_map().contains_key(key.0),
        ensures
            r.0 == self.panes_map()[key.0],
            self.splits_map().contains_key(r.0.0),
            r.1 < self.splits_map()[r.0.0].children@.len(),
            self.splits_map()[r.0.0].children@[r.1 as int] == Child::Pane(key),
            r.1 == self.index_of(r.0.0, Child::Pane(key)),
    {
        let parent = *panes_get(&self.panes, key.0);
        let i = self.child_index(parent, Child::Pane(key));
        (parent, i)
    }
}


impl Panes {
    /// Number of panes.
    pub fn pane_count(&self) -> (n: usize)
        ensures
            n == self.panes_map().len(),
    {
        panes_len(&self.panes)
    }

    /// Number of splits.
    pub fn split_count(&self) -> (n: usize)
        ensures
            n == self.splits_map().len(),
    {
        splits_len(&self.splits)
    }

    /// Focus a pane.
    pub fn focus(&mut self, key: PaneKey)
        requires
            old(self).wf(),
            old(self).panes_map().contains_key(key.0),
        ensures
            final(self).wf(),
            final(self).focused_spec() == Some(key),
            final(self).splits_map() == old(self).splits_map(),
            final(self).panes_map() == old(self).panes_map(),
            final(self).root_spec() == old(self).root_spec(),
            final(self).drag_spec() == old(self).drag_spec(),
    {
        self.focused = Some(key);
    }

    /// Open a widget in the focused pane; with no focused pane (the root split is empty, or
    /// was emptied), a new pane at the end of the root split gets it and the focus.
    #[verifier::spinoff_prover]
    pub fn open(&mut self) -> (r: Opened)
        requires
            old(self).wf(),
            old(self).panes_map().len() + 1 < slot_limit(),
        ensures
            final(self).wf(),
            old(self).focused_spec() matches Some(f) ==> r == Opened::Replaced(f) && *final(self) == *old(self),
            old(self).focused_spec() is None ==> (r matches Opened::Added(k) && {
                let root = old(self).root_spec().0;
                let rs = old(self).splits_view()[root];
                &&& !old(self).panes_map().contains_key(k.0)
                &&& final(self).panes_map() == old(self).panes_map().insert(k.0, old(self).root_spec())
                &&& final(self).splits_view() == old(self).splits_view().insert(root, SplitView {
                    children: rs.children.push(Child::Pane(k)),
                    sizes: rs.sizes.push(1),
                    ..rs
                })
                &&& final(self).focused_spec() == Some(k)
            }),
            final(self).root_spec() == old(self).root_spec(),
            final(self).drag_spec() == old(self).drag_spec(),
    {
        if let Some(focused) = self.focused {
            return Opened::Replaced(focused);
        }
        let ghost sm0 = self.splits_map();
        let ghost pm0 = self.panes_map();
        let root = self.root;
        let key = PaneKey(panes_insert(&mut self.panes, root));
        {
            let split = splits_get_mut(&mut self.splits, root.0);
            split.children.push(Child::Pane(key));
            split.sizes.push(1);
        }
        proof {
            let sm = self.splits_map();
            let pm = self.panes_map();
            let r = root.0;
            assert(sm.dom() =~= sm0.dom());
            assert(pm.dom() =~= pm0.dom().insert(key.0));
            assert forall|s: u64, i: int| sm.contains_key(s) && 0 <= i < sm[s].children@.len() implies match #[trigger] sm[s].children@[i] {
                Child::Pane(p) => pm.contains_key(p.0) && pm[p.0] == SplitKey(s),
                Child::Split(c) => sm.contains_key(c.0) && sm[c.0].parent == Some(SplitKey(s)),
            } by {
                if s == r && i == sm0[r].children@.len() {
                } else {
                    assert(sm[s].children@[i] == sm0[s].children@[i]);
                }
            }
            assert forall|s: u64, i: int, j: int| sm.contains_key(s) && 0 <= i < j < sm[s].children@.len() implies
                #[trigger] sm[s].children@[i] != #[trigger] sm[s].children@[j] by {
                if s == r && j == sm0[r].children@.len() {
                    assert(sm[s].children@[i] == sm0[s].children@[i]);
                    if let Child::Pane(p) = sm0[s].children@[i] {
                        assert(pm0.contains_key(p.0));
                    }
                } else {
                    assert(sm[s].children@[i] == sm0[s].children@[i]);
                    assert(sm[s].children@[j] == sm0[s].children@[j]);
                }
            }
            assert forall|s: u64| #[trigger] sm.contains_key(s) implies {
                &&& self.depth@.contains_key(s)
                &&& self.depth@[s] <= self.height@
                &&& sm[s].sizes@.len() == sm[s].children@.len()
                &&& odd_version(s)
                &&& s != r ==> {
                    &&& sm[s].children@.len() >= 2
                    &&& sm[s].parent matches Some(p) && sm.contains_key(p.0) && self.depth@[s] > self.depth@[p.0]
                        && sm[p.0].children@.contains(Child::Split(SplitKey(s)))
                }
            } by {
                if s != r {
                    let p = sm0[s].parent->0;
                    if p.0 == r {
                        let i = choose|i: int| 0 <= i < sm0[r].children@.len() && sm0[r].children@[i] == Child::Split(SplitKey(s));
                        assert(sm[r].children@[i] == Child::Split(SplitKey(s)));
                    }
                }
            }
            assert forall|p: u64| #[trigger] pm.contains_key(p) implies {
                &&& odd_version(p)
                &&& sm.contains_key(pm[p].0)
                &&& sm[pm[p].0].children@.contains(Child::Pane(PaneKey(p)))
            } by {
                if p == key.0 {
                    assert(sm[r].children@[sm0[r].children@.len() as int] == Child::Pane(key));
                } else {
                    let q = pm0[p].0;
                    let i = choose|i: int| 0 <= i < sm0[q].children@.len() && sm0[q].children@[i] == Child::Pane(PaneKey(p));
                    assert(sm[q].children@[i] == Child::Pane(PaneKey(p)));
                }
            }
            let rs = sm0[r]@;
            assert(self.splits_view() =~= old(self).splits_view().insert(r, SplitView {
                children: rs.children.push(Child::Pane(key)),
                sizes: rs.sizes.push(1),
                ..rs
            }));
        }
        self.focused = Some(key);
        Opened::Added(key)
    }
}

impl Panes {
    /// How the layout relates to itself after `split`, as that function's contract states it.
    pub open spec fn split_post(self, after: Panes, key: PaneKey, direction: Direction, clone: PaneKey) -> bool {
        &&& ({
                let parent = self.panes_map()[key.0];
                let ps = self.splits_view()[parent.0];
                let idx = self.index_of(parent.0, Child::Pane(key));
                &&& !self.panes_map().contains_key(clone.0)
                &&& ps.direction == direction ==> {
                    &&& after.panes_map() == self.panes_map().insert(clone.0, parent)
                    &&& after.splits_view() == self.splits_view().insert(parent.0, SplitView {
                        children: ps.children.insert(idx, Child::Pane(clone)),
                        sizes: ps.sizes.insert(idx, ps.sizes[idx]),
                        ..ps
                    })
                }
                &&& ps.direction != direction ==> exists|n: SplitKey| {
                    &&& !self.splits_map().contains_key(n.0)
                    &&& after.panes_map() == self.panes_map().insert(clone.0, n).insert(key.0, n)
                    &&& #[trigger] after.splits_view() == self.splits_view().insert(parent.0, SplitView {
                        children: ps.children.update(idx, Child::Split(n)),
                        ..ps
                    }).insert(n.0, SplitView {
                        area: Rect { x: 0, y: 0, width: 0, height: 0 },
                        direction,
                        children: seq![Child::Pane(key), Child::Pane(clone)],
                        parent: Some(parent),
                        sizes: seq![1u16, 1u16],
                    })
                }
            })
        &&& after.focused_spec() == Some(clone)
        &&& after.root_spec() == self.root_spec()
        &&& after.drag_spec() == self.drag_spec()
    }

    /// Split a pane along a direction: a new pane (for a clone of its widget) is placed before
    /// it, in its split when that split runs along the direction, or else with it in a new
    /// split that takes its place. The new pane is focused and returned.
    #[verifier::spinoff_prover]
    #[verifier::rlimit(60)]
    pub fn split(&mut self, key: PaneKey, direction: Direction) -> (clone: PaneKey)
        requires
            old(self).wf(),
            old(self).panes_map().contains_key(key.0),
            old(self).panes_map().len() + 1 < slot_limit(),
            old(self).splits_map().len() + 1 < slot_limit(),
        ensures
            final(self).wf(),
            old(self).split_post(*final(self), key, direction, clone),
    {
        let ghost sm0 = self.splits_map();
        let ghost pm0 = self.panes_map();
        let (parent, pane_index) = self.pane_parent(key);
        let clone = PaneKey(panes_insert(&mut self.panes, parent));
        proof {
            assert(!sm0[parent.0].children@.contains(Child::Pane(clone))) by {
                if sm0[parent.0].children@.contains(Child::Pane(clone)) {
                    let i = choose|i: int| 0 <= i < sm0[parent.0].children@.len() && sm0[parent.0].children@[i] == Child::Pane(clone);
                    assert(pm0.contains_key(clone.0));
                }
            }
        }
        if splits_get(&self.splits, parent.0).direction == direction {
            let width = splits_get(&self.splits, parent.0).sizes[pane_index];
            {
                let split = splits_get_mut(&mut self.splits, parent.0);
                split.children.insert(pane_index, Child::Pane(clone));
                split.sizes.insert(pane_index, width);
            }
            proof {
                let sm = self.splits_map();
                let pm = self.panes_map();
                let q = parent.0;
                let idx = pane_index as int;
                let old_c = sm0[q].children@;
                assert(sm.dom() =~= sm0.dom());
                assert(pm.dom() =~= pm0.dom().insert(clone.0));
                assert forall|s: u64, i: int| sm.contains_key(s) && 0 <= i < sm[s].children@.len() implies match #[trigger] sm[s].children@[i] {
                    Child::Pane(p) => pm.contains_key(p.0) && pm[p.0] == SplitKey(s),
                    Child::Split(c) => sm.contains_key(c.0) && sm[c.0].parent == Some(SplitKey(s)),
                } by {
                    if s == q {
                        if i < idx {
                            assert(sm[s].children@[i] == old_c[i]);
                        } else if i > idx {
                            assert(sm[s].children@[i] == old_c[i - 1]);
                        }
                    } else {
                        assert(sm[s].children@[i] == sm0[s].children@[i]);
                    }
                }
                assert forall|s: u64, i: int, j: int| sm.contains_key(s) && 0 <= i < j < sm[s].children@.len() implies
                    #[trigger] sm[s].children@[i] != #[trigger] sm[s].children@[j] by {
                    if s == q {
                        let oi = if i < idx { i } else { i - 1 };
                        let oj = if j < idx { j } else { j - 1 };
                        if i != idx && j != idx {
                            assert(sm[s].children@[i] == old_c[oi]);
                            assert(sm[s].children@[j] == old_c[oj]);
                        } else if i == idx {
                            assert(sm[s].children@[j] == old_c[oj]);
                        } else {
                            assert(sm[s].children@[i] == old_c[oi]);
                        }
                    } else {
                        assert(sm[s].children@[i] == sm0[s].children@[i]);
                        assert(sm[s].children@[j] == sm0[s].children@[j]);
                    }
                }
                assert forall|s: u64| #[trigger] sm.contains_key(s) implies {
                    &&& self.depth@.contains_key(s)
                    &&& self.depth@[s] <= self.height@
                    &&& sm[s].sizes@.len() == sm[s].children@.len()
                    &&& odd_version(s)
                    &&& s != self.root.0 ==> {
                        &&& sm[s].children@.len() >= 2
                        &&& sm[s].parent matches Some(p) && sm.contains_key(p.0) && self.depth@[s] > self.depth@[p.0]
                            && sm[p.0].children@.contains(Child::Split(SplitKey(s)))
                    }
                } by {
                    if s != self.root.0 {
                        let p = sm0[s].parent->0;
                        if p.0 == q {
                            let i = choose|i: int| 0 <= i < old_c.len() && old_c[i] == Child::Split(SplitKey(s));
                            if i < idx {
                                assert(sm[q].children@[i] == Child::Split(SplitKey(s)));
                            } else {
                                assert(sm[q].children@[i + 1] == Child::Split(SplitKey(s)));
                            }
                        }
                    }
                }
                assert forall|p: u64| #[trigger] pm.contains_key(p) implies {
                    &&& odd_version(p)
                    &&& sm.contains_key(pm[p].0)
                    &&& sm[pm[p].0].children@.contains(Child::Pane(PaneKey(p)))
                } by {
                    if p == clone.0 {
                        assert(sm[q].children@[idx] == Child::Pane(clone));
                    } else {
                        let r = pm0[p].0;
                        let i = choose|i: int| 0 <= i < sm0[r].children@.len() && sm0[r].children@[i] == Child::Pane(PaneKey(p));
                        if r == q {
                            if i < idx {
                                assert(sm[r].children@[i] == Child::Pane(PaneKey(p)));
                            } else {
                                assert(sm[r].children@[i + 1] == Child::Pane(PaneKey(p)));
                            }
                        } else {
                            assert(sm[r].children@[i] == Child::Pane(PaneKey(p)));
                        }
                    }
                }
                let ps = sm0[q]@;
                assert(self.splits_view() =~= old(self).splits_view().insert(q, SplitView {
                    children: ps.children.insert(idx, Child::Pane(clone)),
                    sizes: ps.sizes.insert(idx, ps.sizes[idx]),
                    ..ps
                }));
            }
        } else {
            let split = Split::new(direction, parent, [key, clone]);
            let new_key = SplitKey(splits_insert(&mut self.splits, split));
            {
                let p = splits_get_mut(&mut self.splits, parent.0);
                p.children.set(pane_index, Child::Split(new_key));
            }
            *panes_get_mut(&mut self.panes, key.0) = new_key;
            *panes_get_mut(&mut self.panes, clone.0) = new_key;
            proof {
                let d = self.depth@[parent.0] + 1;
                self.depth@ = self.depth@.insert(new_key.0, d);
                if d > self.height@ {
                    self.height@ = d;
                }
            }
            proof {
                let sm = self.splits_map();
                let pm = self.panes_map();
                let q = parent.0;
                let n = new_key.0;
                let idx = pane_index as int;
                let old_c = sm0[q].children@;
                assert(n != q);
                assert(sm.dom() =~= sm0.dom().insert(n));
                assert(pm.dom() =~= pm0.dom().insert(clone.0));
                assert(sm[n]@.children == seq![Child::Pane(key), Child::Pane(clone)]);
                assert(sm[n].children@[0] == Child::Pane(key));
                assert(sm[n].children@[1] == Child::Pane(clone));
                assert(!old_c.contains(Child::Split(new_key))) by {
                    if old_c.contains(Child::Split(new_key)) {
                        let i = choose|i: int| 0 <= i < old_c.len() && old_c[i] == Child::Split(new_key);
                        assert(sm0[q].children@[i] == Child::Split(new_key));
                    }
                }
                assert forall|s: u64, i: int| sm.contains_key(s) && 0 <= i < sm[s].children@.len() implies match #[trigger] sm[s].children@[i] {
                    Child::Pane(p) => pm.contains_key(p.0) && pm[p.0] == SplitKey(s),
                    Child::Split(c) => sm.contains_key(c.0) && sm[c.0].parent == Some(SplitKey(s)),
                } by {
                    if s == n {
                    } else if s == q {
                        if i != idx {
                            assert(sm[s].children@[i] == old_c[i]);
                            if let Child::Pane(p) = old_c[i] {
                                assert(p != key);
                            }
                        }
                    } else {
                        assert(sm[s].children@[i] == sm0[s].children@[i]);
                        if let Child::Pane(p) = sm0[s].children@[i] {
                            assert(pm0[p.0] == SplitKey(s));
                        }
                    }
                }
                assert forall|s: u64, i: int, j: int| sm.contains_key(s) && 0 <= i < j < sm[s].children@.len() implies
                    #[trigger] sm[s].children@[i] != #[trigger] sm[s].children@[j] by {
                    if s == n {
                    } else if s == q {
                        if i != idx && j != idx {
                            assert(sm[s].children@[i] == old_c[i]);
                            assert(sm[s].children@[j] == old_c[j]);
                        } else if i == idx {
                            assert(sm[s].children@[j] == old_c[j]);
                        } else {
                            assert(sm[s].children@[i] == old_c[i]);
                        }
                    } else {
                        assert(sm[s].children@[i] == sm0[s].children@[i]);
                        assert(sm[s].children@[j] == sm0[s].children@[j]);
                    }
                }
                assert forall|s: u64| #[trigger] sm.contains_key(s) implies {
                    &&& self.depth@.contains_key(s)
                    &&& self.depth@[s] <= self.height@
                    &&& sm[s].sizes@.len() == sm[s].children@.len()
                    &&& odd_version(s)
                    &&& s != self.root.0 ==> {
                        &&& sm[s].children@.len() >= 2
                        &&& sm[s].parent matches Some(p) && sm.contains_key(p.0) && self.depth@[s] > self.depth@[p.0]
                            && sm[p.0].children@.contains(Child::Split(SplitKey(s)))
                    }
                } by {
                    if s == n {
                        assert(sm[q].children@[idx] == Child::Split(new_key));
                    } else if s != self.root.0 {
                        let p = sm0[s].parent->0;
                        if p.0 == q {
                            let i = choose|i: int| 0 <= i < old_c.len() && old_c[i] == Child::Split(SplitKey(s));
                            assert(i != idx);
                            assert(sm[q].children@[i] == Child::Split(SplitKey(s)));
                        }
                    }
                }
                assert forall|p: u64| #[trigger] pm.contains_key(p) implies {
                    &&& odd_version(p)
                    &&& sm.contains_key(pm[p].0)
                    &&& sm[pm[p].0].children@.contains(Child::Pane(PaneKey(p)))
                } by {
                    if p == clone.0 || p == key.0 {
                    } else {
                        let r = pm0[p].0;
                        let i = choose|i: int| 0 <= i < sm0[r].children@.len() && sm0[r].children@[i] == Child::Pane(PaneKey(p));
                        if r == q {
                            assert(i != idx);
                        }
                        assert(sm[r].children@[i] == Child::Pane(PaneKey(p)));
                    }
                }
                let ps = sm0[q]@;
                assert(self.splits_view() =~= old(self).splits_view().insert(q, SplitView {
                    children: ps.children.update(idx, Child::Split(new_key)),
                    ..ps
                }).insert(n, SplitView {
                    area: Rect { x: 0, y: 0, width: 0, height: 0 },
                    direction,
                    children: seq![Child::Pane(key), Child::Pane(clone)],
                    parent: Some(parent),
                    sizes: seq![1u16, 1u16],
                }));
                assert(pm =~= pm0.insert(clone.0, new_key).insert(key.0, new_key));
            }
        }
        self.focused = Some(clone);
        clone
    }
}

impl Panes {
    /// A recursion bound above every split's depth.
    pub closed spec fn fuel(self) -> nat {
        self.height@ + 1
    }

    /// Focus the first pane found by always taking the first child, from a split; with none,
    /// nothing is focused. Returns the pane focused.
    fn focus_first_pane(&mut self, split: SplitKey, Ghost(fuel): Ghost<nat>) -> (r: Option<PaneKey>)
        requires
            old(self).wf(),
            old(self).splits_map().contains_key(split.0),
            fuel > old(self).height@ - old(self).depth@[split.0],
        ensures
            final(self).wf(),
            r == first_pane(old(self).splits_view(), split.0, fuel),
            final(self).focused_spec() == r,
            final(self).splits_map() == old(self).splits_map(),
            final(self).panes_map() == old(self).panes_map(),
            final(self).root_spec() == old(self).root_spec(),
            final(self).drag_spec() == old(self).drag_spec(),
            final(self).depth == old(self).depth,
            final(self).height == old(self).height,
        decreases fuel,
    {
        let s = splits_get(&self.splits, split.0);
        proof {
            assert(self.splits_view()[split.0] == s@);
        }
        if s.children.len() == 0 {
            self.focused = None;
            return None;
        }
        match s.children[0] {
            Child::Pane(pane) => {
                proof {
                    assert(self.splits_map()[split.0].children@[0] == Child::Pane(pane));
                }
                self.focused = Some(pane);
                Some(pane)
            },
            Child::Split(child) => {
                proof {
                    let sm = self.splits_map();
                    assert(sm[split.0].children@[0] == Child::Split(child));
                    assert(sm.contains_key(child.0));
                    assert(child.0 != self.root.0);
                    assert(sm[child.0].parent == Some(split));
                }
                self.focus_first_pane(child, Ghost((fuel - 1) as nat))
            },
        }
    }

    /// Focus the child of a split nearest to an index: a pane directly, a split through its
    /// first pane. With no child, nothing is focused. Returns the pane whose widget gains the
    /// focus through a split.
    fn focus_nearest_sibling(&mut self, split: SplitKey, index: usize) -> (r: Option<PaneKey>)
        requires
            old(self).wf(),
            old(self).splits_map().contains_key(split.0),
        ensures
            final(self).wf(),
            match nearest_child(old(self).splits_view(), split.0, index as int) {
                None => final(self).focused_spec() is None && r is None,
                Some(Child::Pane(p)) => final(self).focused_spec() == Some(p) && r is None,
                Some(Child::Split(c)) => final(self).focused_spec() == first_pane(old(self).splits_view(), c.0, old(self).fuel())
                    && r == final(self).focused_spec(),
            },
            final(self).splits_map() == old(self).splits_map(),
            final(self).panes_map() == old(self).panes_map(),
            final(self).root_spec() == old(self).root_spec(),
            final(self).drag_spec() == old(self).drag_spec(),
            final(self).depth == old(self).depth,
            final(self).height == old(self).height,
    {
        let s = splits_get(&self.splits, split.0);
        proof {
            assert(self.splits_view()[split.0] == s@);
        }
        let n = s.children.len();
        if n == 0 {
            self.focused = None;
            return None;
        }
        let i = if index < n - 1 { index } else { n - 1 };
        match s.children[i] {
            Child::Pane(pane) => {
                proof {
                    assert(self.splits_map()[split.0].children@[i as int] == Child::Pane(pane));
                }
                self.focused = Some(pane);
                None
            },
            Child::Split(child) => {
                proof {
                    let sm = self.splits_map();
                    assert(sm[split.0].children@[i as int] == Child::Split(child));
                    assert(sm.contains_key(child.0));
                }
                self.focus_first_pane(child, Ghost(self.height@ + 1))
            },
        }
    }
}

impl Panes {
    /// Whether closing the pane removes it from its split directly (the split keeps more than
    /// one child, or is the root), rather than replacing its split by the remaining sibling.
    pub open spec fn closes_in_place(self, key: PaneKey) -> bool {
        let ps = self.splits_view()[self.panes_map()[key.0].0];
        ps.children.len() > 2 || ps.parent is None
    }

    /// Remove a pane from its split, which keeps its other children.
    #[verifier::spinoff_prover]
    #[verifier::rlimit(60)]
    fn remove_in_place(&mut self, key: PaneKey, parent: SplitKey, pane_index: usize)
        requires
            old(self).wf(),
            old(self).panes_map().contains_key(key.0),
            parent == old(self).panes_map()[key.0],
            pane_index < old(self).splits_map()[parent.0].children@.len(),
            old(self).splits_map()[parent.0].children@[pane_index as int] == Child::Pane(key),
            old(self).splits_map()[parent.0].children@.len() > 2
                || old(self).splits_map()[parent.0].parent is None,
            old(self).focused_spec() != Some(key),
        ensures
            final(self).wf(),
            final(self).panes_map() == old(self).panes_map().remove(key.0),
            final(self).splits_view() == old(self).splits_view().insert(parent.0, SplitView {
                children: old(self).splits_view()[parent.0].children.remove(pane_index as int),
                sizes: old(self).splits_view()[parent.0].sizes.remove(pane_index as int),
                ..old(self).splits_view()[parent.0]
            }),
            final(self).splits_map().contains_key(parent.0),
            final(self).focused_spec() == old(self).focused_spec(),
            final(self).root_spec() == old(self).root_spec(),
            final(self).drag_spec() == old(self).drag_spec(),
            final(self).fuel() == old(self).fuel(),
    {
        let ghost sm0 = self.splits_map();
        let ghost pm0 = self.panes_map();
        let ghost old_self = *self;
        let _ = panes_remove(&mut self.panes, key.0);
        splits_get_mut(&mut self.splits, parent.0).remove(pane_index);
        proof {
            let sm = self.splits_map();
            let pm = self.panes_map();
            let q = parent.0;
            let idx = pane_index as int;
            let old_c = sm0[q].children@;
            assert(sm.dom() =~= sm0.dom());
            assert(pm.dom() =~= pm0.dom().remove(key.0));
            assert forall|s: u64, i: int| sm.contains_key(s) && 0 <= i < sm[s].children@.len() implies match #[trigger] sm[s].children@[i] {
                Child::Pane(p) => pm.contains_key(p.0) && pm[p.0] == SplitKey(s),
                Child::Split(c) => sm.contains_key(c.0) && sm[c.0].parent == Some(SplitKey(s)),
            } by {
                let oi = if s == q && i >= idx { i + 1 } else { i };
                assert(sm[s].children@[i] == sm0[s].children@[oi]);
                if let Child::Pane(p) = sm0[s].children@[oi] {
                    if p == key {
                        assert(s == q);
                        assert(old_c[oi] == old_c[idx]);
                    }
                }
            }
            assert forall|s: u64, i: int, j: int| sm.contains_key(s) && 0 <= i < j < sm[s].children@.len() implies
                #[trigger] sm[s].children@[i] != #[trigger] sm[s].children@[j] by {
                let oi = if s == q && i >= idx { i + 1 } else { i };
                let oj = if s == q && j >= idx { j + 1 } else { j };
                assert(sm[s].children@[i] == sm0[s].children@[oi]);
                assert(sm[s].children@[j] == sm0[s].children@[oj]);
            }
            assert forall|s: u64| #[trigger] sm.contains_key(s) implies {
                &&& self.depth@.contains_key(s)
                &&& self.depth@[s] <= self.height@
                &&& sm[s].sizes@.len() == sm[s].children@.len()
                &&& odd_version(s)
                &&& s != self.root.0 ==> {
                    &&& sm[s].children@.len() >= 2
                    &&& sm[s].parent matches Some(p) && sm.contains_key(p.0) && self.depth@[s] > self.depth@[p.0]
                        && sm[p.0].children@.contains(Child::Split(SplitKey(s)))
                }
            } by {
                if s != self.root.0 {
                    let p = sm0[s].parent->0;
                    if p.0 == q {
                        let i = choose|i: int| 0 <= i < old_c.len() && old_c[i] == Child::Split(SplitKey(s));
                        assert(i != idx);
                        let ni = if i < idx { i } else { i - 1 };
                        assert(sm[q].children@[ni] == Child::Split(SplitKey(s)));
                    }
                }
            }
            assert forall|p: u64| #[trigger] pm.contains_key(p) implies {
                &&& odd_version(p)
                &&& sm.contains_key(pm[p].0)
                &&& sm[pm[p].0].children@.contains(Child::Pane(PaneKey(p)))
            } by {
                let r = pm0[p].0;
                let i = choose|i: int| 0 <= i < sm0[r].children@.len() && sm0[r].children@[i] == Child::Pane(PaneKey(p));
                if r == q {
                    assert(i != idx);
                    let ni = if i < idx { i } else { i - 1 };
                    assert(sm[r].children@[ni] == Child::Pane(PaneKey(p)));
                } else {
                    assert(sm[r].children@[i] == Child::Pane(PaneKey(p)));
                }
            }
            let ps = sm0[q]@;
            assert(self.splits_view() =~= old_self.splits_view().insert(q, SplitView {
                children: ps.children.remove(idx),
                sizes: ps.sizes.remove(idx),
                ..ps
            }));
            if let Some(f) = self.focused {
                assert(pm.contains_key(f.0));
            }
        }
    }

    /// Remove a pane from a split of two children other than the root: the split is removed
    /// and the remaining child takes its place in the split above. Returns that place.
    #[verifier::spinoff_prover]
    #[verifier::rlimit(100)]
    fn collapse(&mut self, key: PaneKey, parent: SplitKey, pane_index: usize) -> (index: usize)
        requires
            old(self).wf(),
            old(self).panes_map().contains_key(key.0),
            parent == old(self).panes_map()[key.0],
            pane_index < old(self).splits_map()[parent.0].children@.len(),
            old(self).splits_map()[parent.0].children@[pane_index as int] == Child::Pane(key),
            old(self).splits_map()[parent.0].children@.len() <= 2,
            old(self).splits_map()[parent.0].parent is Some,
            old(self).focused_spec() != Some(key),
        ensures
            final(self).wf(),
            ({
                let ps = old(self).splits_view()[parent.0];
                let remaining = ps.children[1 - pane_index];
                let g = ps.parent->0;
                let gs = old(self).splits_view()[g.0];
                let sv = old(self).splits_view().remove(parent.0).insert(g.0, SplitView {
                    children: gs.children.update(index as int, remaining),
                    ..gs
                });
                &&& index == old(self).index_of(g.0, Child::Split(parent))
                &&& final(self).splits_view() == match remaining {
                    Child::Split(c) => sv.insert(c.0, SplitView { parent: Some(g), ..sv[c.0] }),
                    Child::Pane(_) => sv,
                }
                &&& final(self).panes_map() == match remaining {
                    Child::Pane(r) => old(self).panes_map().remove(key.0).insert(r.0, g),
                    Child::Split(_) => old(self).panes_map().remove(key.0),
                }
            }),
            final(self).splits_map().contains_key(old(self).splits_view()[parent.0].parent.unwrap().0),
            final(self).focused_spec() == old(self).focused_spec(),
            final(self).root_spec() == old(self).root_spec(),
            final(self).drag_spec() == old(self).drag_spec(),
            final(self).fuel() == old(self).fuel(),
    {
        let ghost sm0 = self.splits_map();
        let ghost pm0 = self.panes_map();
        let ghost old_self = *self;
        let g = splits_get(&self.splits, parent.0).parent.unwrap();
        proof {
            assert(parent.0 != self.root.0);
            assert(sm0[parent.0].children@.len() == 2);
        }
        let remaining = splits_get(&self.splits, parent.0).children[1 - pane_index];
        let index = self.child_index(g, Child::Split(parent));
        let _ = panes_remove(&mut self.panes, key.0);
        let _ = splits_remove(&mut self.splits, parent.0);
        splits_get_mut(&mut self.splits, g.0).children.set(index, remaining);
        match remaining {
            Child::Pane(pane) => {
                *panes_get_mut(&mut self.panes, pane.0) = g;
            },
            Child::Split(child) => {
                splits_get_mut(&mut self.splits, child.0).parent = Some(g);
            },
        }
        proof {
            let sm = self.splits_map();
            let pm = self.panes_map();
            let q = parent.0;
            let idx = pane_index as int;
            let old_c = sm0[q].children@;
            let gc = sm0[g.0].children@;
            let j = index as int;
            assert(remaining == old_c[1 - idx]);
            assert(remaining != Child::Pane(key));
            assert(q != g.0);
            assert(gc[j] == Child::Split(parent));
            assert forall|s: u64| #[trigger] sm0.contains_key(s) && sm0[s].parent == Some(parent) implies
                Child::Split(SplitKey(s)) == remaining by {
                if s != self.root.0 {
                    let i = choose|i: int| 0 <= i < old_c.len() && old_c[i] == Child::Split(SplitKey(s));
                    assert(i == 1 - idx);
                }
            }
            assert forall|p: u64| #[trigger] pm0.contains_key(p) && pm0[p] == parent implies
                p == key.0 || Child::Pane(PaneKey(p)) == remaining by {
                let i = choose|i: int| 0 <= i < old_c.len() && old_c[i] == Child::Pane(PaneKey(p));
                if i == idx {
                    assert(old_c[idx] == Child::Pane(key));
                }
            }
            assert(!gc.contains(remaining)) by {
                if gc.contains(remaining) {
                    let i = choose|i: int| 0 <= i < gc.len() && gc[i] == remaining;
                    assert(sm0[g.0].children@[i] == remaining);
                }
            }
            assert(sm.dom() =~= sm0.dom().remove(q));
            assert(pm.dom() =~= pm0.dom().remove(key.0));
            assert forall|s: u64, i: int| sm.contains_key(s) && 0 <= i < sm[s].children@.len() implies match #[trigger] sm[s].children@[i] {
                Child::Pane(p) => pm.contains_key(p.0) && pm[p.0] == SplitKey(s),
                Child::Split(c) => sm.contains_key(c.0) && sm[c.0].parent == Some(SplitKey(s)),
            } by {
                assert(sm0.contains_key(s));
                if s == g.0 && i == j {
                } else {
                    assert(sm[s].children@[i] == sm0[s].children@[i]);
                    match sm0[s].children@[i] {
                        Child::Pane(p) => {
                            assert(pm0[p.0] == SplitKey(s));
                        },
                        Child::Split(c) => {
                            assert(sm0[c.0].parent == Some(SplitKey(s)));
                            if c.0 == q {
                                assert(gc[i] == gc[j]);
                            }
                        },
                    }
                }
            }
            assert forall|s: u64, i: int, k: int| sm.contains_key(s) && 0 <= i < k < sm[s].children@.len() implies
                #[trigger] sm[s].children@[i] != #[trigger] sm[s].children@[k] by {
                if s == g.0 {
                    if i != j {
                        assert(sm[s].children@[i] == gc[i]);
                    }
                    if k != j {
                        assert(sm[s].children@[k] == gc[k]);
                    }
                } else {
                    assert(sm[s].children@[i] == sm0[s].children@[i]);
                    assert(sm[s].children@[k] == sm0[s].children@[k]);
                }
            }
            assert forall|s: u64| #[trigger] sm.contains_key(s) implies {
                &&& self.depth@.contains_key(s)
                &&& self.depth@[s] <= self.height@
                &&& sm[s].sizes@.len() == sm[s].children@.len()
                &&& odd_version(s)
                &&& s != self.root.0 ==> {
                    &&& sm[s].children@.len() >= 2
                    &&& sm[s].parent matches Some(p) && sm.contains_key(p.0) && self.depth@[s] > self.depth@[p.0]
                        && sm[p.0].children@.contains(Child::Split(SplitKey(s)))
                }
            } by {
                assert(sm0.contains_key(s));
                if s != self.root.0 {
                    if remaining == Child::Split(SplitKey(s)) {
                        assert(sm[g.0].children@[j] == remaining);
                    } else {
                        let p = sm0[s].parent->0;
                        assert(p != parent);
                        let i = choose|i: int| 0 <= i < sm0[p.0].children@.len() && sm0[p.0].children@[i] == Child::Split(SplitKey(s));
                        if p == g {
                            assert(i != j);
                        }
                        assert(sm[p.0].children@[i] == Child::Split(SplitKey(s)));
                    }
                }
            }
            assert forall|p: u64| #[trigger] pm.contains_key(p) implies {
                &&& odd_version(p)
                &&& sm.contains_key(pm[p].0)
                &&& sm[pm[p].0].children@.contains(Child::Pane(PaneKey(p)))
            } by {
                if remaining == Child::Pane(PaneKey(p)) {
                    assert(sm[g.0].children@[j] == remaining);
                } else {
                    let r = pm0[p].0;
                    assert(r != q);
                    let i = choose|i: int| 0 <= i < sm0[r].children@.len() && sm0[r].children@[i] == Child::Pane(PaneKey(p));
                    if r == g.0 {
                        assert(i != j);
                    }
                    assert(sm[r].children@[i] == Child::Pane(PaneKey(p)));
                }
            }
            let gs = sm0[g.0]@;
            let sv = old_self.splits_view().remove(q).insert(g.0, SplitView {
                children: gs.children.update(j, remaining),
                ..gs
            });
            match remaining {
                Child::Split(c) => {
                    assert(self.splits_view() =~= sv.insert(c.0, SplitView { parent: Some(g), ..sv[c.0] }));
                    assert(pm =~= pm0.remove(key.0));
                },
                Child::Pane(r) => {
                    assert(self.splits_view() =~= sv);
                    assert(pm =~= pm0.remove(key.0).insert(r.0, g));
                },
            }
            if let Some(f) = self.focused {
                assert(pm0.contains_key(f.0));
            }
        }
        index
    }

    /// How the layout relates to itself after `close`, as that function's contract states it.
    pub open spec fn close_post(self, after: Panes, key: PaneKey, hook: Option<PaneKey>) -> bool {
        &&& ({
                let parent = self.panes_map()[key.0];
                let ps = self.splits_view()[parent.0];
                let idx = self.index_of(parent.0, Child::Pane(key));
                let change = self.focused_spec() == Some(key);
                &&& self.closes_in_place(key) ==> {
                    &&& after.panes_map() == self.panes_map().remove(key.0)
                    &&& after.splits_view() == self.splits_view().insert(parent.0, SplitView {
                        children: ps.children.remove(idx),
                        sizes: ps.sizes.remove(idx),
                        ..ps
                    })
                    &&& change ==> after.focused_spec() == focus_after(after.splits_view(), parent.0, idx, self.fuel())
                        && hook == focus_hook_after(after.splits_view(), parent.0, idx, self.fuel())
                }
                &&& !self.closes_in_place(key) ==> {
                    let remaining = ps.children[1 - idx];
                    let g = ps.parent->0;
                    let gs = self.splits_view()[g.0];
                    let j = self.index_of(g.0, Child::Split(parent));
                    let sv = self.splits_view().remove(parent.0).insert(g.0, SplitView {
                        children: gs.children.update(j, remaining),
                        ..gs
                    });
                    &&& after.splits_view() == match remaining {
                        Child::Split(c) => sv.insert(c.0, SplitView { parent: Some(g), ..sv[c.0] }),
                        Child::Pane(_) => sv,
                    }
                    &&& after.panes_map() == match remaining {
                        Child::Pane(r) => self.panes_map().remove(key.0).insert(r.0, g),
                        Child::Split(_) => self.panes_map().remove(key.0),
                    }
                    &&& change ==> after.focused_spec() == focus_after(after.splits_view(), g.0, j, self.fuel())
                        && hook == focus_hook_after(after.splits_view(), g.0, j, self.fuel())
                }
                &&& !change ==> after.focused_spec() == self.focused_spec() && hook is None
            })
        &&& after.root_spec() == self.root_spec()
        &&& after.drag_spec() == self.drag_spec()
    }

    /// Close a pane. Its split loses it; a split other than the root left with a single child is
    /// replaced by that child in its own parent. When the closed pane had the focus, the
    /// sibling nearest to its place gets it. Returns the pane whose widget gains the focus
    /// through a split.
    pub fn close(&mut self, key: PaneKey) -> (hook: Option<PaneKey>)
        requires
            old(self).wf(),
            old(self).panes_map().contains_key(key.0),
        ensures
            final(self).wf(),
            old(self).close_post(*final(self), key, hook),
    {
        let (parent, pane_index) = self.pane_parent(key);
        let change_focus = match self.focused {
            Some(f) => f == key,
            None => false,
        };
        if change_focus {
            self.focused = None;
        }
        let n = splits_get(&self.splits, parent.0).children.len();
        let split_parent = splits_get(&self.splits, parent.0).parent;
        if n > 2 || split_parent.is_none() {
            self.remove_in_place(key, parent, pane_index);
            if change_focus {
                return self.focus_nearest_sibling(parent, pane_index);
            }
            return None;
        }
        let g = split_parent.unwrap();
        let index = self.collapse(key, parent, pane_index);
        if change_focus {
            return self.focus_nearest_sibling(g, index);
        }
        None
    }
}

/// What a click lands on.
#[derive(Clone, Copy, PartialEq, Eq, Debug, Structural)]
pub enum ClickResult {
    Pane(PaneKey),
    /// The border after a child of a split.
    Border(SplitKey, usize),
}

/// A click on a split, the cursor being `rel` cells along the split's direction: the child
/// whose span holds it (a split child only when its area holds the cursor, else the border
/// after it), or the border after a child. `None` is an offset past the cell range.
pub open spec fn click_scan(sv: Map<u64, SplitView>, key: u64, pos: Position, rel: int, i: int, offset: int, fuel: nat) -> Option<Option<ClickResult>>
    decreases fuel, sv[key].children.len() - i,
{
    let s = sv[key];
    if i < 0 || i >= s.children.len() {
        Some(None)
    } else {
        let o1 = offset + s.sizes[i];
        let o2 = o1 + 1;
        if o1 > u16::MAX {
            None
        } else if rel < o1 && s.children[i] is Pane {
            Some(Some(ClickResult::Pane(s.children[i]->Pane_0)))
        } else if rel < o1 && s.children[i] is Split && sv[s.children[i]->Split_0.0].area.spec_contains(pos) {
            if fuel == 0 { Some(None) } else { click_at(sv, s.children[i]->Split_0.0, pos, (fuel - 1) as nat) }
        } else if o2 > u16::MAX {
            None
        } else if rel < o2 {
            Some(Some(ClickResult::Border(SplitKey(key), i as usize)))
        } else {
            click_scan(sv, key, pos, rel, i + 1, o2, fuel)
        }
    }
}

/// A click through a split, relative to its area (saturating at its start).
pub open spec fn click_at(sv: Map<u64, SplitView>, key: u64, pos: Position, fuel: nat) -> Option<Option<ClickResult>>
    decreases fuel, sv[key].children.len() + 1,
{
    click_scan(sv, key, pos, relative(pos, sv[key].direction, sv[key].area), 0, 0, fuel)
}

/// Like `click_scan`, without stopping at borders: the span of each child takes the border
/// after it, and a split child whose area does not hold the cursor is passed over.
pub open spec fn focus_scan(sv: Map<u64, SplitView>, key: u64, pos: Position, rel: int, i: int, offset: int, fuel: nat) -> Option<Option<PaneKey>>
    decreases fuel, sv[key].children.len() - i,
{
    let s = sv[key];
    if i < 0 || i >= s.children.len() {
        Some(None)
    } else {
        let o = offset + s.sizes[i] + 1;
        if s.sizes[i] + 1 > u16::MAX || o > u16::MAX {
            None
        } else if rel < o && s.children[i] is Pane {
            Some(Some(s.children[i]->Pane_0))
        } else if rel < o && s.children[i] is Split && sv[s.children[i]->Split_0.0].area.spec_contains(pos) {
            if fuel == 0 { Some(None) } else { focus_at(sv, s.children[i]->Split_0.0, pos, (fuel - 1) as nat) }
        } else {
            focus_scan(sv, key, pos, rel, i + 1, o, fuel)
        }
    }
}

/// Focus through a split, relative to its area (saturating at its start).
pub open spec fn focus_at(sv: Map<u64, SplitView>, key: u64, pos: Position, fuel: nat) -> Option<Option<PaneKey>>
    decreases fuel, sv[key].children.len() + 1,
{
    focus_scan(sv, key, pos, relative(pos, sv[key].direction, sv[key].area), 0, 0, fuel)
}

/// The pane a scroll goes to through a split whose area holds the cursor: the child whose
/// span holds the cursor, if it is a pane, or the pane found through it, if it is a split.
pub open spec fn scroll_scan(sv: Map<u64, SplitView>, key: u64, pos: Position, rel: int, i: int, offset: int, fuel: nat) -> Option<Option<PaneKey>>
    decreases fuel, sv[key].children.len() - i,
{
    let s = sv[key];
    if i < 0 || i >= s.children.len() {
        Some(None)
    } else {
        let o1 = offset + s.sizes[i];
        if o1 > u16::MAX {
            None
        } else if rel < o1 {
            match s.children[i] {
                Child::Pane(p) => Some(Some(p)),
                Child::Split(c) => if fuel == 0 { Some(None) } else { scroll_at(sv, c.0, pos, (fuel - 1) as nat) },
            }
        } else if o1 + 1 > u16::MAX {
            None
        } else {
            scroll_scan(sv, key, pos, rel, i + 1, o1 + 1, fuel)
        }
    }
}

/// A scroll through a split: nothing when its area does not hold the cursor.
pub open spec fn scroll_at(sv: Map<u64, SplitView>, key: u64, pos: Position, fuel: nat) -> Option<Option<PaneKey>>
    decreases fuel, sv[key].children.len() + 1,
{
    if !sv[key].area.spec_contains(pos) {
        Some(None)
    } else {
        scroll_scan(sv, key, pos, relative(pos, sv[key].direction, sv[key].area), 0, 0, fuel)
    }
}

impl Panes {
    fn relative_to(split: &Split, pos: Position) -> (r: u16)
        ensures
            r == relative(pos, split.direction, split.area),
    {
        match split.direction {
            Direction::Horizontal => pos.x.saturating_sub(split.area.x),
            Direction::Vertical => pos.y.saturating_sub(split.area.y),
        }
    }

    /// Whether a click at a position through a split stays within the cell range.
    fn click_defined_at(&self, pos: Position, key: SplitKey, Ghost(fuel): Ghost<nat>) -> (b: bool)
        requires
            self.wf(),
            self.splits_map().contains_key(key.0),
            fuel > self.height@ - self.depth@[key.0],
        ensures
            b == click_at(self.splits_view(), key.0, pos, fuel) is Some,
        decreases fuel,
    {
        let ghost sv = self.splits_view();
        let split = splits_get(&self.splits, key.0);
        let rel = Panes::relative_to(split, pos);
        proof {
            assert(sv[key.0] == split@);
        }
        let mut offset: u32 = 0;
        let mut i: usize = 0;
        while i < split.children.len()
            invariant
                sv == self.splits_view(),
                self.wf(),
                self.splits_map().contains_key(key.0),
                fuel > self.height@ - self.depth@[key.0],
                sv[key.0] == split@,
                split.sizes@.len() == split.children@.len(),
                i <= split.children@.len(),
                offset <= 0xffff,
                click_scan(sv, key.0, pos, rel as int, i as int, offset as int, fuel) == click_at(sv, key.0, pos, fuel),
            decreases split.children@.len() - i,
        {
            let o1 = offset + split.sizes[i] as u32;
            if o1 > 0xffff {
                return false;
            }
            if (rel as u32) < o1 {
                match split.children[i] {
                    Child::Pane(_) => {
                        return true;
                    },
                    Child::Split(c) => {
                        proof {
                            assert(self.splits_map()[key.0].children@[i as int] == Child::Split(c));
                        }
                        if splits_get(&self.splits, c.0).area.contains(pos) {
                            return self.click_defined_at(pos, c, Ghost((fuel - 1) as nat));
                        }
                    },
                }
            }
            let o2 = o1 + 1;
            if o2 > 0xffff {
                return false;
            }
            if (rel as u32) < o2 {
                return true;
            }
            offset = o2;
            i += 1;
        }
        true
    }

    /// Whether a focus walk at a position through a split stays within the cell range.
    fn focus_defined_at(&self, pos: Position, key: SplitKey, Ghost(fuel): Ghost<nat>) -> (b: bool)
        requires
            self.wf(),
            self.splits_map().contains_key(key.0),
            fuel > self.height@ - self.depth@[key.0],
        ensures
            b == focus_at(self.splits_view(), key.0, pos, fuel) is Some,
        decreases fuel,
    {
        let ghost sv = self.splits_view();
        let split = splits_get(&self.splits, key.0);
        let rel = Panes::relative_to(split, pos);
        proof {
            assert(sv[key.0] == split@);
        }
        let mut offset: u32 = 0;
        let mut i: usize = 0;
        while i < split.children.len()
            invariant
                sv == self.splits_view(),
                self.wf(),
                self.splits_map().contains_key(key.0),
                fuel > self.height@ - self.depth@[key.0],
                sv[key.0] == split@,
                split.sizes@.len() == split.children@.len(),
                i <= split.children@.len(),
                offset <= 0xffff,
                focus_scan(sv, key.0, pos, rel as int, i as int, offset as int, fuel) == focus_at(sv, key.0, pos, fuel),
            decreases split.children@.len() - i,
        {
            let step = split.sizes[i] as u32 + 1;
            if step > 0xffff {
                return false;
            }
            let o = offset + step;
            if o > 0xffff {
                return false;
            }
            if (rel as u32) < o {
                match split.children[i] {
                    Child::Pane(_) => {
                        return true;
                    },
                    Child::Split(c) => {
                        proof {
                            assert(self.splits_map()[key.0].children@[i as int] == Child::Split(c));
                        }
                        if splits_get(&self.splits, c.0).area.contains(pos) {
                            return self.focus_defined_at(pos, c, Ghost((fuel - 1) as nat));
                        }
                    },
                }
            }
            offset = o;
            i += 1;
        }
        true
    }

    /// Whether a scroll at a position through a split stays within the cell range.
    fn scroll_defined_at(&self, pos: Position, key: SplitKey, Ghost(fuel): Ghost<nat>) -> (b: bool)
        requires
            self.wf(),
            self.splits_map().contains_key(key.0),
            fuel > self.height@ - self.depth@[key.0],
        ensures
            b == scroll_at(self.splits_view(), key.0, pos, fuel) is Some,
        decreases fuel,
    {
        let ghost sv = self.splits_view();
        let split = splits_get(&self.splits, key.0);
        proof {
            assert(sv[key.0] == split@);
        }
        if !split.area.contains(pos) {
            return true;
        }
        let rel = Panes::relative_to(split, pos);
        let mut offset: u32 = 0;
        let mut i: usize = 0;
        while i < split.children.len()
            invariant
                sv == self.splits_view(),
                self.wf(),
                self.splits_map().contains_key(key.0),
                fuel > self.height@ - self.depth@[key.0],
                sv[key.0] == split@,
                split.area.spec_contains(pos),
                split.sizes@.len() == split.children@.len(),
                i <= split.children@.len(),
                offset <= 0xffff,
                scroll_scan(sv, key.0, pos, rel as int, i as int, offset as int, fuel) == scroll_at(sv, key.0, pos, fuel),
            decreases split.children@.len() - i,
        {
            let o1 = offset + split.sizes[i] as u32;
            if o1 > 0xffff {
                return false;
            }
            if (rel as u32) < o1 {
                match split.children[i] {
                    Child::Pane(_) => {
                        return true;
                    },
                    Child::Split(c) => {
                        proof {
                            assert(self.splits_map()[key.0].children@[i as int] == Child::Split(c));
                        }
                        return self.scroll_defined_at(pos, c, Ghost((fuel - 1) as nat));
                    },
                }
            }
            if o1 + 1 > 0xffff {
                return false;
            }
            offset = o1 + 1;
            i += 1;
        }
        true
    }

    /// Recurse a click through the splits in order to start dragging a border or to set the
    /// focused pane.
    fn recurse_click(&self, pos: Position, key: SplitKey, Ghost(fuel): Ghost<nat>) -> (r: Option<ClickResult>)
        requires
            self.wf(),
            self.splits_map().contains_key(key.0),
            fuel > self.height@ - self.depth@[key.0],
            click_at(self.splits_view(), key.0, pos, fuel) is Some,
        ensures
            click_at(self.splits_view(), key.0, pos, fuel) == Some(r),
        decreases fuel,
    {
        let ghost sv = self.splits_view();
        let split = splits_get(&self.splits, key.0);
        let rel = Panes::relative_to(split, pos);
        proof {
            assert(sv[key.0] == split@);
        }
        let mut offset: u16 = 0;
        let mut i: usize = 0;
        while i < split.children.len()
            invariant
                sv == self.splits_view(),
                self.wf(),
                self.splits_map().contains_key(key.0),
                fuel > self.height@ - self.depth@[key.0],
                sv[key.0] == split@,
                split.sizes@.len() == split.children@.len(),
                i <= split.children@.len(),
                click_scan(sv, key.0, pos, rel as int, i as int, offset as int, fuel) == click_at(sv, key.0, pos, fuel),
                click_at(sv, key.0, pos, fuel) is Some,
            decreases split.children@.len() - i,
        {
            offset = offset + split.sizes[i];
            if rel < offset {
                match split.children[i] {
                    Child::Pane(p) => {
                        return Some(ClickResult::Pane(p));
                    },
                    Child::Split(c) => {
                        proof {
                            assert(self.splits_map()[key.0].children@[i as int] == Child::Split(c));
                        }
                        if splits_get(&self.splits, c.0).area.contains(pos) {
                            return self.recurse_click(pos, c, Ghost((fuel - 1) as nat));
                        }
                    },
                }
            }
            offset = offset + 1;
            if rel < offset {
                return Some(ClickResult::Border(key, i));
            }
            i += 1;
        }
        None
    }

    /// Recurse focus through a click, to focus a neighboring pane. Like a click, but does not
    /// stop at borders: on a border, the pane before it is taken.
    fn recurse_focus(&self, pos: Position, key: SplitKey, Ghost(fuel): Ghost<nat>) -> (r: Option<PaneKey>)
        requires
            self.wf(),
            self.splits_map().contains_key(key.0),
            fuel > self.height@ - self.depth@[key.0],
            focus_at(self.splits_view(), key.0, pos, fuel) is Some,
        ensures
            focus_at(self.splits_view(), key.0, pos, fuel) == Some(r),
        decreases fuel,
    {
        let ghost sv = self.splits_view();
        let split = splits_get(&self.splits, key.0);
        let rel = Panes::relative_to(split, pos);
        proof {
            assert(sv[key.0] == split@);
        }
        let mut offset: u16 = 0;
        let mut i: usize = 0;
        while i < split.children.len()
            invariant
                sv == self.splits_view(),
                self.wf(),
                self.splits_map().contains_key(key.0),
                fuel > self.height@ - self.depth@[key.0],
                sv[key.0] == split@,
                split.sizes@.len() == split.children@.len(),
                i <= split.children@.len(),
                focus_scan(sv, key.0, pos, rel as int, i as int, offset as int, fuel) == focus_at(sv, key.0, pos, fuel),
                focus_at(sv, key.0, pos, fuel) is Some,
            decreases split.children@.len() - i,
        {
            offset = offset + (split.sizes[i] + 1);
            if rel < offset {
                match split.children[i] {
                    Child::Pane(p) => {
                        return Some(p);
                    },
                    Child::Split(c) => {
                        proof {
                            assert(self.splits_map()[key.0].children@[i as int] == Child::Split(c));
                        }
                        if splits_get(&self.splits, c.0).area.contains(pos) {
                            return self.recurse_focus(pos, c, Ghost((fuel - 1) as nat));
                        }
                    },
                }
            }
            i += 1;
        }
        None
    }

    /// Recurse a scroll through the splits to find the pane under the cursor.
    fn recurse_scroll(&self, pos: Position, key: SplitKey, Ghost(fuel): Ghost<nat>) -> (r: Option<PaneKey>)
        requires
            self.wf(),
            self.splits_map().contains_key(key.0),
            fuel > self.height@ - self.depth@[key.0],
            scroll_at(self.splits_view(), key.0, pos, fuel) is Some,
        ensures
            scroll_at(self.splits_view(), key.0, pos, fuel) == Some(r),
        decreases fuel,
    {
        let ghost sv = self.splits_view();
        let split = splits_get(&self.splits, key.0);
        proof {
            assert(sv[key.0] == split@);
        }
        if !split.area.contains(pos) {
            return None;
        }
        let rel = Panes::relative_to(split, pos);
        let mut offset: u16 = 0;
        let mut i: usize = 0;
        while i < split.children.len()
            invariant
                sv == self.splits_view(),
                self.wf(),
                self.splits_map().contains_key(key.0),
                fuel > self.height@ - self.depth@[key.0],
                sv[key.0] == split@,
                split.area.spec_contains(pos),
                split.sizes@.len() == split.children@.len(),
                i <= split.children@.len(),
                scroll_scan(sv, key.0, pos, rel as int, i as int, offset as int, fuel) == scroll_at(sv, key.0, pos, fuel),
                scroll_at(sv, key.0, pos, fuel) is Some,
            decreases split.children@.len() - i,
        {
            offset = offset + split.sizes[i];
            if rel < offset {
                match split.children[i] {
                    Child::Pane(p) => {
                        return Some(p);
                    },
                    Child::Split(c) => {
                        proof {
                            assert(self.splits_map()[key.0].children@[i as int] == Child::Split(c));
                        }
                        return self.recurse_scroll(pos, c, Ghost((fuel - 1) as nat));
                    },
                }
            }
            offset = offset + 1;
            i += 1;
        }
        None
    }

    /// What a click at a position lands on.
    pub fn click(&self, pos: Position) -> (r: Option<ClickResult>)
        requires
            self.wf(),
            click_at(self.splits_view(), self.root_spec().0, pos, self.fuel()) is Some,
        ensures
            click_at(self.splits_view(), self.root_spec().0, pos, self.fuel()) == Some(r),
    {
        self.recurse_click(pos, self.root, Ghost(self.height@ + 1))
    }

    /// The pane a scroll at a position goes to.
    pub fn scroll_target(&self, pos: Position) -> (r: Option<PaneKey>)
        requires
            self.wf(),
            scroll_at(self.splits_view(), self.root_spec().0, pos, self.fuel()) is Some,
        ensures
            scroll_at(self.splits_view(), self.root_spec().0, pos, self.fuel()) == Some(r),
    {
        self.recurse_scroll(pos, self.root, Ghost(self.height@ + 1))
    }
}


/// Every child of a split in the map is there: a pane in the panes, a split in the splits.
pub open spec fn children_stored(sv: Map<u64, SplitView>, pm: Map<u64, SplitKey>) -> bool {
    forall|s: u64, i: int| sv.contains_key(s) && 0 <= i < sv[s].children.len() ==> match #[trigger] sv[s].children[i] {
        Child::Pane(p) => pm.contains_key(p.0),
        Child::Split(c) => sv.contains_key(c.0),
    }
}

/// A click that lands on a pane lands on a stored one.
pub proof fn lemma_click_pane(sv: Map<u64, SplitView>, pm: Map<u64, SplitKey>, key: u64, pos: Position, rel: int, i: int, offset: int, fuel: nat)
    requires
        children_stored(sv, pm),
        sv.contains_key(key),
    ensures
        click_scan(sv, key, pos, rel, i, offset, fuel) matches Some(Some(ClickResult::Pane(p))) ==> pm.contains_key(p.0),
    decreases fuel, sv[key].children.len() - i,
{
    let s = sv[key];
    if 0 <= i < s.children.len() {
        let o1 = offset + s.sizes[i];
        let o2 = o1 + 1;
        if o1 <= u16::MAX {
            if rel < o1 && s.children[i] is Pane {
                assert(sv[key].children[i] is Pane);
                assert(pm.contains_key(s.children[i]->Pane_0.0));
            } else if rel < o1 && s.children[i] is Split && sv[s.children[i]->Split_0.0].area.spec_contains(pos) {
                assert(sv[key].children[i] is Split);
                if fuel > 0 {
                    let c = s.children[i]->Split_0.0;
                    assert(click_at(sv, c, pos, (fuel - 1) as nat) == click_scan(sv, c, pos, relative(pos, sv[c].direction, sv[c].area), 0, 0, (fuel - 1) as nat));
                    lemma_click_pane(sv, pm, c, pos, relative(pos, sv[c].direction, sv[c].area), 0, 0, (fuel - 1) as nat);
                }
            } else if o2 <= u16::MAX && !(rel < o2) {
                lemma_click_pane(sv, pm, key, pos, rel, i + 1, o2, fuel);
            }
        }
    }
}

/// A focus walk ends on a stored pane.
pub proof fn lemma_focus_pane(sv: Map<u64, SplitView>, pm: Map<u64, SplitKey>, key: u64, pos: Position, rel: int, i: int, offset: int, fuel: nat)
    requires
        children_stored(sv, pm),
        sv.contains_key(key),
    ensures
        focus_scan(sv, key, pos, rel, i, offset, fuel) matches Some(Some(p)) ==> pm.contains_key(p.0),
    decreases fuel, sv[key].children.len() - i,
{
    let s = sv[key];
    if 0 <= i < s.children.len() {
        let o = offset + s.sizes[i] + 1;
        if s.sizes[i] + 1 <= u16::MAX && o <= u16::MAX {
            if rel < o && s.children[i] is Pane {
                assert(sv[key].children[i] is Pane);
            } else if rel < o && s.children[i] is Split && sv[s.children[i]->Split_0.0].area.spec_contains(pos) {
                assert(sv[key].children[i] is Split);
                if fuel > 0 {
                    let c = s.children[i]->Split_0.0;
                    assert(focus_at(sv, c, pos, (fuel - 1) as nat) == focus_scan(sv, c, pos, relative(pos, sv[c].direction, sv[c].area), 0, 0, (fuel - 1) as nat));
                    lemma_focus_pane(sv, pm, c, pos, relative(pos, sv[c].direction, sv[c].area), 0, 0, (fuel - 1) as nat);
                }
            } else {
                lemma_focus_pane(sv, pm, key, pos, rel, i + 1, o, fuel);
            }
        }
    }
}

/// A scroll goes to a stored pane.
pub proof fn lemma_scroll_pane(sv: Map<u64, SplitView>, pm: Map<u64, SplitKey>, key: u64, pos: Position, rel: int, i: int, offset: int, fuel: nat)
    requires
        children_stored(sv, pm),
        sv.contains_key(key),
    ensures
        scroll_scan(sv, key, pos, rel, i, offset, fuel) matches Some(Some(p)) ==> pm.contains_key(p.0),
    decreases fuel, sv[key].children.len() - i,
{
    let s = sv[key];
    if 0 <= i < s.children.len() {
        let o1 = offset + s.sizes[i];
        if o1 <= u16::MAX {
            if rel < o1 {
                assert(sv[key].children[i] == s.children[i]);
                if let Child::Split(c) = s.children[i] {
                    if fuel > 0 && sv[c.0].area.spec_contains(pos) {
                        assert(scroll_at(sv, c.0, pos, (fuel - 1) as nat) == scroll_scan(sv, c.0, pos, relative(pos, sv[c.0].direction, sv[c.0].area), 0, 0, (fuel - 1) as nat));
                        lemma_scroll_pane(sv, pm, c.0, pos, relative(pos, sv[c.0].direction, sv[c.0].area), 0, 0, (fuel - 1) as nat);
                    }
                }
            } else if o1 + 1 <= u16::MAX {
                lemma_scroll_pane(sv, pm, key, pos, rel, i + 1, o1 + 1, fuel);
            }
        }
    }
}

/// The cell a focus move to a side clicks on: just past the pane's area on that side, in line
/// with the cursor; none past the screen's top or left edge.
pub open spec fn neighbor_click(area: Rect, side: Side, cursor: Position) -> Option<Position> {
    match side {
        Side::Bottom => Some(Position { x: cursor.x, y: (area.spec_bottom() + 1) as u16 }),
        Side::Right => Some(Position { x: (area.spec_right() + 1) as u16, y: cursor.y }),
        Side::Top => if area.y == 0 { None } else { Some(Position { x: cursor.x, y: (area.y - 1) as u16 }) },
        Side::Left => if area.x == 0 { None } else { Some(Position { x: (area.x - 1) as u16, y: cursor.y }) },
    }
}

/// The click that moving the focus to a side simulates lies just past the pane's area on that
/// side, past the border there: below it for the bottom, right of it for the right, above it
/// for the top and left of it for the left, in the cursor's column or row; there is none above
/// or left of an area at the edge of the cell range (moves down or right are asked only where
/// the row or column past the area is in that range).
pub proof fn lemma_neighbor_click_past_side(area: Rect, side: Side, cursor: Position)
    ensures
        side is Bottom && area.spec_bottom() < u16::MAX ==> (neighbor_click(area, side, cursor) matches Some(c)
            && c.x == cursor.x && area.spec_bottom() < c.y && c.y <= area.spec_bottom() + 1),
        side is Right && area.spec_right() < u16::MAX ==> (neighbor_click(area, side, cursor) matches Some(c)
            && c.y == cursor.y && area.spec_right() < c.x && c.x <= area.spec_right() + 1),
        side is Top ==> (area.y == 0 <==> neighbor_click(area, side, cursor) is None),
        side is Top ==> (neighbor_click(area, side, cursor) matches Some(c) ==> c.x == cursor.x && c.y + 1 == area.y),
        side is Left ==> (area.x == 0 <==> neighbor_click(area, side, cursor) is None),
        side is Left ==> (neighbor_click(area, side, cursor) matches Some(c) ==> c.y == cursor.y && c.x + 1 == area.x),
{
}

/// What a pointer event asks of the caller after the panes looked at it.
#[derive(Clone, Copy, PartialEq, Eq, Debug, Structural)]
pub enum PanesRoute {
    /// Handled here: stop.
    Handled,
    /// A scroll for the pane under the cursor, if any; handled when there is one.
    Scroll(Option<PaneKey>),
    /// Go on to the focused pane; the flag says whether the event counts as handled anyway
    /// (a pane was clicked and focused).
    Continue(bool),
}

impl Panes {
    pub closed spec fn stored(self) -> bool {
        children_stored(self.splits_view(), self.panes_map())
    }

    proof fn lemma_stored(self)
        requires
            self.wf(),
        ensures
            self.stored(),
    {
        let sv = self.splits_view();
        let sm = self.splits_map();
        let pm = self.panes_map();
        assert forall|s: u64, i: int| sv.contains_key(s) && 0 <= i < sv[s].children.len() implies match #[trigger] sv[s].children[i] {
            Child::Pane(p) => pm.contains_key(p.0),
            Child::Split(c) => sv.contains_key(c.0),
        } by {
            assert(sv[s].children[i] == sm[s].children@[i]);
        }
    }

    /// Whether the root split is empty: the default widget is shown in its place.
    pub fn is_empty(&self) -> (b: bool)
        requires
            self.wf(),
        ensures
            b == (self.splits_view()[self.root_spec().0].children.len() == 0),
    {
        splits_get(&self.splits, self.root.0).children.len() == 0
    }

    /// The neighbor pane on the given side of a pane whose widget was drawn in an area: the
    /// pane a click just past that side, in line with the cursor, would focus.
    pub fn focus_neighbor(&self, area: Rect, side: Side, cursor: Position) -> (r: Option<PaneKey>)
        requires
            self.wf(),
            side is Bottom ==> area.spec_bottom() < u16::MAX,
            side is Right ==> area.spec_right() < u16::MAX,
            self.neighbor_defined(area, side, cursor),
        ensures
            r == match neighbor_click(area, side, cursor) {
                None => None,
                Some(c) => if self.splits_view()[self.root_spec().0].area.spec_contains(c) {
                    focus_at(self.splits_view(), self.root_spec().0, c, self.fuel())->0
                } else {
                    None
                },
            },
            r matches Some(p) ==> self.panes_map().contains_key(p.0),
    {
        let click = match side {
            Side::Bottom => Position { x: cursor.x, y: area.bottom() + 1 },
            Side::Right => Position { x: area.right() + 1, y: cursor.y },
            Side::Top => {
                if area.top() == 0 {
                    return None;
                }
                Position { x: cursor.x, y: area.top() - 1 }
            },
            Side::Left => {
                if area.left() == 0 {
                    return None;
                }
                Position { x: area.left() - 1, y: cursor.y }
            },
        };
        if !self.area().contains(click) {
            return None;
        }
        let r = self.recurse_focus(click, self.root, Ghost(self.height@ + 1));
        proof {
            self.lemma_stored();
            let sv = self.splits_view();
            let root = self.root.0;
            lemma_focus_pane(sv, self.panes_map(), root, click, relative(click, sv[root].direction, sv[root].area), 0, 0, self.fuel());
        }
        r
    }

    /// The pane a Ctrl key moves the focus to: h, j, k and l look left, down, up and right of
    /// the focused pane, whose widget was drawn in an area.
    pub fn key_target(&self, key: char, area: Rect, cursor: Position) -> (r: Option<PaneKey>)
        requires
            self.wf(),
            key == 'j' ==> area.spec_bottom() < u16::MAX,
            key == 'l' ==> area.spec_right() < u16::MAX,
            key == 'h' ==> self.neighbor_defined(area, Side::Left, cursor),
            key == 'j' ==> self.neighbor_defined(area, Side::Bottom, cursor),
            key == 'k' ==> self.neighbor_defined(area, Side::Top, cursor),
            key == 'l' ==> self.neighbor_defined(area, Side::Right, cursor),
        ensures
            r == (if key == 'h' {
                self.neighbor(area, Side::Left, cursor)
            } else if key == 'j' {
                self.neighbor(area, Side::Bottom, cursor)
            } else if key == 'k' {
                self.neighbor(area, Side::Top, cursor)
            } else if key == 'l' {
                self.neighbor(area, Side::Right, cursor)
            } else {
                None
            }),
            r matches Some(p) ==> self.panes_map().contains_key(p.0),
    {
        if key == 'h' {
            self.focus_neighbor(area, Side::Left, cursor)
        } else if key == 'j' {
            self.focus_neighbor(area, Side::Bottom, cursor)
        } else if key == 'k' {
            self.focus_neighbor(area, Side::Top, cursor)
        } else if key == 'l' {
            self.focus_neighbor(area, Side::Right, cursor)
        } else {
            None
        }
    }

    /// Whether `key_target` may be asked for a key in an area with a cursor: the row below or
    /// the column right of the area is in the cell range for a move down or right, and the
    /// focus walk from the click of the move stays in it.
    pub fn key_target_ok(&self, key: char, area: Rect, cursor: Position) -> (ok: bool)
        requires
            self.wf(),
        ensures
            ok == {
                &&& key == 'j' ==> area.spec_bottom() < u16::MAX
                &&& key == 'l' ==> area.spec_right() < u16::MAX
                &&& key == 'h' ==> self.neighbor_defined(area, Side::Left, cursor)
                &&& key == 'j' ==> self.neighbor_defined(area, Side::Bottom, cursor)
                &&& key == 'k' ==> self.neighbor_defined(area, Side::Top, cursor)
                &&& key == 'l' ==> self.neighbor_defined(area, Side::Right, cursor)
            },
    {
        let click = if key == 'h' {
            if area.left() == 0 { None } else { Some(Position { x: area.left() - 1, y: cursor.y }) }
        } else if key == 'j' {
            if area.bottom() == u16::MAX {
                return false;
            }
            Some(Position { x: cursor.x, y: area.bottom() + 1 })
        } else if key == 'k' {
            if area.top() == 0 { None } else { Some(Position { x: cursor.x, y: area.top() - 1 }) }
        } else if key == 'l' {
            if area.right() == u16::MAX {
                return false;
            }
            Some(Position { x: area.right() + 1, y: cursor.y })
        } else {
            None
        };
        match click {
            None => true,
            Some(c) => {
                let root_area = splits_get(&self.splits, self.root.0).area;
                proof {
                    assert(root_area == self.splits_view()[self.root_spec().0].area);
                }
                if root_area.contains(c) {
                    self.focus_defined_at(c, self.root, Ghost(self.height@ + 1))
                } else {
                    true
                }
            },
        }
    }

    /// The focus walk from the click of a move to a side stays in the cell range.
    pub open spec fn neighbor_defined(self, area: Rect, side: Side, cursor: Position) -> bool {
        match neighbor_click(area, side, cursor) {
            None => true,
            Some(c) => self.splits_view()[self.root_spec().0].area.spec_contains(c)
                ==> focus_at(self.splits_view(), self.root_spec().0, c, self.fuel()) is Some,
        }
    }

    /// The pane `focus_neighbor` gives.
    pub open spec fn neighbor(self, area: Rect, side: Side, cursor: Position) -> Option<PaneKey> {
        match neighbor_click(area, side, cursor) {
            None => None,
            Some(c) => if self.splits_view()[self.root_spec().0].area.spec_contains(c) {
                focus_at(self.splits_view(), self.root_spec().0, c, self.fuel())->0
            } else {
                None
            },
        }
    }
}


/// A layout keeps its shape when only areas and sizes change, sizes keeping their length.
proof fn lemma_shape_kept(sm0: Map<u64, Split>, sm1: Map<u64, Split>, pm: Map<u64, SplitKey>, root: u64, depth: Map<u64, nat>, height: nat)
    requires
        layout_ok(sm0, pm, root, depth, height),
        sm1.dom() == sm0.dom(),
        forall|s: u64| #[trigger] sm1.contains_key(s) ==> {
            &&& sm1[s].children@ == sm0[s].children@
            &&& sm1[s].parent == sm0[s].parent
            &&& sm1[s].direction == sm0[s].direction
            &&& sm1[s].sizes@.len() == sm0[s].sizes@.len()
        },
    ensures
        layout_ok(sm1, pm, root, depth, height),
{
    assert forall|s: u64, i: int| sm1.contains_key(s) && 0 <= i < sm1[s].children@.len() implies match #[trigger] sm1[s].children@[i] {
        Child::Pane(p) => pm.contains_key(p.0) && pm[p.0] == SplitKey(s),
        Child::Split(c) => sm1.contains_key(c.0) && sm1[c.0].parent == Some(SplitKey(s)),
    } by {
        assert(sm1[s].children@[i] == sm0[s].children@[i]);
    }
    assert forall|s: u64, i: int, j: int| sm1.contains_key(s) && 0 <= i < j < sm1[s].children@.len() implies
        #[trigger] sm1[s].children@[i] != #[trigger] sm1[s].children@[j] by {
        assert(sm1[s].children@[i] == sm0[s].children@[i]);
        assert(sm1[s].children@[j] == sm0[s].children@[j]);
    }
}

/// A split after dragging the border after child `border` to the cursor.
pub open spec fn dragged_view(s: SplitView, border: int, cursor: Position) -> SplitView {
    let size = dragged_size(s.sizes, border, relative(cursor, s.direction, s.area));
    SplitView {
        sizes: s.sizes.update(border, size as u16).update(border + 1, (s.sizes[border] + s.sizes[border + 1] - size) as u16),
        ..s
    }
}

impl Panes {
    /// The drag of the border after child `b` of split `s` keeps the sizes in the cell range.
    pub open spec fn drag_defined(self, s: SplitKey, b: usize) -> bool {
        let sv = self.splits_view();
        &&& sv.contains_key(s.0)
        &&& b + 1 < sv[s.0].sizes.len()
        &&& prefix_sum(sv[s.0].sizes, b as int) + b <= u16::MAX
        &&& sv[s.0].sizes[b as int] + sv[s.0].sizes[b + 1] <= u16::MAX
    }

    /// The pointer event can be stepped without leaving the cell range.
    pub open spec fn pointer_defined(self, event: Pointer) -> bool {
        match event {
            Pointer::Down(c) => click_at(self.splits_view(), self.root_spec().0, c, self.fuel()) is Some,
            Pointer::Scroll(c) => scroll_at(self.splits_view(), self.root_spec().0, c, self.fuel()) is Some,
            Pointer::Drag(_) => self.drag_spec() matches Some(d) ==> self.drag_defined(d.0, d.1),
            _ => true,
        }
    }

    /// Whether dragging a border of a split can be stepped without leaving the cell range.
    fn drag_ok(&self, s: SplitKey, b: usize) -> (ok: bool)
        requires
            self.wf(),
        ensures
            ok == self.drag_defined(s, b),
    {
        if !self.has_split(s) {
            return false;
        }
        let split = splits_get(&self.splits, s.0);
        let ghost sizes = split.sizes@;
        proof {
            assert(self.splits_view()[s.0] == split@);
        }
        if b >= split.sizes.len() || b + 1 >= split.sizes.len() {
            return false;
        }
        let mut sum: u32 = 0;
        let mut i: usize = 0;
        while i < b
            invariant
                i <= b,
                b + 1 < sizes.len(),
                sizes == split.sizes@,
                self.splits_view().contains_key(s.0),
                self.splits_view()[s.0].sizes == sizes,
                sum == prefix_sum(sizes, i as int),
                sum <= 0xffff,
            decreases b - i,
        {
            let next = sum + split.sizes[i] as u32;
            if next > 0xffff {
                proof {
                    assert(prefix_sum(sizes, i + 1) == prefix_sum(sizes, i as int) + sizes[i as int]);
                    lemma_prefix_sum_mono(sizes, i + 1, b as int);
                }
                return false;
            }
            proof {
                assert(prefix_sum(sizes, i + 1) == prefix_sum(sizes, i as int) + sizes[i as int]);
            }
            sum = next;
            i += 1;
        }
        b <= 0xffff - (sum as usize) && (split.sizes[b] as u32) + (split.sizes[b + 1] as u32) <= 0xffff
    }

    /// Whether a pointer event can be stepped without leaving the cell range: what `pointer`
    /// asks of it.
    pub fn pointer_ok(&self, event: Pointer) -> (ok: bool)
        requires
            self.wf(),
        ensures
            ok == self.pointer_defined(event),
    {
        match event {
            Pointer::Down(c) => self.click_defined_at(c, self.root, Ghost(self.height@ + 1)),
            Pointer::Scroll(c) => self.scroll_defined_at(c, self.root, Ghost(self.height@ + 1)),
            Pointer::Drag(_) => match self.drag {
                Some((s, b)) => self.drag_ok(s, b),
                None => true,
            },
            _ => true,
        }
    }

    /// Deal with a pointer event: a click focuses the pane under it or starts dragging the
    /// border under it, a release stops dragging, a drag moves the dragged border to the
    /// cursor, and a scroll is for the pane under the cursor.
    pub fn pointer(&mut self, event: Pointer) -> (r: PanesRoute)
        requires
            old(self).wf(),
            old(self).pointer_defined(event),
        ensures
            final(self).wf(),
            final(self).panes_map() == old(self).panes_map(),
            final(self).root_spec() == old(self).root_spec(),
            final(self).fuel() == old(self).fuel(),
            match event {
                Pointer::Down(c) => match click_at(old(self).splits_view(), old(self).root_spec().0, c, old(self).fuel())->0 {
                    Some(ClickResult::Pane(p)) => r == PanesRoute::Continue(true) && final(self).focused_spec() == Some(p)
                        && final(self).drag_spec() is None && final(self).splits_view() == old(self).splits_view(),
                    Some(ClickResult::Border(s, b)) => r == PanesRoute::Handled && final(self).drag_spec() == Some((s, b))
                        && final(self).focused_spec() == old(self).focused_spec() && final(self).splits_view() == old(self).splits_view(),
                    None => r == PanesRoute::Continue(false) && final(self).drag_spec() == old(self).drag_spec()
                        && final(self).focused_spec() == old(self).focused_spec() && final(self).splits_view() == old(self).splits_view(),
                },
                Pointer::Up => r == PanesRoute::Continue(false) && final(self).drag_spec() is None
                    && final(self).focused_spec() == old(self).focused_spec() && final(self).splits_view() == old(self).splits_view(),
                Pointer::Drag(c) => match old(self).drag_spec() {
                    Some(d) => r == PanesRoute::Handled
                        && final(self).splits_view() == old(self).splits_view().insert(d.0.0, dragged_view(old(self).splits_view()[d.0.0], d.1 as int, c))
                        && final(self).drag_spec() == old(self).drag_spec() && final(self).focused_spec() == old(self).focused_spec(),
                    None => r == PanesRoute::Continue(false) && *final(self) == *old(self),
                },
                Pointer::Scroll(c) => r == PanesRoute::Scroll(scroll_at(old(self).splits_view(), old(self).root_spec().0, c, old(self).fuel())->0)
                    && *final(self) == *old(self),
                Pointer::Other => r == PanesRoute::Continue(false) && *final(self) == *old(self),
            },
            r matches PanesRoute::Scroll(Some(p)) ==> final(self).panes_map().contains_key(p.0),
    {
        proof {
            self.lemma_stored();
        }
        match event {
            Pointer::Down(cursor) => {
                let hit = self.click(cursor);
                proof {
                    let sv = self.splits_view();
                    let root = self.root.0;
                    lemma_click_pane(sv, self.panes_map(), root, cursor, relative(cursor, sv[root].direction, sv[root].area), 0, 0, self.fuel());
                }
                match hit {
                    Some(ClickResult::Pane(pane)) => {
                        self.focused = Some(pane);
                        self.drag = None;
                        PanesRoute::Continue(true)
                    },
                    Some(ClickResult::Border(split, border)) => {
                        self.drag = Some((split, border));
                        PanesRoute::Handled
                    },
                    None => PanesRoute::Continue(false),
                }
            },
            Pointer::Up => {
                self.drag = None;
                PanesRoute::Continue(false)
            },
            Pointer::Drag(cursor) => {
                match self.drag {
                    Some((split, border)) => {
                        let ghost sm0 = self.splits_map();
                        proof {
                            assert(self.splits_view()[split.0] == sm0[split.0]@);
                        }
                        splits_get_mut(&mut self.splits, split.0).drag_to_cursor(border, cursor);
                        proof {
                            assert(self.splits_map().dom() =~= sm0.dom());
                            lemma_shape_kept(sm0, self.splits_map(), self.panes_map(), self.root.0, self.depth@, self.height@);
                            assert(self.splits_view() =~= old(self).splits_view().insert(split.0, dragged_view(old(self).splits_view()[split.0], border as int, cursor)));
                        }
                        PanesRoute::Handled
                    },
                    None => PanesRoute::Continue(false),
                }
            },
            Pointer::Scroll(cursor) => {
                let target = self.scroll_target(cursor);
                proof {
                    let sv = self.splits_view();
                    let root = self.root.0;
                    if sv[root].area.spec_contains(cursor) {
                        lemma_scroll_pane(sv, self.panes_map(), root, cursor, relative(cursor, sv[root].direction, sv[root].area), 0, 0, self.fuel());
                    }
                }
                PanesRoute::Scroll(target)
            },
            Pointer::Other => PanesRoute::Continue(false),
        }
    }
}


/// Something to draw, in order: a pane's widget in an area, or a border between children.
#[derive(Clone, Copy, PartialEq, Eq, Debug, Structural)]
pub enum Paint {
    Pane(PaneKey, Rect),
    Border(Direction, Rect),
}

/// The constraints of a split: each child fills a share in proportion to its size, with a
/// border of one cell between two children.
pub open spec fn split_constraints_of(sizes: Seq<u16>) -> Seq<Constraint>
    decreases sizes.len(),
{
    if sizes.len() == 0 {
        seq![]
    } else if sizes.len() == 1 {
        seq![Constraint::Fill(sizes[0])]
    } else {
        split_constraints_of(sizes.drop_last()) + seq![Constraint::Length(1), Constraint::Fill(sizes.last())]
    }
}

proof fn lemma_constraints_len(sizes: Seq<u16>)
    requires
        sizes.len() >= 1,
    ensures
        split_constraints_of(sizes).len() == 2 * sizes.len() - 1,
    decreases sizes.len(),
{
    if sizes.len() > 1 {
        lemma_constraints_len(sizes.drop_last());
    }
}

/// Two layouts with the same splits, each with the same children, parent, direction and
/// number of sizes.
pub open spec fn shape_same(a: Map<u64, SplitView>, b: Map<u64, SplitView>) -> bool {
    &&& b.dom() == a.dom()
    &&& forall|s: u64| #[trigger] b.contains_key(s) ==> {
        &&& b[s].children == a[s].children
        &&& b[s].parent == a[s].parent
        &&& b[s].direction == a[s].direction
        &&& b[s].sizes.len() == a[s].sizes.len()
    }
}

proof fn lemma_shape_trans(a: Map<u64, SplitView>, b: Map<u64, SplitView>, c: Map<u64, SplitView>)
    requires
        shape_same(a, b),
        shape_same(b, c),
    ensures
        shape_same(a, c),
{
    assert forall|s: u64| #[trigger] c.contains_key(s) implies {
        &&& c[s].children == a[s].children
        &&& c[s].parent == a[s].parent
        &&& c[s].direction == a[s].direction
        &&& c[s].sizes.len() == a[s].sizes.len()
    } by {
        assert(b.contains_key(s));
    }
}

/// Lay a split out in an area, taking the solver's segments for each split from a tape, in
/// the order the splits are laid out: record the area, take the next segments, add the
/// split's borders to what is drawn, then lay out each child in turn. Gives the splits, what is
/// drawn, the rest of the tape, and whether each entry taken held the right number of
/// segments of its split's area along the split.
pub open spec fn laid_out(sv: Map<u64, SplitView>, key: u64, area: Rect, paints: Seq<Paint>, fuel: nat, tape: Seq<Seq<Rect>>) -> (Map<u64, SplitView>, Seq<Paint>, Seq<Seq<Rect>>, bool)
    decreases fuel, sv[key].children.len() + 1,
{
    let s = sv[key];
    let n = s.children.len();
    let rects = tape[0];
    let fits = segments_of(s.direction, area, rects, 2 * n - 1);
    let borders = Seq::new((n - 1) as nat, |i: int| Paint::Border(s.direction.spec_perpendicular(), rects[2 * i + 1]));
    laid_children(sv.insert(key, SplitView { area, ..s }), key, rects, n as int, 0, paints + borders, fuel, tape.drop_first(), fits)
}

/// Lay out the children of a split from the `i`-th on, in the segments of its area: each
/// child's size becomes its segment's extent along the split, then a pane is drawn in it, or a
/// split is laid out in it.
pub open spec fn laid_children(sv: Map<u64, SplitView>, key: u64, rects: Seq<Rect>, n: int, i: int, paints: Seq<Paint>, fuel: nat, tape: Seq<Seq<Rect>>, fits: bool) -> (Map<u64, SplitView>, Seq<Paint>, Seq<Seq<Rect>>, bool)
    decreases fuel, n - i,
{
    if i < 0 || i >= n {
        (sv, paints, tape, fits)
    } else {
        let r = rects[2 * i];
        let s = sv[key];
        let width = match s.direction {
            Direction::Horizontal => r.width,
            Direction::Vertical => r.height,
        };
        let sv1 = sv.insert(key, SplitView { sizes: s.sizes.update(i, width), ..s });
        let next = match s.children[i] {
            Child::Pane(p) => (sv1, paints.push(Paint::Pane(p, r)), tape, true),
            Child::Split(c) => if fuel == 0 { (sv1, paints, tape, true) } else { laid_out(sv1, c.0, r, paints, (fuel - 1) as nat, tape) },
        };
        laid_children(next.0, key, rects, n, i + 1, next.1, fuel, next.2, fits && next.3)
    }
}

impl Panes {
    /// The constraints of a split.
    fn split_constraints(sizes: &Vec<u16>) -> (c: Vec<Constraint>)
        requires
            sizes@.len() >= 1,
        ensures
            c@ == split_constraints_of(sizes@),
    {
        let mut c: Vec<Constraint> = Vec::new();
        c.push(Constraint::Fill(sizes[0]));
        proof {
            assert(sizes@.take(1).drop_last() =~= Seq::<u16>::empty());
            assert(c@ =~= split_constraints_of(sizes@.take(1)));
        }
        let mut i: usize = 1;
        while i < sizes.len()
            invariant
                1 <= i <= sizes@.len(),
                c@ == split_constraints_of(sizes@.take(i as int)),
            decreases sizes@.len() - i,
        {
            c.push(Constraint::Length(1));
            c.push(Constraint::Fill(sizes[i]));
            proof {
                assert(sizes@.take(i + 1).drop_last() =~= sizes@.take(i as int));
            }
            i += 1;
        }
        proof {
            assert(sizes@.take(sizes@.len() as int) =~= sizes@);
        }
        c
    }

    /// Lay a split out in an area, adding what is to be drawn; gives the segments that the
    /// solver gave, split by split, in the order they were laid out.
    #[verifier::spinoff_prover]
    fn layout_split(&mut self, key: SplitKey, area: Rect, paints: &mut Vec<Paint>, Ghost(fuel): Ghost<nat>) -> (tape: Ghost<Seq<Seq<Rect>>>)
        requires
            old(self).wf(),
            old(self).splits_map().contains_key(key.0),
            old(self).splits_map()[key.0].children@.len() >= 1,
            fuel > old(self).height@ - old(self).depth@[key.0],
        ensures
            final(self).wf(),
            forall|rest: Seq<Seq<Rect>>| #[trigger] laid_out(old(self).splits_view(), key.0, area, old(paints)@, fuel, tape@ + rest)
                == (final(self).splits_view(), final(paints)@, rest, true),
            shape_same(old(self).splits_view(), final(self).splits_view()),
            final(self).panes_map() == old(self).panes_map(),
            final(self).root_spec() == old(self).root_spec(),
            final(self).focused_spec() == old(self).focused_spec(),
            final(self).drag_spec() == old(self).drag_spec(),
            final(self).depth == old(self).depth,
            final(self).height == old(self).height,
        decreases fuel, 1nat,
    {
        let ghost sv0 = self.splits_view();
        let ghost p0 = paints@;
        let ghost sm0 = self.splits_map();
        splits_get_mut(&mut self.splits, key.0).area = area;
        proof {
            assert(self.splits_map().dom() =~= sm0.dom());
            lemma_shape_kept(sm0, self.splits_map(), self.panes_map(), self.root.0, self.depth@, self.height@);
            assert(self.splits_view() =~= sv0.insert(key.0, SplitView { area, ..sv0[key.0] }));
        }
        let split = splits_get(&self.splits, key.0);
        let direction = split.direction;
        let n = split.children.len();
        let constraints = Panes::split_constraints(&split.sizes);
        let rects = split_area(direction, &constraints, area);
        let rl = rects.len();
        proof {
            lemma_constraints_len(split.sizes@);
        }
        let ghost borders = Seq::new((n - 1) as nat, |i: int| Paint::Border(direction.spec_perpendicular(), rects@[2 * i + 1]));
        let perpendicular = direction.perpendicular();
        let mut b: usize = 0;
        while b + 1 < n
            invariant
                n >= 1,
                rects@.len() == 2 * n - 1,
                rl == rects@.len(),
                b <= n - 1,
                paints@ == p0 + borders.take(b as int),
                borders == Seq::new((n - 1) as nat, |i: int| Paint::Border(direction.spec_perpendicular(), rects@[2 * i + 1])),
                perpendicular == direction.spec_perpendicular(),
            decreases n - b,
        {
            paints.push(Paint::Border(perpendicular, rects[2 * b + 1]));
            proof {
                assert(borders.take(b + 1) =~= borders.take(b as int).push(borders[b as int]));
            }
            b += 1;
        }
        proof {
            assert(borders.take((n - 1) as int) =~= borders);
        }
        let ghost head: Seq<Seq<Rect>> = seq![rects@];
        let ghost mut acc: Seq<Seq<Rect>> = seq![];
        let ghost sv_start = self.splits_view();
        let ghost p_start = paints@;
        proof {
            assert(segments_of(direction, area, rects@, 2 * n - 1));
            assert forall|rest: Seq<Seq<Rect>>| #[trigger] laid_children(sv_start, key.0, rects@, n as int, 0, p_start, fuel, rest, true)
                == laid_out(sv0, key.0, area, p0, fuel, (head + acc) + rest) by {
                let t = (head + acc) + rest;
                assert(t[0] == rects@);
                assert(t.drop_first() =~= rest);
            }
        }
        let mut i: usize = 0;
        while i < n
            invariant
                self.wf(),
                self.splits_map().contains_key(key.0),
                self.splits_view()[key.0].children.len() == n,
                self.splits_view()[key.0].direction == direction,
                shape_same(sv0, self.splits_view()),
                rects@.len() == 2 * n - 1,
                rl == rects@.len(),
                i <= n,
                fuel > self.height@ - self.depth@[key.0],
                self.panes_map() == old(self).panes_map(),
                self.root_spec() == old(self).root_spec(),
                self.focused_spec() == old(self).focused_spec(),
                self.drag_spec() == old(self).drag_spec(),
                self.depth == old(self).depth,
                self.height == old(self).height,
                forall|rest: Seq<Seq<Rect>>| #[trigger] laid_children(self.splits_view(), key.0, rects@, n as int, i as int, paints@, fuel, rest, true)
                    == laid_out(sv0, key.0, area, p0, fuel, (head + acc) + rest),
            decreases n - i,
        {
            let ghost before = self.splits_view();
            let ghost p_before = paints@;
            let ghost acc_before = acc;
            let t = self.layout_child(key, &rects, n, i, direction, paints, Ghost(fuel));
            proof {
                lemma_shape_trans(sv0, before, self.splits_view());
                assert(self.splits_view().contains_key(key.0));
                assert(self.splits_view()[key.0].children == before[key.0].children);
                acc = acc + t@;
                assert forall|rest: Seq<Seq<Rect>>| #[trigger] laid_children(self.splits_view(), key.0, rects@, n as int, i + 1, paints@, fuel, rest, true)
                    == laid_out(sv0, key.0, area, p0, fuel, (head + acc) + rest) by {
                    assert(laid_children(before, key.0, rects@, n as int, i as int, p_before, fuel, t@ + rest, true)
                        == laid_out(sv0, key.0, area, p0, fuel, (head + acc_before) + (t@ + rest)));
                    assert((head + acc_before) + (t@ + rest) =~= (head + acc) + rest);
                }
            }
            i += 1;
        }
        proof {
            assert forall|rest: Seq<Seq<Rect>>| #[trigger] laid_out(sv0, key.0, area, p0, fuel, (head + acc) + rest)
                == (self.splits_view(), paints@, rest, true) by {
                assert(laid_children(self.splits_view(), key.0, rects@, n as int, n as int, paints@, fuel, rest, true)
                    == laid_out(sv0, key.0, area, p0, fuel, (head + acc) + rest));
            }
        }
        Ghost(head + acc)
    }

    /// Lay out the `i`-th child of a split in its segment; gives the segments that the solver
    /// gave for the splits under it.
    #[verifier::spinoff_prover]
    fn layout_child(&mut self, key: SplitKey, rects: &Vec<Rect>, n: usize, i: usize, direction: Direction, paints: &mut Vec<Paint>, Ghost(fuel): Ghost<nat>) -> (tape: Ghost<Seq<Seq<Rect>>>)
        requires
            old(self).wf(),
            old(self).splits_map().contains_key(key.0),
            old(self).splits_view()[key.0].children.len() == n,
            old(self).splits_view()[key.0].direction == direction,
            rects@.len() == 2 * n - 1,
            i < n,
            fuel > old(self).height@ - old(self).depth@[key.0],
        ensures
            final(self).wf(),
            forall|rest: Seq<Seq<Rect>>| #[trigger] laid_children(old(self).splits_view(), key.0, rects@, n as int, i as int, old(paints)@, fuel, tape@ + rest, true)
                == laid_children(final(self).splits_view(), key.0, rects@, n as int, i + 1, final(paints)@, fuel, rest, true),
            shape_same(old(self).splits_view(), final(self).splits_view()),
            final(self).panes_map() == old(self).panes_map(),
            final(self).root_spec() == old(self).root_spec(),
            final(self).focused_spec() == old(self).focused_spec(),
            final(self).drag_spec() == old(self).drag_spec(),
            final(self).depth == old(self).depth,
            final(self).height == old(self).height,
        decreases fuel, 0nat,
    {
        let ghost sv0 = self.splits_view();
        let ghost p0 = paints@;
        let rl = rects.len();
        let r = rects[2 * i];
        let width = match direction {
            Direction::Horizontal => r.width,
            Direction::Vertical => r.height,
        };
        let ghost sv1 = self.splits_view();
        let ghost sm1 = self.splits_map();
        let child = splits_get(&self.splits, key.0).children[i];
        proof {
            assert(sm1[key.0].children@[i as int] == child);
            assert(sv1[key.0].children[i as int] == child);
        }
        splits_get_mut(&mut self.splits, key.0).sizes.set(i, width);
        proof {
            assert(self.splits_map().dom() =~= sm1.dom());
            lemma_shape_kept(sm1, self.splits_map(), self.panes_map(), self.root.0, self.depth@, self.height@);
            assert(self.splits_view() =~= sv1.insert(key.0, SplitView { sizes: sv1[key.0].sizes.update(i as int, width), ..sv1[key.0] }));
        }
        let ghost sv2 = self.splits_view();
        match child {
            Child::Pane(p) => {
                paints.push(Paint::Pane(p, r));
                proof {
                    assert forall|rest: Seq<Seq<Rect>>| #[trigger] laid_children(sv0, key.0, rects@, n as int, i as int, p0, fuel, Seq::<Seq<Rect>>::empty() + rest, true)
                        == laid_children(self.splits_view(), key.0, rects@, n as int, i + 1, paints@, fuel, rest, true) by {
                        assert(Seq::<Seq<Rect>>::empty() + rest =~= rest);
                    }
                }
                Ghost(Seq::empty())
            },
            Child::Split(c) => {
                proof {
                    assert(self.splits_map()[key.0].children@[i as int] == Child::Split(c));
                    assert(self.splits_map().contains_key(c.0));
                    assert(c.0 != self.root.0);
                }
                let p1 = Ghost(paints@);
                let t = self.layout_split(c, r, paints, Ghost((fuel - 1) as nat));
                proof {
                    assert forall|rest: Seq<Seq<Rect>>| #[trigger] laid_children(sv0, key.0, rects@, n as int, i as int, p0, fuel, t@ + rest, true)
                        == laid_children(self.splits_view(), key.0, rects@, n as int, i + 1, paints@, fuel, rest, true) by {
                        assert(laid_out(sv2, c.0, r, p1@, (fuel - 1) as nat, t@ + rest) == (self.splits_view(), paints@, rest, true));
                    }
                }
                t
            },
        }
    }

    /// Lay the panes out in an area and say what to draw, in order: each split's borders, then
    /// its children, a pane's widget in its area or a split laid out in its own. Each split
    /// records its area and its children's extents; the segments of each split are those the
    /// solver gave, taken split by split as they are laid out. With an empty root nothing is
    /// laid out: the default widget takes the area.
    pub fn layout(&mut self, area: Rect) -> (paints: Vec<Paint>)
        requires
            old(self).wf(),
        ensures
            final(self).wf(),
            old(self).splits_view()[old(self).root_spec().0].children.len() == 0 ==> *final(self) == *old(self) && paints@.len() == 0,
            old(self).splits_view()[old(self).root_spec().0].children.len() > 0 ==>
                exists|tape: Seq<Seq<Rect>>| #[trigger] laid_out(old(self).splits_view(), old(self).root_spec().0, area, seq![], old(self).fuel(), tape)
                    == (final(self).splits_view(), paints@, Seq::<Seq<Rect>>::empty(), true),
            final(self).panes_map() == old(self).panes_map(),
            final(self).root_spec() == old(self).root_spec(),
            final(self).focused_spec() == old(self).focused_spec(),
            final(self).drag_spec() == old(self).drag_spec(),
            final(self).fuel() == old(self).fuel(),
    {
        let mut paints: Vec<Paint> = Vec::new();
        if self.is_empty() {
            return paints;
        }
        proof {
            assert(paints@ =~= seq![]);
        }
        let root = self.root;
        let ghost sv0 = self.splits_view();
        let t = self.layout_split(root, area, &mut paints, Ghost(self.height@ + 1));
        proof {
            let e = Seq::<Seq<Rect>>::empty();
            assert(t@ + e =~= t@);
            assert(laid_out(sv0, root.0, area, seq![], self.fuel(), t@ + e) == (self.splits_view(), paints@, e, true));
            assert(laid_out(sv0, root.0, area, seq![], self.fuel(), t@) == (self.splits_view(), paints@, e, true));
            assert(laid_out(old(self).splits_view(), old(self).root_spec().0, area, seq![], old(self).fuel(), t@)
                == (self.splits_view(), paints@, e, true));
        }
        paints
    }
}


impl Panes {
    proof fn lemma_index_of(self, s: u64, i: int, c: Child)
        requires
            self.wf(),
            self.splits_map().contains_key(s),
            0 <= i < self.splits_view()[s].children.len(),
            self.splits_view()[s].children[i] == c,
        ensures
            self.index_of(s, c) == i,
    {
        let sm = self.splits_map();
        assert(sm[s].children@[i] == c);
        let j = self.index_of(s, c);
        if j != i {
            assert(sm[s].children@[j] == c);
            if j < i {
                assert(sm[s].children@[j] != sm[s].children@[i]);
            } else {
                assert(sm[s].children@[i] != sm[s].children@[j]);
            }
        }
    }
}

/// Closing the pane that a split just made gives back the layout as it was before the split,
/// and gives the focus back to the pane that was split.
#[verifier::spinoff_prover]
#[verifier::rlimit(100)]
pub proof fn lemma_close_undoes_split(p0: Panes, p1: Panes, p2: Panes, key: PaneKey, direction: Direction, clone: PaneKey, hook: Option<PaneKey>)
    requires
        p0.wf(),
        p0.panes_map().contains_key(key.0),
        p1.wf(),
        p0.split_post(p1, key, direction, clone),
        p1.close_post(p2, clone, hook),
    ensures
        p2.splits_view() == p0.splits_view(),
        p2.panes_map() == p0.panes_map(),
        p2.focused_spec() == Some(key),
        hook is None,
{
    let sv0 = p0.splits_view();
    let pm0 = p0.panes_map();
    let sm0 = p0.splits_map();
    let parent = pm0[key.0];
    let ps = sv0[parent.0];
    let idx = p0.index_of(parent.0, Child::Pane(key));
    assert(sm0[parent.0].children@.contains(Child::Pane(key)));
    let k0 = choose|k: int| 0 <= k < sm0[parent.0].children@.len() && sm0[parent.0].children@[k] == Child::Pane(key);
    assert(sv0[parent.0].children[k0] == Child::Pane(key));
    p0.lemma_index_of(parent.0, k0, Child::Pane(key));
    assert(ps.children[idx] == Child::Pane(key));
    assert(sm0[parent.0].sizes@.len() == sm0[parent.0].children@.len());
    if ps.direction == direction {
        let sv1 = p1.splits_view();
        assert(p1.panes_map()[clone.0] == parent);
        assert(sv1[parent.0].children[idx] == Child::Pane(clone));
        p1.lemma_index_of(parent.0, idx, Child::Pane(clone));
        assert(sv1[parent.0].children.len() > 2 || sv1[parent.0].parent is None) by {
            if parent.0 != p0.root_spec().0 {
                assert(sm0[parent.0].children@.len() >= 2);
            }
        }
        assert(p1.closes_in_place(clone));
        assert(ps.children.insert(idx, Child::Pane(clone)).remove(idx) =~= ps.children);
        assert(ps.sizes.insert(idx, ps.sizes[idx]).remove(idx) =~= ps.sizes);
        assert(p2.splits_view() =~= sv0);
        assert(p2.panes_map() =~= pm0);
        assert(nearest_child(p2.splits_view(), parent.0, idx) == Some(Child::Pane(key)));
    } else {
        let n = choose|n: SplitKey| {
            &&& !p0.splits_map().contains_key(n.0)
            &&& p1.panes_map() == p0.panes_map().insert(clone.0, n).insert(key.0, n)
            &&& #[trigger] p1.splits_view() == p0.splits_view().insert(parent.0, SplitView {
                children: ps.children.update(idx, Child::Split(n)),
                ..ps
            }).insert(n.0, SplitView {
                area: Rect { x: 0, y: 0, width: 0, height: 0 },
                direction,
                children: seq![Child::Pane(key), Child::Pane(clone)],
                parent: Some(parent),
                sizes: seq![1u16, 1u16],
            })
        };
        let sv1 = p1.splits_view();
        assert(n.0 != parent.0);
        assert(p1.panes_map()[clone.0] == n);
        assert(sv1[n.0].children[1] == Child::Pane(clone));
        p1.lemma_index_of(n.0, 1, Child::Pane(clone));
        assert(!p1.closes_in_place(clone));
        assert(sv1[parent.0].children[idx] == Child::Split(n));
        p1.lemma_index_of(parent.0, idx, Child::Split(n));
        assert(ps.children.update(idx, Child::Split(n)).update(idx, Child::Pane(key)) =~= ps.children);
        assert(p2.splits_view() =~= sv0);
        assert(p2.panes_map() =~= pm0);
        assert(nearest_child(p2.splits_view(), parent.0, idx) == Some(Child::Pane(key)));
    }
}

impl Panes {
    /// Whether a pane has the focus whenever panes are open.
    pub open spec fn focus_held(self) -> bool {
        self.panes_map().len() > 0 ==> self.focused_spec() is Some
    }

    /// From a split other than the root, always taking the first child reaches a pane.
    proof fn lemma_first_pane_found(self, s: u64, fuel: nat)
        requires
            self.wf(),
            self.splits_map().contains_key(s),
            s != self.root.0,
            fuel > self.height@ - self.depth@[s],
        ensures
            first_pane(self.splits_view(), s, fuel) is Some,
        decreases fuel,
    {
        let sm = self.splits_map();
        assert(sm[s].children@.len() >= 2);
        match sm[s].children@[0] {
            Child::Pane(_) => {},
            Child::Split(c) => {
                assert(sm.contains_key(c.0) && sm[c.0].parent == Some(SplitKey(s)));
                self.lemma_first_pane_found(c.0, (fuel - 1) as nat);
            },
        }
    }

    /// Whether a map of splits has the same children as this layout for every split at least
    /// as deep as `d`.
    spec fn same_below(self, sv1: Map<u64, SplitView>, d: nat) -> bool {
        forall|t: u64|
            #![trigger sv1.contains_key(t)]
            #![trigger sv1[t].children]
            self.splits_map().contains_key(t) && self.depth@[t] >= d ==> sv1.contains_key(t)
                && sv1[t].children == self.splits_view()[t].children
    }

    /// Taking first children from a split only looks at the splits below it.
    proof fn lemma_first_pane_frame(self, sv1: Map<u64, SplitView>, s: u64, fuel: nat)
        requires
            self.wf(),
            self.splits_map().contains_key(s),
            self.same_below(sv1, self.depth@[s]),
        ensures
            first_pane(sv1, s, fuel) == first_pane(self.splits_view(), s, fuel),
        decreases fuel,
    {
        let sm = self.splits_map();
        assert(sv1.contains_key(s) && sv1[s].children == sm[s].children@);
        if fuel > 0 && sm[s].children@.len() > 0 {
            match sm[s].children@[0] {
                Child::Pane(_) => {},
                Child::Split(c) => {
                    assert(sm.contains_key(c.0) && sm[c.0].parent == Some(SplitKey(s)));
                    assert(c.0 != self.root.0);
                    assert(self.depth@[c.0] > self.depth@[s]);
                    assert(self.same_below(sv1, self.depth@[c.0]));
                    self.lemma_first_pane_frame(sv1, c.0, (fuel - 1) as nat);
                },
            }
        }
    }

    /// A split other than the root lies under a split child of the root.
    proof fn lemma_under_root(self, s: u64)
        requires
            self.wf(),
            self.splits_map().contains_key(s),
            s != self.root.0,
        ensures
            exists|i: int|
                0 <= i < self.splits_view()[self.root.0].children.len()
                    && #[trigger] self.splits_view()[self.root.0].children[i] is Split,
        decreases self.depth@[s],
    {
        let sm = self.splits_map();
        let p = sm[s].parent->0;
        assert(sm.contains_key(p.0) && sm[p.0].children@.contains(Child::Split(SplitKey(s))));
        if p.0 == self.root.0 {
            let i = choose|i: int| 0 <= i < sm[p.0].children@.len() && sm[p.0].children@[i] == Child::Split(SplitKey(s));
            assert(self.splits_view()[self.root.0].children[i] is Split);
        } else {
            self.lemma_under_root(p.0);
        }
    }
}

/// While panes are open one of them has the focus, and closing a pane keeps it so: when the
/// closed pane had the focus and panes remain, one of them gets it.
#[verifier::spinoff_prover]
#[verifier::rlimit(100)]
pub proof fn lemma_close_keeps_focus(p0: Panes, p1: Panes, key: PaneKey, hook: Option<PaneKey>)
    requires
        p0.wf(),
        p1.wf(),
        p0.panes_map().contains_key(key.0),
        p0.close_post(p1, key, hook),
        p0.focus_held(),
    ensures
        p1.focus_held(),
{
    let sm = p0.splits_map();
    let pm = p0.panes_map();
    assert(pm.dom().contains(key.0));
    if p1.panes_map().len() > 0 && p0.focused_spec() == Some(key) {
        let sv0 = p0.splits_view();
        let sv1 = p1.splits_view();
        let parent = pm[key.0];
        let ps = sv0[parent.0];
        assert(sm.contains_key(parent.0) && sm[parent.0].children@.contains(Child::Pane(key)));
        let idx = p0.index_of(parent.0, Child::Pane(key));
        assert(0 <= idx < ps.children.len() && ps.children[idx] == Child::Pane(key));
        if p0.closes_in_place(key) {
            let kids = ps.children.remove(idx);
            assert(sv1[parent.0].children == kids);
            if kids.len() == 0 {
                // The root held only the closed pane, so no pane is left.
                assert(parent.0 == p0.root.0);
                vstd::set_lib::lemma_set_empty_equivalency_len(p1.panes_map().dom());
                let q = choose|q: u64| p1.panes_map().dom().contains(q);
                assert(p1.panes_map() == pm.remove(key.0));
                assert(pm.contains_key(q) && q != key.0);
                let t = pm[q];
                assert(sm.contains_key(t.0) && sm[t.0].children@.contains(Child::Pane(PaneKey(q))));
                if t.0 == parent.0 {
                    assert(ps.children[0] == Child::Pane(key));
                } else {
                    p0.lemma_under_root(t.0);
                    assert(ps.children[0] == Child::Pane(key));
                }
            } else {
                let n = kids.len();
                let i = if idx < n { idx } else { n - 1 };
                assert(p1.focused_spec() == focus_after(sv1, parent.0, idx, p0.fuel()));
                match kids[i] {
                    Child::Pane(_) => {},
                    Child::Split(c) => {
                        let k = if i < idx { i } else { i + 1 };
                        assert(kids[i] == ps.children[k]);
                        assert(sm[parent.0].children@[k] == Child::Split(c));
                        assert(sm.contains_key(c.0) && sm[c.0].parent == Some(parent));
                        assert forall|t: u64|
                            sm.contains_key(t) && p0.depth@[t] >= p0.depth@[c.0] implies sv1.contains_key(t)
                                && #[trigger] sv1[t].children == sv0[t].children by {
                            assert(t != parent.0);
                        }
                        assert(p0.same_below(sv1, p0.depth@[c.0]));
                        p0.lemma_first_pane_frame(sv1, c.0, p0.fuel());
                        p0.lemma_first_pane_found(c.0, p0.fuel());
                    },
                }
            }
        } else {
            let remaining = ps.children[1 - idx];
            let g = ps.parent->0;
            let gs = sv0[g.0];
            assert(sm.contains_key(g.0) && sm[g.0].children@.contains(Child::Split(parent)));
            let j = p0.index_of(g.0, Child::Split(parent));
            assert(0 <= j < gs.children.len() && gs.children[j] == Child::Split(parent));
            assert(p1.focused_spec() == focus_after(sv1, g.0, j, p0.fuel()));
            assert(sm[parent.0].children@[1 - idx] == remaining);
            match remaining {
                Child::Pane(_) => {
                    assert(sv1[g.0].children == gs.children.update(j, remaining));
                },
                Child::Split(c) => {
                    assert(sm.contains_key(c.0) && sm[c.0].parent == Some(parent));
                    assert(c.0 != g.0);
                    assert(sv1[g.0].children == gs.children.update(j, remaining));
                    assert forall|t: u64|
                        sm.contains_key(t) && p0.depth@[t] >= p0.depth@[c.0] implies sv1.contains_key(t)
                            && #[trigger] sv1[t].children == sv0[t].children by {
                        assert(t != parent.0 && t != g.0);
                    }
                    assert(p0.same_below(sv1, p0.depth@[c.0]));
                    p0.lemma_first_pane_frame(sv1, c.0, p0.fuel());
                    p0.lemma_first_pane_found(c.0, p0.fuel());
                },
            }
        }
    }
}

} // verus!
