use vstd::prelude::*;

use crate::edit::{
    add_child, add_child_post, duplicate, duplicate_post, remove, remove_post, rename, rename_post,
    set_type, set_type_post, sort, sort_post, ChangeState,
};
use crate::editor::{
    commit_text, commit_text_post, set_real, set_real_post, toggle_boolean, toggle_boolean_post,
};
use crate::path::{child_keys, segs};
use crate::value::{Tree, Value, ValueType};

verus! {

/// A copy of a path.
pub fn copy_path(p: &[String]) -> (r: Vec<String>)
    ensures
        segs(r@) == segs(p@),
{
    let mut r: Vec<String> = Vec::new();
    let mut i: usize = 0;
    while i < p.len()
        invariant
            i <= p@.len(),
            r@.len() == i,
            forall|j: int| 0 <= j < i ==> #[trigger] r@[j]@ == p@[j]@,
        decreases p@.len() - i,
    {
        r.push(p[i].clone());
        i += 1;
    }
    proof {
        assert(segs(r@) =~= segs(p@));
    }
    r
}

/// Whether two paths name the same node position.
pub fn same_path(a: &[String], b: &[String]) -> (r: bool)
    ensures
        r == (segs(a@) == segs(b@)),
{
    if a.len() != b.len() {
        proof {
            assert(segs(a@).len() != segs(b@).len());
        }
        return false;
    }
    let mut i: usize = 0;
    while i < a.len()
        invariant
            i <= a@.len(),
            a@.len() == b@.len(),
            forall|j: int| 0 <= j < i ==> #[trigger] a@[j]@ == b@[j]@,
        decreases a@.len() - i,
    {
        if a[i] != b[i] {
            proof {
                assert(segs(a@)[i as int] != segs(b@)[i as int]);
            }
            return false;
        }
        i += 1;
    }
    proof {
        assert(segs(a@) =~= segs(b@));
    }
    true
}

/// The expansion flag recorded last for `p` among `entries`.
pub open spec fn flag_of(entries: Seq<(Seq<Seq<char>>, bool)>, p: Seq<Seq<char>>) -> Option<bool>
    decreases entries.len(),
{
    if entries.len() == 0 {
        None
    } else if entries.last().0 == p {
        Some(entries.last().1)
    } else {
        flag_of(entries.drop_last(), p)
    }
}

/// Per-node interface state that outlives a pass: whether each node is
/// expanded, keyed by the node's path. Nodes never recorded are collapsed,
/// except the root.
pub struct UiState {
    entries: Vec<(Vec<String>, bool)>,
}

impl UiState {
    pub closed spec fn flags(&self) -> Seq<(Seq<Seq<char>>, bool)> {
        self.entries@.map_values(|e: (Vec<String>, bool)| (segs(e.0@), e.1))
    }

    /// Whether the node at `p` is shown expanded.
    pub open spec fn expanded(&self, p: Seq<Seq<char>>) -> bool {
        match flag_of(self.flags(), p) {
            Some(b) => b,
            None => p.len() == 0,
        }
    }

    pub fn new() -> (r: UiState)
        ensures
            forall|p: Seq<Seq<char>>| r.expanded(p) == (p.len() == 0),
    {
        let r = UiState { entries: Vec::new() };
        proof {
            assert(r.flags() =~= Seq::<(Seq<Seq<char>>, bool)>::empty());
        }
        r
    }

    pub fn is_expanded(&self, path: &[String]) -> (r: bool)
        ensures
            r == self.expanded(segs(path@)),
    {
        let mut i: usize = self.entries.len();
        let ghost f = self.flags();
        proof {
            assert(f.take(f.len() as int) =~= f);
        }
        while i > 0
            invariant
                i <= self.entries@.len(),
                f == self.flags(),
                f.len() == self.entries@.len(),
                flag_of(f, segs(path@)) == flag_of(f.take(i as int), segs(path@)),
            decreases i,
        {
            let ghost pre = f.take(i as int);
            proof {
                assert(pre.drop_last() =~= f.take(i - 1));
                assert(pre.last() == f[i - 1]);
            }
            if same_path(self.entries[i - 1].0.as_slice(), path) {
                return self.entries[i - 1].1;
            }
            i -= 1;
        }
        path.len() == 0
    }

    pub fn set_expanded(&mut self, path: &[String], on: bool)
        ensures
            final(self).expanded(segs(path@)) == on,
            forall|q: Seq<Seq<char>>|
                q != segs(path@) ==> final(self).expanded(q) == old(self).expanded(q),
    {
        let p = copy_path(path);
        let ghost before = self.flags();
        self.entries.push((p, on));
        proof {
            assert(self.flags() =~= before.push((segs(path@), on)));
            assert(self.flags().drop_last() =~= before);
        }
    }
}

/// An item of a row's context menu.
pub enum MenuAction {
    AddChild,
    Sort,
    Duplicate,
    Remove,
}

/// One thing the user did on a row.
pub enum RowAction {
    /// Flipped the disclosure control.
    Toggle,
    /// Committed a new key.
    Rename(String),
    /// Chose a context-menu item.
    Menu(MenuAction),
    /// Chose a kind in the type selector.
    Retype(ValueType),
    /// Committed text in the value field.
    CommitText(String),
    /// Dragged the number to the value with these IEEE-754 bits.
    SetReal(u64),
    /// Clicked the boolean switch.
    FlipBoolean,
}

/// What one action does: the document goes from `t0` to `t1`, the row's
/// path from `p0` to `p1`, the interface state from `u0` to `u1`, with
/// outcome `r`.
pub open spec fn action_post(
    t0: Tree,
    t1: Tree,
    p0: Seq<Seq<char>>,
    p1: Seq<Seq<char>>,
    u0: UiState,
    u1: UiState,
    a: RowAction,
    r: ChangeState,
) -> bool {
    match a {
        RowAction::Toggle => r == ChangeState::Unchanged && t1 == t0 && p1 == p0 && u1.expanded(p0)
            == !u0.expanded(p0) && forall|q: Seq<Seq<char>>|
            q != p0 ==> u1.expanded(q) == u0.expanded(q),
        RowAction::Rename(n) => rename_post(t0, t1, p0, p1, n@, r) && u1.flags() == u0.flags(),
        _ => p1 == p0 && u1.flags() == u0.flags() && match a {
            RowAction::Menu(MenuAction::AddChild) => add_child_post(t0, t1, p0, r),
            RowAction::Menu(MenuAction::Sort) => sort_post(t0, t1, p0, r),
            RowAction::Menu(MenuAction::Duplicate) => duplicate_post(t0, t1, p0, r),
            RowAction::Menu(MenuAction::Remove) => remove_post(t0, t1, p0, r),
            RowAction::Retype(ty) => set_type_post(t0, t1, p0, ty, r),
            RowAction::CommitText(t) => commit_text_post(t0, t1, p0, t@, r),
            RowAction::SetReal(bits) => set_real_post(t0, t1, p0, bits, r),
            RowAction::FlipBoolean => toggle_boolean_post(t0, t1, p0, r),
            _ => false,
        },
    }
}

/// The most severe of a sequence of outcomes.
pub open spec fn outcome_of(rs: Seq<ChangeState>) -> ChangeState
    decreases rs.len(),
{
    if rs.len() == 0 {
        ChangeState::Unchanged
    } else {
        outcome_of(rs.drop_last()).join(rs.last())
    }
}

/// The states `ts` (documents), `ps` (row paths) and `us` (interface
/// states) pass through, and the outcomes `rs`, when a row's actions are
/// applied in order until one gives `Removed`: action `i` leads from state
/// `i` to state `i + 1`, and the actions after a `Removed` are not applied.
pub open spec fn applied_in_order(
    ts: Seq<Tree>,
    ps: Seq<Seq<Seq<char>>>,
    us: Seq<UiState>,
    rs: Seq<ChangeState>,
    acts: Seq<RowAction>,
) -> bool {
    &&& ts.len() == rs.len() + 1
    &&& ps.len() == rs.len() + 1
    &&& us.len() == rs.len() + 1
    &&& rs.len() <= acts.len()
    &&& forall|i: int|
        0 <= i < rs.len() ==> #[trigger] action_post(
            ts[i],
            ts[i + 1],
            ps[i],
            ps[i + 1],
            us[i],
            us[i + 1],
            acts[i],
            rs[i],
        )
    &&& forall|i: int| 0 <= i < rs.len() - 1 ==> #[trigger] rs[i] != ChangeState::Removed
    &&& rs.len() < acts.len() ==> rs.len() > 0 && rs.last() == ChangeState::Removed
}

/// What applying a row's actions in order does: from document `t0`, path
/// `p0` and interface state `u0` to `t1`, `p1` and `u1`, with outcome `r`.
pub open spec fn actions_post(
    t0: Tree,
    t1: Tree,
    p0: Seq<Seq<char>>,
    p1: Seq<Seq<char>>,
    u0: UiState,
    u1: UiState,
    acts: Seq<RowAction>,
    r: ChangeState,
) -> bool {
    exists|ts: Seq<Tree>, ps: Seq<Seq<Seq<char>>>, us: Seq<UiState>, rs: Seq<ChangeState>|
        #[trigger] applied_in_order(ts, ps, us, rs, acts) && ts[0] == t0 && ts.last() == t1 && ps[0]
            == p0 && ps.last() == p1 && us[0] == u0 && us.last() == u1 && r == outcome_of(rs)
}

/// Applies one action to the row at `path`; a rename also updates `path`.
pub fn apply_action(
    doc: &mut Value,
    path: &mut Vec<String>,
    ui: &mut UiState,
    action: RowAction,
) -> (r: ChangeState)
    ensures
        action_post(
            old(doc).tree(),
            final(doc).tree(),
            segs(old(path)@),
            segs(final(path)@),
            *old(ui),
            *final(ui),
            action,
            r,
        ),
        segs(final(path)@).len() == segs(old(path)@).len(),
        r != ChangeState::Removed ==> final(path)@ == old(path)@,
{
    match action {
        RowAction::Toggle => {
            let on = ui.is_expanded(path.as_slice());
            ui.set_expanded(path.as_slice(), !on);
            ChangeState::Unchanged
        },
        RowAction::Rename(n) => rename(doc, path, n),
        RowAction::Menu(MenuAction::AddChild) => add_child(doc, path.as_slice()),
        RowAction::Menu(MenuAction::Sort) => sort(doc, path.as_slice()),
        RowAction::Menu(MenuAction::Duplicate) => duplicate(doc, path.as_slice()),
        RowAction::Menu(MenuAction::Remove) => remove(doc, path.as_slice()),
        RowAction::Retype(ty) => set_type(doc, path.as_slice(), ty),
        RowAction::CommitText(t) => commit_text(doc, path.as_slice(), t.as_str()),
        RowAction::SetReal(bits) => set_real(doc, path.as_slice(), bits),
        RowAction::FlipBoolean => toggle_boolean(doc, path.as_slice()),
    }
}

/// Applies a row's actions in order, stopping after one that gives
/// `Removed`; returns the most severe outcome.
pub fn apply_actions(
    doc: &mut Value,
    path: &mut Vec<String>,
    ui: &mut UiState,
    actions: Vec<RowAction>,
) -> (r: ChangeState)
    ensures
        actions_post(
            old(doc).tree(),
            final(doc).tree(),
            segs(old(path)@),
            segs(final(path)@),
            *old(ui),
            *final(ui),
            actions@,
            r,
        ),
        segs(final(path)@).len() == segs(old(path)@).len(),
        r != ChangeState::Removed ==> final(path)@ == old(path)@,
{
    let mut acts = actions;
    let ghost all = acts@;
    let ghost mut ts: Seq<Tree> = seq![doc.tree()];
    let ghost mut ps: Seq<Seq<Seq<char>>> = seq![segs(path@)];
    let ghost mut us: Seq<UiState> = seq![*ui];
    let ghost mut rs: Seq<ChangeState> = Seq::empty();
    let mut ret = ChangeState::Unchanged;
    while acts.len() > 0 && ret != ChangeState::Removed
        invariant
            applied_in_order(ts, ps, us, rs, all.take(rs.len() as int)),
            rs.len() <= all.len(),
            acts@ == all.skip(rs.len() as int),
            ts[0] == old(doc).tree(),
            ps[0] == segs(old(path)@),
            us[0] == *old(ui),
            ts.last() == doc.tree(),
            ps.last() == segs(path@),
            us.last() == *ui,
            ret == outcome_of(rs),
            ret == ChangeState::Removed <==> rs.len() > 0 && rs.last() == ChangeState::Removed,
            segs(path@).len() == segs(old(path)@).len(),
            ret != ChangeState::Removed ==> path@ == old(path)@,
            all == actions@,
        decreases acts@.len(),
    {
        let ghost k = rs.len() as int;
        let ghost before_acts = acts@;
        let a = acts.remove(0);
        proof {
            assert(a == all[k]);
            assert(acts@ =~= all.skip(k + 1));
        }
        let ghost u_prev = *ui;
        let o = apply_action(doc, path, ui, a);
        proof {
            let ts2 = ts.push(doc.tree());
            let ps2 = ps.push(segs(path@));
            let us2 = us.push(*ui);
            let rs2 = rs.push(o);
            assert(rs2.drop_last() =~= rs);
            assert forall|i: int| 0 <= i < rs2.len() implies #[trigger] action_post(
                ts2[i],
                ts2[i + 1],
                ps2[i],
                ps2[i + 1],
                us2[i],
                us2[i + 1],
                all.take(k + 1)[i],
                rs2[i],
            ) by {
                if i < k {
                    assert(all.take(k + 1)[i] == all.take(k)[i]);
                    assert(action_post(ts[i], ts[i + 1], ps[i], ps[i + 1], us[i], us[i + 1], all.take(k)[i], rs[i]));
                }
            }
            assert forall|i: int| 0 <= i < rs2.len() - 1 implies #[trigger] rs2[i] != ChangeState::Removed by {
                if i < k - 1 {
                    assert(rs2[i] == rs[i]);
                } else {
                    assert(i == k - 1);
                    assert(rs2[i] == rs.last());
                }
            }
            ts = ts2;
            ps = ps2;
            us = us2;
            rs = rs2;
        }
        ret = ret.bitor(o);
    }
    proof {
        let n = rs.len() as int;
        if n < all.len() {
            assert(ret == ChangeState::Removed);
        }
        assert forall|i: int| 0 <= i < n implies #[trigger] action_post(
            ts[i],
            ts[i + 1],
            ps[i],
            ps[i + 1],
            us[i],
            us[i + 1],
            all[i],
            rs[i],
        ) by {
            assert(all.take(n)[i] == all[i]);
            assert(action_post(ts[i], ts[i + 1], ps[i], ps[i + 1], us[i], us[i + 1], all.take(n)[i], rs[i]));
        }
        assert(applied_in_order(ts, ps, us, rs, all));
    }
    ret
}

/// Neither path is a prefix of the other.
pub open spec fn incomparable(p: Seq<Seq<char>>, q: Seq<Seq<char>>) -> bool {
    !p.is_prefix_of(q) && !q.is_prefix_of(p)
}

/// The first path not yet handed out at level `d` or, where that level is
/// done, below it.
pub closed spec fn next_from(levels: Seq<Vec<Vec<String>>>, cursor: Seq<usize>, d: int) -> Option<
    Seq<Seq<char>>,
>
    decreases d + 1,
{
    if d < 0 {
        None
    } else if cursor[d] < levels[d]@.len() {
        Some(segs(levels[d]@[cursor[d] as int]@))
    } else {
        next_from(levels, cursor, d - 1)
    }
}

proof fn lemma_next_from_prefix(
    levels: Seq<Vec<Vec<String>>>,
    cursor: Seq<usize>,
    levels2: Seq<Vec<Vec<String>>>,
    cursor2: Seq<usize>,
    d: int,
)
    requires
        d < levels.len(),
        d < levels2.len(),
        d < cursor.len(),
        d < cursor2.len(),
        forall|k: int| 0 <= k <= d ==> levels[k] == levels2[k] && cursor[k] == cursor2[k],
    ensures
        next_from(levels, cursor, d) == next_from(levels2, cursor2, d),
    decreases d + 1,
{
    if d >= 0 {
        lemma_next_from_prefix(levels, cursor, levels2, cursor2, d - 1);
    }
}

/// One pass over the document's rows, in display order: a row, then (if it
/// is an expanded container) its children, then its later siblings.
///
/// `levels[d]` holds the paths, all of length `d`, of the rows of one
/// container at depth `d`; `cursor[d]` is how many of them were handed out.
pub struct Walker {
    levels: Vec<Vec<Vec<String>>>,
    cursor: Vec<usize>,
    current: Option<Vec<String>>,
    outcome: ChangeState,
}

impl Walker {
    pub closed spec fn wf(&self) -> bool {
        &&& self.levels@.len() == self.cursor@.len()
        &&& forall|d: int|
            0 <= d < self.levels@.len() ==> #[trigger] self.cursor@[d] <= self.levels@[d]@.len()
        &&& forall|d: int, j: int|
            0 <= d < self.levels@.len() && 0 <= j < self.levels@[d]@.len()
                ==> #[trigger] self.levels@[d]@[j]@.len() == d
        &&& self.current matches Some(p) ==> self.levels@.len() > 0 && p@.len()
            == self.levels@.len() - 1
        &&& forall|d: int, i: int, j: int|
            0 <= d < self.levels@.len() && 0 <= i < j < self.levels@[d]@.len() ==> segs(
                #[trigger] self.levels@[d]@[i]@,
            ) != segs(#[trigger] self.levels@[d]@[j]@)
        &&& forall|d: int|
            1 <= d < self.levels@.len() ==> #[trigger] self.cursor@[d - 1] >= 1
        &&& forall|d: int, j: int|
            1 <= d < self.levels@.len() && 0 <= j < self.levels@[d]@.len() ==> segs(
                #[trigger] self.levels@[d]@[j]@,
            ).drop_last() == self.handed_out(d - 1)
        &&& self.current matches Some(p) ==> self.cursor@[self.levels@.len() - 1] >= 1 && segs(p@)
            == self.handed_out(self.levels@.len() - 1)
    }

    /// The path handed out last from level `d`.
    pub closed spec fn handed_out(&self, d: int) -> Seq<Seq<char>> {
        segs(self.levels@[d]@[self.cursor@[d] - 1]@)
    }

    /// The path handed out last from level `e` starts with the one handed
    /// out last from each level below it.
    proof fn lemma_chain(&self, e: int, d: int)
        requires
            self.wf(),
            0 <= d <= e < self.levels@.len(),
            self.cursor@[e] >= 1,
        ensures
            self.cursor@[d] >= 1,
            self.handed_out(e).len() == e,
            self.handed_out(e).take(d) == self.handed_out(d),
        decreases e - d,
    {
        let x = self.levels@[e]@[self.cursor@[e] - 1]@;
        assert(x.len() == e);
        assert(segs(x).len() == e);
        if d == e {
            assert(self.handed_out(e).take(d) =~= self.handed_out(e));
        } else {
            assert(self.cursor@[e - 1] >= 1);
            self.lemma_chain(e - 1, d);
            assert(segs(x).drop_last() == self.handed_out(e - 1));
            assert(self.handed_out(e).take(d) =~= self.handed_out(e - 1).take(d));
        }
    }

    proof fn lemma_next_is_pending(&self, d: int)
        requires
            self.wf(),
            d < self.levels@.len(),
            next_from(self.levels@, self.cursor@, d) is Some,
        ensures
            self.pending(next_from(self.levels@, self.cursor@, d).unwrap()),
        decreases d + 1,
    {
        if d >= 0 {
            if self.cursor@[d] < self.levels@[d]@.len() {
                let j = self.cursor@[d] as int;
                assert(segs(self.levels@[d]@[j]@) == next_from(self.levels@, self.cursor@, d).unwrap());
            } else {
                self.lemma_next_is_pending(d - 1);
            }
        }
    }

    /// After a row at `p` is removed, the walker excludes `p` (see
    /// `finish_row`), and every later step keeps it so (see `next_row` and
    /// `finish_row`). While it does, the next row it hands out is neither
    /// `p`, nor under `p`, nor above it: the removed subtree is never
    /// visited again in the pass.
    pub proof fn law_no_row_under_removed(&self, p: Seq<Seq<char>>)
        requires
            self.wf(),
            self.excludes(p),
            self.next_pending() is Some,
        ensures
            incomparable(p, self.next_pending().unwrap()),
    {
        self.lemma_next_is_pending(self.levels@.len() - 1);
    }

    /// No path still to be handed out is a prefix or an extension of `p`.
    pub closed spec fn excludes(&self, p: Seq<Seq<char>>) -> bool {
        forall|q: Seq<Seq<char>>| #[trigger] self.pending(q) ==> incomparable(p, q)
    }

    /// A row has been handed out and not yet finished.
    pub closed spec fn in_row_spec(&self) -> bool {
        self.current is Some
    }

    /// The path of the row handed out last.
    pub closed spec fn row(&self) -> Seq<Seq<char>> {
        segs(self.current.unwrap()@)
    }

    /// `q` is the path of a row still to be handed out from the containers
    /// seen so far.
    pub closed spec fn pending(&self, q: Seq<Seq<char>>) -> bool {
        exists|d: int, j: int|
            0 <= d < self.levels@.len() && self.cursor@[d] <= j < self.levels@[d]@.len()
                && #[trigger] segs(self.levels@[d]@[j]@) == q
    }

    /// The row that comes next: the first path not yet handed out in the
    /// deepest container that still has one.
    pub closed spec fn next_pending(&self) -> Option<Seq<Seq<char>>> {
        next_from(self.levels@, self.cursor@, self.levels@.len() - 1)
    }

    /// What the pass did to the document so far.
    pub closed spec fn outcome_spec(&self) -> ChangeState {
        self.outcome
    }

    /// A pass that starts at the root row.
    pub fn new() -> (r: Walker)
        ensures
            r.wf(),
            !r.in_row_spec(),
            r.outcome_spec() == ChangeState::Unchanged,
            forall|q: Seq<Seq<char>>| r.pending(q) <==> q.len() == 0,
    {
        let root: Vec<String> = Vec::new();
        let mut level: Vec<Vec<String>> = Vec::new();
        level.push(root);
        let mut levels: Vec<Vec<Vec<String>>> = Vec::new();
        levels.push(level);
        let mut cursor: Vec<usize> = Vec::new();
        cursor.push(0);
        let r = Walker { levels, cursor, current: None, outcome: ChangeState::Unchanged };
        proof {
            assert forall|q: Seq<Seq<char>>| r.pending(q) <==> q.len() == 0 by {
                if q.len() == 0 {
                    assert(segs(r.levels@[0]@[0]@) =~= q);
                }
            }
        }
        r
    }

    /// Whether a row has been handed out and not yet finished.
    pub fn in_row(&self) -> (r: bool)
        ensures
            r == self.in_row_spec(),
    {
        self.current.is_some()
    }

    /// What the pass did to the document so far: the most severe row
    /// outcome, where a row below the root counts `Removed` as `Changed`.
    pub fn outcome(&self) -> (r: ChangeState)
        ensures
            r == self.outcome_spec(),
    {
        self.outcome
    }

    /// Hands out the next row's path, or `None` when the pass is over.
    pub fn next_row(&mut self) -> (r: Option<Vec<String>>)
        requires
            old(self).wf(),
            !old(self).in_row_spec(),
        ensures
            final(self).wf(),
            final(self).outcome_spec() == old(self).outcome_spec(),
            r matches Some(p) ==> old(self).pending(segs(p@)) && final(self).in_row_spec()
                && final(self).row() == segs(p@) && old(self).next_pending() == Some(segs(p@)),
            r is None ==> !final(self).in_row_spec() && old(self).next_pending() is None
                && forall|q: Seq<Seq<char>>| !final(self).pending(q),
            forall|q: Seq<Seq<char>>| final(self).pending(q) ==> old(self).pending(q),
            forall|x: Seq<Seq<char>>|
                #[trigger] old(self).excludes(x) ==> final(self).excludes(x) && (r matches Some(p)
                    ==> incomparable(x, segs(p@))),
    {
        loop
            invariant
                self.wf(),
                !self.in_row_spec(),
                self.outcome == old(self).outcome,
                forall|q: Seq<Seq<char>>| self.pending(q) ==> old(self).pending(q),
                forall|q: Seq<Seq<char>>| old(self).pending(q) ==> self.pending(q),
                self.next_pending() == old(self).next_pending(),
            decreases self.levels@.len(),
        {
            if self.levels.len() == 0 {
                proof {
                    assert forall|q: Seq<Seq<char>>| !self.pending(q) by {}
                }
                return None;
            }
            let top = self.levels.len() - 1;
            let at = self.cursor[top];
            if at < self.levels[top].len() {
                let p = copy_path(self.levels[top][at].as_slice());
                let c = copy_path(p.as_slice());
                let ghost before = *self;
                self.cursor.set(top, at + 1);
                self.current = Some(c);
                proof {
                    assert(before.pending(segs(p@))) by {
                        assert(segs(before.levels@[top as int]@[at as int]@) == segs(p@));
                    }
                    assert forall|q: Seq<Seq<char>>| self.pending(q) implies old(self).pending(q) by {
                        let (d, j) = choose|d: int, j: int|
                            0 <= d < self.levels@.len() && self.cursor@[d] <= j
                                < self.levels@[d]@.len() && #[trigger] segs(self.levels@[d]@[j]@) == q;
                        assert(before.pending(q)) by {
                            assert(segs(before.levels@[d]@[j]@) == q);
                        }
                    }
                    assert(self.levels@[top as int]@[at as int]@.len() == top);
                    assert(segs(c@).len() == c@.len());
                    assert(segs(self.levels@[top as int]@[at as int]@).len() == top);
                    assert(c@.len() == top);
                    assert(self.levels@ == before.levels@);
                    assert forall|d: int| 0 <= d < self.levels@.len() implies #[trigger] self.cursor@[d]
                        <= self.levels@[d]@.len() by {
                        if d != top {
                            assert(self.cursor@[d] == before.cursor@[d]);
                        }
                    }
                }
                return Some(p);
            }
            let ghost before = *self;
            self.levels.pop();
            self.cursor.pop();
            proof {
                lemma_next_from_prefix(
                    before.levels@,
                    before.cursor@,
                    self.levels@,
                    self.cursor@,
                    top - 1,
                );
                assert forall|q: Seq<Seq<char>>| self.pending(q) implies before.pending(q) by {
                    let (d, j) = choose|d: int, j: int|
                        0 <= d < self.levels@.len() && self.cursor@[d] <= j
                            < self.levels@[d]@.len() && #[trigger] segs(self.levels@[d]@[j]@) == q;
                    assert(segs(before.levels@[d]@[j]@) == q);
                }
                assert forall|q: Seq<Seq<char>>| before.pending(q) implies self.pending(q) by {
                    let (d, j) = choose|d: int, j: int|
                        0 <= d < before.levels@.len() && before.cursor@[d] <= j
                            < before.levels@[d]@.len() && #[trigger] segs(before.levels@[d]@[j]@) == q;
                    assert(d != top);
                    assert(segs(self.levels@[d]@[j]@) == q);
                }
            }
        }
    }

    /// Finishes the row handed out last: applies the user's actions to the
    /// document in order, stopping after one that gives `Removed`, and
    /// returns the row's outcome. A row left `Removed` has its later
    /// siblings dropped from this pass, and nothing below it is visited; an
    /// expanded container otherwise has its children queued next.
    pub fn finish_row(
        &mut self,
        doc: &mut Value,
        ui: &mut UiState,
        actions: Vec<RowAction>,
    ) -> (r: ChangeState)
        requires
            old(self).wf(),
            old(self).in_row_spec(),
        ensures
            final(self).wf(),
            !final(self).in_row_spec(),
            final(self).outcome_spec() == old(self).outcome_spec().join(
                if old(self).row().len() > 0 && r == ChangeState::Removed {
                    ChangeState::Changed
                } else {
                    r
                },
            ),
            exists|p1: Seq<Seq<char>>|
                actions_post(
                    old(doc).tree(),
                    final(doc).tree(),
                    old(self).row(),
                    p1,
                    *old(ui),
                    *final(ui),
                    actions@,
                    r,
                ),
            r != ChangeState::Removed && final(ui).expanded(old(self).row()) ==> (
            final(doc).tree().resolve(old(self).row()) matches Some(t) ==> forall|i: int|
                0 <= i < t.child_names().len() ==> #[trigger] final(self).pending(
                    old(self).row().push(t.child_names()[i]),
                )),
            r == ChangeState::Removed ==> forall|q: Seq<Seq<char>>|
                #[trigger] final(self).pending(q) ==> old(self).pending(q) && q.len() < old(
                    self,
                ).row().len() && !old(self).row().is_prefix_of(q),
            r != ChangeState::Removed ==> forall|q: Seq<Seq<char>>|
                #[trigger] final(self).pending(q) ==> old(self).pending(q) || (q.len() == old(
                    self,
                ).row().len() + 1 && old(self).row().is_prefix_of(q)),
            r == ChangeState::Removed ==> final(self).excludes(old(self).row()),
            forall|x: Seq<Seq<char>>|
                #[trigger] old(self).excludes(x) && incomparable(old(self).row(), x)
                    ==> final(self).excludes(x),
    {
        let ghost before = *self;
        let mut path: Vec<String> = match self.current.take() {
            Some(p) => p,
            None => Vec::new(),
        };
        let ghost row0 = segs(path@);
        let ret = apply_actions(doc, &mut path, ui, actions);
        let ghost mut kids: Seq<Seq<char>> = Seq::empty();
        let ghost mut pushed = false;
        let depth = path.len();
        let top = self.levels.len() - 1;
        proof {
            assert(segs(path@).len() == path@.len());
            assert(row0.len() == before.current.unwrap()@.len());
        }
        if ret == ChangeState::Removed {
            let len = self.levels[top].len();
            self.cursor.set(top, len);
            proof {
                assert forall|d: int| 0 <= d < top implies self.levels@[d] == before.levels@[d]
                    && self.cursor@[d] == before.cursor@[d] by {}
                assert forall|d: int, j: int|
                    1 <= d < self.levels@.len() && 0 <= j < self.levels@[d]@.len()
                    implies segs(#[trigger] self.levels@[d]@[j]@).drop_last() == self.handed_out(d - 1) by {
                    assert(self.handed_out(d - 1) == before.handed_out(d - 1));
                }
                assert forall|d: int| 1 <= d < self.levels@.len() implies #[trigger] self.cursor@[d - 1]
                    >= 1 by {
                    assert(self.cursor@[d - 1] == before.cursor@[d - 1]);
                }
                assert forall|q: Seq<Seq<char>>| #[trigger] self.pending(q) implies before.pending(q)
                    && q.len() < row0.len() && !row0.is_prefix_of(q) by {
                    let (d, j) = choose|d: int, j: int|
                        0 <= d < self.levels@.len() && self.cursor@[d] <= j
                            < self.levels@[d]@.len() && #[trigger] segs(self.levels@[d]@[j]@) == q;
                    assert(d != top);
                    assert(segs(before.levels@[d]@[j]@) == q);
                    assert(self.levels@[d]@[j]@.len() == d);
                    assert(segs(self.levels@[d]@[j]@).len() == d);
                }
            }
        } else if ui.is_expanded(path.as_slice()) {
            let keys = child_keys(path.as_slice(), doc);
            let mut level: Vec<Vec<String>> = Vec::new();
            let mut i: usize = 0;
            while i < keys.len()
                invariant
                    i <= keys@.len(),
                    level@.len() == i,
                    segs(path@) == row0,
                    forall|j: int| 0 <= j < i ==> #[trigger] segs(level@[j]@) == row0.push(keys@[j]@),
                decreases keys@.len() - i,
            {
                let mut c = copy_path(path.as_slice());
                let ghost c0 = c@;
                c.push(keys[i].clone());
                proof {
                    assert(segs(c@) =~= segs(c0).push(keys@[i as int]@));
                }
                level.push(c);
                i += 1;
            }
            let ghost lv = level@;
            self.levels.push(level);
            self.cursor.push(0);
            proof {
                kids = segs(keys@);
                pushed = true;
                assert forall|i: int| 0 <= i < kids.len() implies segs(
                    #[trigger] self.levels@[top + 1]@[i]@,
                ) == row0.push(kids[i]) by {
                    assert(segs(lv[i]@) == row0.push(keys@[i]@));
                }
                assert(row0 == before.handed_out(top as int));
                assert forall|d: int| 0 <= d <= top implies self.levels@[d] == before.levels@[d]
                    && self.cursor@[d] == before.cursor@[d] by {}
                assert(self.handed_out(top as int) == before.handed_out(top as int));
                assert forall|d: int, a: int, b: int|
                    0 <= d < self.levels@.len() && 0 <= a < b < self.levels@[d]@.len()
                    implies segs(#[trigger] self.levels@[d]@[a]@) != segs(#[trigger] self.levels@[d]@[b]@) by {
                    if d == top + 1 {
                        assert(segs(lv[a]@) == row0.push(keys@[a]@));
                        assert(segs(lv[b]@) == row0.push(keys@[b]@));
                        assert(segs(lv[a]@).last() != segs(lv[b]@).last());
                    } else {
                        assert(self.levels@[d] == before.levels@[d]);
                    }
                }
                assert forall|d: int, j: int|
                    1 <= d < self.levels@.len() && 0 <= j < self.levels@[d]@.len()
                    implies segs(#[trigger] self.levels@[d]@[j]@).drop_last() == self.handed_out(d - 1) by {
                    if d == top + 1 {
                        assert(segs(lv[j]@) == row0.push(keys@[j]@));
                        assert(segs(lv[j]@).drop_last() =~= row0);
                    } else {
                        assert(self.levels@[d] == before.levels@[d]);
                        assert(self.handed_out(d - 1) == before.handed_out(d - 1));
                    }
                }
                assert forall|d: int| 1 <= d < self.levels@.len() implies #[trigger] self.cursor@[d - 1]
                    >= 1 by {
                    assert(self.cursor@[d - 1] == before.cursor@[d - 1]);
                }
                assert forall|d: int, j: int|
                    0 <= d < self.levels@.len() && 0 <= j < self.levels@[d]@.len()
                    implies #[trigger] self.levels@[d]@[j]@.len() == d by {
                    if d == top + 1 {
                        assert(segs(lv[j]@).len() == lv[j]@.len());
                        assert(row0.len() == top);
                    } else {
                        assert(self.levels@[d] == before.levels@[d]);
                    }
                }
                assert forall|d: int| 0 <= d < self.levels@.len() implies #[trigger] self.cursor@[d]
                    <= self.levels@[d]@.len() by {
                    if d < top + 1 {
                        assert(self.levels@[d] == before.levels@[d]);
                        assert(self.cursor@[d] == before.cursor@[d]);
                    }
                }
                assert forall|q: Seq<Seq<char>>| #[trigger] self.pending(q) implies before.pending(q) || (
                q.len() == row0.len() + 1 && row0.is_prefix_of(q)) by {
                    let (d, j) = choose|d: int, j: int|
                        0 <= d < self.levels@.len() && self.cursor@[d] <= j
                            < self.levels@[d]@.len() && #[trigger] segs(self.levels@[d]@[j]@) == q;
                    if d == top + 1 {
                        assert(q == row0.push(keys@[j]@));
                        assert(row0 =~= q.subrange(0, row0.len() as int));
                    } else {
                        assert(segs(before.levels@[d]@[j]@) == q);
                    }
                }
            }
        }
        let capped = if depth > 0 && ret == ChangeState::Removed {
            ChangeState::Changed
        } else {
            ret
        };
        self.outcome = self.outcome.bitor(capped);
        proof {
            assert(row0 == old(self).row());
            if pushed {
                let top1 = top + 1;
                assert(self.levels@.len() == top1 + 1);
                assert(self.cursor@[top1 as int] == 0);
                assert forall|i: int| 0 <= i < kids.len() implies #[trigger] self.pending(
                    row0.push(kids[i]),
                ) by {
                    assert(segs(self.levels@[top1 as int]@[i]@) == row0.push(kids[i]));
                }
            }
            if ret == ChangeState::Removed {
                assert forall|q: Seq<Seq<char>>| #[trigger] self.pending(q) implies incomparable(
                    row0,
                    q,
                ) by {
                    let (d, j) = choose|d: int, j: int|
                        0 <= d < self.levels@.len() && self.cursor@[d] <= j
                            < self.levels@[d]@.len() && #[trigger] segs(self.levels@[d]@[j]@) == q;
                    assert(d < top);
                    before.lemma_chain(top as int, d);
                    assert(row0 == before.handed_out(top as int));
                    assert(segs(before.levels@[d]@[j]@) == q);
                    assert(q.len() == d) by {
                        assert(before.levels@[d]@[j]@.len() == d);
                    }
                    if q.is_prefix_of(row0) {
                        assert(q =~= row0.take(d));
                        let i = before.cursor@[d] - 1;
                        assert(segs(before.levels@[d]@[i]@) != segs(before.levels@[d]@[j]@));
                    }
                }
            }
            assert forall|x: Seq<Seq<char>>|
                #[trigger] before.excludes(x) && incomparable(row0, x) implies self.excludes(x) by {
                assert forall|q: Seq<Seq<char>>| #[trigger] self.pending(q) implies incomparable(
                    x,
                    q,
                ) by {
                    if before.pending(q) {
                    } else {
                        assert(q.len() == row0.len() + 1 && row0.is_prefix_of(q));
                        if x.is_prefix_of(q) {
                            if x.len() <= row0.len() {
                                assert(x.is_prefix_of(row0)) by {
                                    assert forall|i: int| 0 <= i < x.len() implies x[i] == row0[i] by {
                                        assert(x[i] == q[i]);
                                        assert(row0[i] == q[i]);
                                    }
                                }
                            } else {
                                assert(x =~= q);
                                assert(row0.is_prefix_of(x));
                            }
                        }
                        if q.is_prefix_of(x) {
                            assert(row0.is_prefix_of(x)) by {
                                assert forall|i: int| 0 <= i < row0.len() implies row0[i] == x[i] by {
                                    assert(row0[i] == q[i]);
                                    assert(q[i] == x[i]);
                                }
                            }
                        }
                    }
                }
            }
        }
        ret
    }
}

} // verus!
