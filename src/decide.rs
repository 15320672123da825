use vstd::prelude::*;
use crate::manager::{AssociationManager, ManagerView};
use crate::table::{
    drop_one, lemma_rejoin_len, lemma_remove_unique, lemma_without_absent,
    lemma_without_member, lemma_without_member_at, score_join, score_of, without_member,
};
use crate::table_seq::{TableSeq, TableSeqView, lemma_pass_each_once, natural_steps, position_after};

verus! {

/// A move for one person.
#[derive(PartialEq, Eq, Structural, Clone, Copy, Debug)]
pub enum TableAction {
    /// Join the group.
    Join(u32),
    /// Evict the person (first field) from the group (second field), then join it.
    Replace(u32, u32),
    /// Keep the current assignment.
    Stay,
}

impl TableAction {
    /// The group the move targets, if any.
    pub open spec fn target(self) -> Option<u32> {
        match self {
            TableAction::Join(g) => Some(g),
            TableAction::Replace(_, g) => Some(g),
            TableAction::Stay => None,
        }
    }
}

/// Whether cost `s` beats `best`, where `None` means infeasible (for `s`) or
/// worst possible (for `best`). Ties do not win.
pub open spec fn improves(s: Option<usize>, best: Option<usize>) -> bool {
    match s {
        None => false,
        Some(x) => match best {
            None => true,
            Some(b) => x < b,
        },
    }
}

/// Running best after offering candidate `a` of cost `s`.
pub open spec fn consider(acc: (Option<usize>, TableAction), s: Option<usize>, a: TableAction) -> (
    Option<usize>,
    TableAction,
) {
    if improves(s, acc.0) {
        (s, a)
    } else {
        acc
    }
}

/// Running best after the first `i` eviction candidates of group `g`, whose
/// members are `t`.
pub open spec fn evict_scan(
    acc: (Option<usize>, TableAction),
    pid: u32,
    g: u32,
    t: Seq<u32>,
    capacity: usize,
    i: nat,
) -> (Option<usize>, TableAction)
    decreases i,
{
    if i == 0 || i > t.len() {
        acc
    } else {
        let j = i - 1;
        consider(
            evict_scan(acc, pid, g, t, capacity, j as nat),
            score_of(pid, t.remove(j), capacity),
            TableAction::Replace(t[j], g),
        )
    }
}

/// Running best after group `g`: its direct join, then each eviction in member order.
pub open spec fn group_scan(
    acc: (Option<usize>, TableAction),
    pid: u32,
    g: u32,
    t: Seq<u32>,
    capacity: usize,
) -> (Option<usize>, TableAction) {
    evict_scan(
        consider(acc, score_of(pid, t, capacity), TableAction::Join(g)),
        pid,
        g,
        t,
        capacity,
        t.len(),
    )
}

/// Best cost and move over the first `k` groups of `pass`.
pub open spec fn pass_scan(
    pid: u32,
    tables: Seq<Seq<u32>>,
    pass: Seq<u32>,
    capacity: usize,
    k: nat,
) -> (Option<usize>, TableAction)
    decreases k,
{
    if k == 0 || k > pass.len() {
        (None, TableAction::Stay)
    } else {
        let g = pass[k - 1];
        group_scan(pass_scan(pid, tables, pass, capacity, (k - 1) as nat), pid, g, tables[g as int], capacity)
    }
}

/// Cost of `pid` where it stands now; `None` (worst) when unassigned.
pub open spec fn base_score(m: ManagerView, pid: u32) -> Option<usize> {
    match m.group_of(pid) {
        Some(g) => score_of(pid, m.tables[g as int], m.capacity),
        None => None,
    }
}

/// Outcome of one decision for `pid` over the groups of `pass`: whether the
/// best move beats the current cost, and that move.
pub open spec fn decision(m: ManagerView, pid: u32, pass: Seq<u32>) -> (bool, TableAction) {
    let best = pass_scan(pid, m.tables, pass, m.capacity, pass.len());
    (improves(best.0, base_score(m, pid)), best.1)
}

/// The cursor names only groups that exist.
pub open spec fn names_groups(c: TableSeqView, n: nat) -> bool {
    &&& forall|i: int| 0 <= i < c.tables.len() ==> #[trigger] c.tables[i] < n
    &&& c.pending matches Some(g) ==> g < n
}

fn better(s: Option<usize>, best: Option<usize>) -> (r: bool)
    ensures
        r == improves(s, best),
{
    match s {
        None => false,
        Some(x) => match best {
            None => true,
            Some(b) => x < b,
        },
    }
}

proof fn lemma_pass_names_groups(c: TableSeqView, n: nat)
    requires
        c.wf(),
        names_groups(c, n),
    ensures
        forall|k: int| 0 <= k < c.pass_order().len() ==> #[trigger] c.pass_order()[k] < n,
{
    let turn = natural_steps(c.tables, c.index, c.tables.len());
    lemma_steps_name_groups(c, n, c.tables.len());
    match c.pending {
        Some(g) => {
            lemma_without_member(turn, g);
            let w = without_member(turn, g);
            assert forall|k: int| 0 <= k < c.pass_order().len() implies #[trigger] c.pass_order()[k] < n by {
                if k > 0 {
                    assert(c.pass_order()[k] == w[k - 1]);
                    assert(w.contains(w[k - 1]));
                }
            }
        },
        None => {},
    }
}

proof fn lemma_steps_name_groups(c: TableSeqView, n: nat, k: nat)
    requires
        c.wf(),
        names_groups(c, n),
    ensures
        forall|j: int| 0 <= j < natural_steps(c.tables, c.index, k).len() ==> #[trigger] natural_steps(c.tables, c.index, k)[j] < n,
        natural_steps(c.tables, c.index, k).len() == k,
        0 <= position_after(c.tables.len() as int, c.index, k) < c.tables.len(),
    decreases k,
{
    if k > 0 {
        lemma_steps_name_groups(c, n, (k - 1) as nat);
    }
}

/// Picks the best move for `pid` over one pass of `table_seq`: the lowest
/// feasible cost among direct joins and joins after one eviction, the earliest
/// in scan order on ties, and whether it beats the current cost.
pub fn decide_action(pid: u32, man: &AssociationManager, table_seq: &mut TableSeq) -> (r: (bool, TableAction))
    requires
        man.wf(),
        man@.consistent(),
        old(table_seq)@.wf(),
        names_groups(old(table_seq)@, man@.tables.len()),
    ensures
        r == decision(man@, pid, old(table_seq)@.pass_order()),
        final(table_seq)@ == old(table_seq)@.after_pass(),
        final(table_seq)@.wf(),
{
    let capacity = man.capacity();
    let base = match man.curr_table(&pid) {
        Some(t) => score_join(pid, t, capacity),
        None => None,
    };
    proof {
        lemma_pass_names_groups(table_seq@, man@.tables.len());
    }
    let pass = table_seq.one_pass();
    let mut best: Option<usize> = None;
    let mut best_action = TableAction::Stay;
    let mut k: usize = 0;
    while k < pass.len()
        invariant
            man.wf(),
            k <= pass@.len(),
            capacity == man@.capacity,
            forall|q: int| 0 <= q < pass@.len() ==> #[trigger] pass@[q] < man@.tables.len(),
            (best, best_action) == pass_scan(pid, man@.tables, pass@, capacity, k as nat),
        decreases pass@.len() - k,
    {
        let g = pass[k];
        let t = man.members_of(g);
        let s = score_join(pid, t, capacity);
        if better(s, best) {
            best = s;
            best_action = TableAction::Join(g);
        }
        let ghost acc0 = (best, best_action);
        let drops = drop_one(t);
        let mut i: usize = 0;
        while i < drops.len()
            invariant
                i <= drops@.len(),
                drops@.len() == t@.len(),
                forall|j: int| 0 <= j < drops@.len() ==> #[trigger] drops@[j].0 == t@[j] && drops@[j].1@ == t@.remove(j) && drops@[j].1.wf(),
                (best, best_action) == evict_scan(acc0, pid, g, t@, capacity, i as nat),
            decreases drops@.len() - i,
        {
            assert(drops@[i as int].0 == t@[i as int]);
            let s = score_join(pid, &drops[i].1, capacity);
            if better(s, best) {
                best = s;
                best_action = TableAction::Replace(drops[i].0, g);
            }
            i = i + 1;
        }
        k = k + 1;
    }
    (better(best, base), best_action)
}

/// A running best is backed by a real candidate of group `tables`: `Stay` with
/// no cost, or a move into an existing group whose cost it records.
pub open spec fn admissible(pid: u32, tables: Seq<Seq<u32>>, capacity: usize, best: (Option<usize>, TableAction)) -> bool {
    match best.1 {
        TableAction::Stay => best.0 is None,
        TableAction::Join(g) => {
            &&& g < tables.len()
            &&& best.0 is Some
            &&& best.0 == score_of(pid, tables[g as int], capacity)
        },
        TableAction::Replace(e, g) => {
            &&& g < tables.len()
            &&& best.0 is Some
            &&& exists|i: int|
                0 <= i < tables[g as int].len() && tables[g as int][i] == e && best.0 == #[trigger] score_of(
                    pid,
                    tables[g as int].remove(i),
                    capacity,
                )
        },
    }
}

proof fn lemma_evict_scan_admissible(
    acc: (Option<usize>, TableAction),
    pid: u32,
    tables: Seq<Seq<u32>>,
    g: u32,
    capacity: usize,
    i: nat,
)
    requires
        g < tables.len(),
        admissible(pid, tables, capacity, acc),
    ensures
        admissible(pid, tables, capacity, evict_scan(acc, pid, g, tables[g as int], capacity, i)),
    decreases i,
{
    let t = tables[g as int];
    if i > 0 && i <= t.len() {
        let j = (i - 1) as int;
        lemma_evict_scan_admissible(acc, pid, tables, g, capacity, (i - 1) as nat);
        let s = score_of(pid, t.remove(j), capacity);
        if improves(s, evict_scan(acc, pid, g, t, capacity, (i - 1) as nat).0) {
            assert(tables[g as int][j] == t[j]);
        }
    }
}

proof fn lemma_pass_scan_admissible(pid: u32, tables: Seq<Seq<u32>>, pass: Seq<u32>, capacity: usize, k: nat)
    requires
        forall|q: int| 0 <= q < pass.len() ==> #[trigger] pass[q] < tables.len(),
    ensures
        admissible(pid, tables, capacity, pass_scan(pid, tables, pass, capacity, k)),
    decreases k,
{
    if k > 0 && k <= pass.len() {
        lemma_pass_scan_admissible(pid, tables, pass, capacity, (k - 1) as nat);
        let g = pass[k - 1];
        let acc = pass_scan(pid, tables, pass, capacity, (k - 1) as nat);
        let acc1 = consider(acc, score_of(pid, tables[g as int], capacity), TableAction::Join(g));
        lemma_evict_scan_admissible(acc1, pid, tables, g, capacity, tables[g as int].len());
    }
}

/// State of the index after carrying out move `a` for `pid`. A person who moves
/// leaves its old group first; an evicted person is left unassigned.
pub open spec fn applied(m: ManagerView, pid: u32, a: TableAction) -> ManagerView {
    match a {
        TableAction::Stay => m,
        TableAction::Join(g) => m.left(pid).joined(pid, g),
        TableAction::Replace(e, g) => if m.group_of(e) == Some(g) {
            m.left(e).left(pid).joined(pid, g)
        } else {
            m.left(pid).joined(pid, g)
        },
    }
}

/// Carries out move `action` for `pid` and points the cursor at the group it
/// changed, so that group is looked at next.
pub fn commit_action(man: &mut AssociationManager, table_seq: &mut TableSeq, pid: u32, action: TableAction)
    requires
        old(man).wf(),
        old(man)@.consistent(),
        action.target() matches Some(g) ==> g < old(man)@.tables.len(),
    ensures
        final(man).wf(),
        final(man)@.consistent(),
        final(man)@ == applied(old(man)@, pid, action),
        final(table_seq)@ == match action.target() {
            Some(g) => old(table_seq)@.redirected(g),
            None => old(table_seq)@,
        },
{
    match action {
        TableAction::Stay => {},
        TableAction::Join(g) => {
            man.leave_table(&pid);
            man.join_table(&pid, &g);
            table_seq.prepend(g);
        },
        TableAction::Replace(e, g) => {
            if man.current_group(e) == Some(g) {
                man.leave_table(&e);
            }
            man.leave_table(&pid);
            man.join_table(&pid, &g);
            table_seq.prepend(g);
        },
    }
}

/// One decision round for `pid` from index `m` and cursor `c`: the new index,
/// the new cursor, and the move taken (`Stay` when nothing improves).
pub open spec fn step_outcome(m: ManagerView, c: TableSeqView, pid: u32) -> (ManagerView, TableSeqView, TableAction) {
    let d = decision(m, pid, c.pass_order());
    let c1 = c.after_pass();
    if d.0 {
        (
            applied(m, pid, d.1),
            match d.1.target() {
                Some(g) => c1.redirected(g),
                None => c1,
            },
            d.1,
        )
    } else {
        (m, c1, TableAction::Stay)
    }
}

/// Index and cursor after deciding for each person of `pids` in order.
pub open spec fn round_state(m: ManagerView, c: TableSeqView, pids: Seq<u32>) -> (ManagerView, TableSeqView)
    decreases pids.len(),
{
    if pids.len() == 0 {
        (m, c)
    } else {
        let prev = round_state(m, c, pids.drop_last());
        let o = step_outcome(prev.0, prev.1, pids.last());
        (o.0, o.1)
    }
}

/// Decides for each person of `pids` in order and carries out every move that
/// improves; returns the move taken for each.
pub fn run_round(man: &mut AssociationManager, table_seq: &mut TableSeq, pids: &Vec<u32>) -> (r: Vec<TableAction>)
    requires
        old(man).wf(),
        old(man)@.consistent(),
        old(table_seq)@.wf(),
        names_groups(old(table_seq)@, old(man)@.tables.len()),
    ensures
        final(man).wf(),
        final(man)@.consistent(),
        final(table_seq)@.wf(),
        old(man)@.within_capacity() ==> final(man)@.within_capacity(),
        (final(man)@, final(table_seq)@) == round_state(old(man)@, old(table_seq)@, pids@),
        r@.len() == pids@.len(),
        forall|k: int| 0 <= k < pids@.len() ==> #[trigger] r@[k] == ({
            let s = round_state(old(man)@, old(table_seq)@, pids@.take(k));
            step_outcome(s.0, s.1, pids@[k]).2
        }),
{
    let ghost m0 = man@;
    let ghost c0 = table_seq@;
    let mut taken: Vec<TableAction> = Vec::new();
    let mut k: usize = 0;
    while k < pids.len()
        invariant
            man.wf(),
            man@.consistent(),
            table_seq@.wf(),
            man@.tables.len() == m0.tables.len(),
            man@.capacity == m0.capacity,
            m0.within_capacity() ==> man@.within_capacity(),
            names_groups(table_seq@, man@.tables.len()),
            k <= pids@.len(),
            (man@, table_seq@) == round_state(m0, c0, pids@.take(k as int)),
            taken@.len() == k,
            forall|q: int| 0 <= q < k ==> #[trigger] taken@[q] == ({
                let s = round_state(m0, c0, pids@.take(q));
                step_outcome(s.0, s.1, pids@[q]).2
            }),
        decreases pids@.len() - k,
    {
        let pid = pids[k];
        let ghost c = table_seq@;
        proof {
            lemma_pass_names_groups(c, man@.tables.len());
            lemma_pass_scan_admissible(pid, man@.tables, c.pass_order(), man@.capacity, c.pass_order().len());
            man.lemma_wf_unique();
            if man@.within_capacity() {
                lemma_move_within_capacity(man@, pid, c.pass_order());
            }
        }
        let (improved, action) = decide_action(pid, man, table_seq);
        if improved {
            commit_action(man, table_seq, pid, action);
            taken.push(action);
        } else {
            taken.push(TableAction::Stay);
        }
        assert(pids@.take(k + 1).drop_last() =~= pids@.take(k as int));
        k = k + 1;
    }
    assert(pids@.take(pids@.len() as int) =~= pids@);
    taken
}

proof fn lemma_left_shrinks(m: ManagerView, p: u32)
    requires
        m.forward.contains_key(p) ==> m.forward[p] < m.tables.len(),
    ensures
        m.left(p).tables.len() == m.tables.len(),
        forall|h: int| 0 <= h < m.tables.len() ==> #[trigger] m.left(p).tables[h].len() <= m.tables[h].len(),
        forall|h: int, x: u32|
            0 <= h < m.tables.len() && #[trigger] m.left(p).tables[h].contains(x) ==> m.tables[h].contains(x),
{
    match m.group_of(p) {
        Some(g) => {
            lemma_without_member(m.tables[g as int], p);
        },
        None => {},
    }
}

proof fn lemma_left_at(m: ManagerView, p: u32, g: int)
    requires
        0 <= g < m.tables.len(),
        (m.forward.contains_key(p) && m.forward[p] == g) || !m.tables[g].contains(p),
        m.forward.contains_key(p) ==> m.forward[p] < m.tables.len(),
    ensures
        m.left(p).tables[g] == without_member(m.tables[g], p),
{
    if !(m.forward.contains_key(p) && m.forward[p] == g) {
        lemma_without_absent(m.tables[g], p);
    }
}

/// Single assignment: in a consistent index a person is listed by at most one
/// group, and that group is the one the forward map gives.
pub proof fn lemma_single_assignment(m: ManagerView, p: u32, g1: int, g2: int)
    requires
        m.consistent(),
        0 <= g1 < m.tables.len(),
        0 <= g2 < m.tables.len(),
        m.tables[g1].contains(p),
        m.tables[g2].contains(p),
    ensures
        g1 == g2,
        m.group_of(p) == Some(g1 as u32),
{
}

/// Capacity: carrying out the move that a decision picks keeps every group
/// within the capacity.
pub proof fn lemma_move_within_capacity(m: ManagerView, pid: u32, pass: Seq<u32>)
    requires
        m.consistent(),
        m.unique(),
        m.within_capacity(),
        forall|q: int| 0 <= q < pass.len() ==> #[trigger] pass[q] < m.tables.len(),
    ensures
        applied(m, pid, decision(m, pid, pass).1).within_capacity(),
{
    let best = pass_scan(pid, m.tables, pass, m.capacity, pass.len());
    lemma_pass_scan_admissible(pid, m.tables, pass, m.capacity, pass.len());
    let r = applied(m, pid, best.1);
    match best.1 {
        TableAction::Stay => {},
        TableAction::Join(g) => {
            let m1 = m.left(pid);
            lemma_left_shrinks(m, pid);
            lemma_left_at(m, pid, g as int);
            lemma_rejoin_len(m.tables[g as int], pid);
            assert forall|h: int| 0 <= h < r.tables.len() implies #[trigger] r.tables[h].len() <= r.capacity by {
                if h != g {
                    assert(r.tables[h] == m1.tables[h]);
                }
            }
        },
        TableAction::Replace(e, g) => {
            let t = m.tables[g as int];
            let i = choose|i: int|
                0 <= i < t.len() && t[i] == e && best.0 == #[trigger] score_of(pid, t.remove(i), m.capacity);
            assert(t.contains(e));
            assert(m.group_of(e) == Some(g));
            let m1 = m.left(e);
            let m2 = m1.left(pid);
            lemma_left_shrinks(m, e);
            lemma_left_shrinks(m1, pid);
            lemma_without_member_at(t, i, e);
            lemma_remove_unique(t, i);
            let y = t.remove(i);
            assert(m1.tables[g as int] == y);
            lemma_without_member(t, e);
            if pid != e && m.group_of(pid) != Some(g) {
                assert(!t.contains(pid));
                assert(!y.contains(pid));
            }
            assert((m1.forward.contains_key(pid) && m1.forward[pid] == g) || !m1.tables[g as int].contains(pid));
            lemma_left_at(m1, pid, g as int);
            lemma_rejoin_len(y, pid);
            assert forall|h: int| 0 <= h < r.tables.len() implies #[trigger] r.tables[h].len() <= r.capacity by {
                if h != g {
                    assert(r.tables[h] == m2.tables[h]);
                }
            }
        },
    }
}

/// Determinism: the same starting index and cursor and the same order of
/// persons lead to the same final index and cursor.
pub proof fn lemma_round_deterministic(
    m1: ManagerView,
    c1: TableSeqView,
    m2: ManagerView,
    c2: TableSeqView,
    pids: Seq<u32>,
)
    requires
        m1 == m2,
        c1 == c2,
    ensures
        round_state(m1, c1, pids) == round_state(m2, c2, pids),
{
}

/// A decision that does not improve leaves the index exactly as it was, and
/// the move taken is `Stay`.
pub proof fn lemma_stay_keeps_index(m: ManagerView, c: TableSeqView, pid: u32)
    requires
        !decision(m, pid, c.pass_order()).0,
    ensures
        step_outcome(m, c, pid).0 == m,
        step_outcome(m, c, pid).2 == TableAction::Stay,
        applied(m, pid, TableAction::Stay) == m,
{
}

/// Scanning evictions never worsens the running best, and the move it ends
/// with is the one it started with or an eviction.
proof fn lemma_evict_scan_monotone(
    acc: (Option<usize>, TableAction),
    pid: u32,
    g: u32,
    t: Seq<u32>,
    capacity: usize,
    i: nat,
)
    ensures
        acc.0 matches Some(b) ==> evict_scan(acc, pid, g, t, capacity, i).0 matches Some(b2) && b2 <= b,
        evict_scan(acc, pid, g, t, capacity, i).1 == acc.1 || evict_scan(acc, pid, g, t, capacity, i).1 is Replace,
    decreases i,
{
    if i > 0 && i <= t.len() {
        lemma_evict_scan_monotone(acc, pid, g, t, capacity, (i - 1) as nat);
    }
}

proof fn lemma_pass_scan_joins_from_pass(pid: u32, tables: Seq<Seq<u32>>, pass: Seq<u32>, capacity: usize, k: nat)
    requires
        k <= pass.len(),
    ensures
        pass_scan(pid, tables, pass, capacity, k).1 matches TableAction::Join(x) ==> exists|q: int|
            0 <= q < k && #[trigger] pass[q] == x,
    decreases k,
{
    if k > 0 {
        lemma_pass_scan_joins_from_pass(pid, tables, pass, capacity, (k - 1) as nat);
        let g = pass[k - 1];
        let acc = pass_scan(pid, tables, pass, capacity, (k - 1) as nat);
        let acc1 = consider(acc, score_of(pid, tables[g as int], capacity), TableAction::Join(g));
        lemma_evict_scan_monotone(acc1, pid, g, tables[g as int], capacity, tables[g as int].len());
        if let TableAction::Join(x) = pass_scan(pid, tables, pass, capacity, k).1 {
            if acc1.1 == acc.1 && acc.1 == TableAction::Join(x) {
                let q = choose|q: int| 0 <= q < k - 1 && #[trigger] pass[q] == x;
                assert(pass[q] == x);
            } else {
                assert(pass[k - 1] == x);
            }
        }
    }
}

proof fn lemma_pass_scan_bounded(pid: u32, tables: Seq<Seq<u32>>, pass: Seq<u32>, capacity: usize, i: int, k: nat)
    requires
        0 <= i < k <= pass.len(),
        score_of(pid, tables[pass[i] as int], capacity) is Some,
    ensures
        pass_scan(pid, tables, pass, capacity, k).0 matches Some(b) && b <= score_of(
            pid,
            tables[pass[i] as int],
            capacity,
        )->0,
    decreases k,
{
    let g = pass[k - 1];
    let acc = pass_scan(pid, tables, pass, capacity, (k - 1) as nat);
    let acc1 = consider(acc, score_of(pid, tables[g as int], capacity), TableAction::Join(g));
    lemma_evict_scan_monotone(acc1, pid, g, tables[g as int], capacity, tables[g as int].len());
    if i < k - 1 {
        lemma_pass_scan_bounded(pid, tables, pass, capacity, i, (k - 1) as nat);
    }
}

proof fn lemma_tie_never_later(
    pid: u32,
    tables: Seq<Seq<u32>>,
    pass: Seq<u32>,
    capacity: usize,
    i: int,
    j: int,
    k: nat,
)
    requires
        0 <= i < j < k <= pass.len(),
        pass.no_duplicates(),
        score_of(pid, tables[pass[i] as int], capacity) is Some,
        score_of(pid, tables[pass[i] as int], capacity) == score_of(pid, tables[pass[j] as int], capacity),
    ensures
        pass_scan(pid, tables, pass, capacity, k).1 != TableAction::Join(pass[j]),
    decreases k,
{
    let g = pass[k - 1];
    let acc = pass_scan(pid, tables, pass, capacity, (k - 1) as nat);
    let acc1 = consider(acc, score_of(pid, tables[g as int], capacity), TableAction::Join(g));
    lemma_evict_scan_monotone(acc1, pid, g, tables[g as int], capacity, tables[g as int].len());
    if k - 1 == j {
        lemma_pass_scan_bounded(pid, tables, pass, capacity, i, (k - 1) as nat);
        lemma_pass_scan_joins_from_pass(pid, tables, pass, capacity, (k - 1) as nat);
        if acc.1 == TableAction::Join(pass[j]) {
            let q = choose|q: int| 0 <= q < k - 1 && #[trigger] pass[q] == pass[j];
            assert(pass[q] == pass[j]);
        }
    } else {
        lemma_tie_never_later(pid, tables, pass, capacity, i, j, (k - 1) as nat);
        assert(pass[k - 1] != pass[j]);
    }
}

/// Tie-break: when two groups of a pass offer the same feasible cost by a
/// direct join, the later of the two is never picked for that join.
pub proof fn lemma_tie_goes_to_earlier(
    pid: u32,
    tables: Seq<Seq<u32>>,
    pass: Seq<u32>,
    capacity: usize,
    i: int,
    j: int,
)
    requires
        0 <= i < j < pass.len(),
        pass.no_duplicates(),
        score_of(pid, tables[pass[i] as int], capacity) is Some,
        score_of(pid, tables[pass[i] as int], capacity) == score_of(pid, tables[pass[j] as int], capacity),
    ensures
        pass_scan(pid, tables, pass, capacity, pass.len()).1 != TableAction::Join(pass[j]),
{
    lemma_tie_never_later(pid, tables, pass, capacity, i, j, pass.len());
}

/// Tie-break for a decision: when two groups of a cursor's pass offer the same
/// feasible cost by a direct join, the move picked is not a direct join into
/// the later one.
pub proof fn lemma_decision_tie_goes_to_earlier(m: ManagerView, pid: u32, c: TableSeqView, i: int, j: int)
    requires
        c.wf(),
        c.tables.no_duplicates(),
        0 <= i < j < c.pass_order().len(),
        score_of(pid, m.tables[c.pass_order()[i] as int], m.capacity) is Some,
        score_of(pid, m.tables[c.pass_order()[i] as int], m.capacity) == score_of(
            pid,
            m.tables[c.pass_order()[j] as int],
            m.capacity,
        ),
    ensures
        decision(m, pid, c.pass_order()).1 != TableAction::Join(c.pass_order()[j]),
{
    lemma_pass_each_once(c);
    lemma_tie_goes_to_earlier(pid, m.tables, c.pass_order(), m.capacity, i, j);
}

} // verus!
