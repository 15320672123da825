use vstd::prelude::*;
use crate::table::{lemma_without_member, lemma_without_member_unique, without_member};

verus! {

/// A cyclic cursor over group identifiers with a single pending override.
pub struct TableSeq {
    tables: Vec<u32>,
    index: usize,
    pending: Option<u32>,
}

/// Abstract state of a cursor: the identifiers it cycles over, its position,
/// and the override that the next `next` returns, if any.
pub struct TableSeqView {
    pub tables: Seq<u32>,
    pub index: int,
    pub pending: Option<u32>,
}

impl View for TableSeq {
    type V = TableSeqView;

    closed spec fn view(&self) -> TableSeqView {
        TableSeqView { tables: self.tables@, index: self.index as int, pending: self.pending }
    }
}

impl TableSeqView {
    /// The cycle is not empty and the position lies in it.
    pub open spec fn wf(self) -> bool {
        0 < self.tables.len() && 0 <= self.index < self.tables.len()
    }

    /// Position that follows `index` in the cycle.
    pub open spec fn next_index(self) -> int {
        step_index(self.tables.len() as int, self.index)
    }

    /// Every identifier of one pass, in order: the pending override first, then
    /// one full turn of the cycle without it.
    pub open spec fn pass_order(self) -> Seq<u32> {
        let turn = natural_steps(self.tables, self.index, self.tables.len());
        match self.pending {
            Some(g) => seq![g] + without_member(turn, g),
            None => turn,
        }
    }

    /// State after one pass: a full turn brings the position back to where it
    /// was, and nothing is pending.
    pub open spec fn after_pass(self) -> TableSeqView {
        TableSeqView { tables: self.tables, index: self.index, pending: None }
    }

    /// State after queuing `g` as the next value.
    pub open spec fn redirected(self, g: u32) -> TableSeqView {
        TableSeqView { tables: self.tables, index: self.index, pending: Some(g) }
    }
}

/// Position that follows `i` in a cycle of length `len`.
pub open spec fn step_index(len: int, i: int) -> int {
    if i + 1 < len {
        i + 1
    } else {
        0
    }
}

/// Position reached from `i` after `k` steps.
pub open spec fn position_after(len: int, i: int, k: nat) -> int
    decreases k,
{
    if k == 0 {
        i
    } else {
        step_index(len, position_after(len, i, (k - 1) as nat))
    }
}

/// Within one turn, `k` steps from `i` reach `i + k`, wrapped once.
pub proof fn lemma_position_after(len: int, i: int, k: nat)
    requires
        0 <= i < len,
        k <= len,
    ensures
        position_after(len, i, k) == if i + k < len {
            i + k
        } else {
            i + k - len
        },
    decreases k,
{
    if k > 0 {
        lemma_position_after(len, i, (k - 1) as nat);
    }
}

/// Identifiers yielded by `k` plain steps from position `i`.
pub open spec fn natural_steps(tables: Seq<u32>, i: int, k: nat) -> Seq<u32>
    decreases k,
{
    if k == 0 {
        Seq::empty()
    } else {
        natural_steps(tables, i, (k - 1) as nat).push(
            tables[position_after(tables.len() as int, i, k)],
        )
    }
}

proof fn lemma_natural_steps_at(tables: Seq<u32>, i: int, k: nat)
    ensures
        natural_steps(tables, i, k).len() == k,
        forall|j: int|
            0 <= j < k ==> #[trigger] natural_steps(tables, i, k)[j] == tables[position_after(
                tables.len() as int,
                i,
                (j + 1) as nat,
            )],
    decreases k,
{
    if k > 0 {
        lemma_natural_steps_at(tables, i, (k - 1) as nat);
    }
}

/// A pass names each group once: over a cycle without repeats, the identifiers
/// of one pass hold no repeats and are exactly those of the cycle and the
/// pending override.
pub proof fn lemma_pass_each_once(c: TableSeqView)
    requires
        c.wf(),
        c.tables.no_duplicates(),
    ensures
        c.pass_order().no_duplicates(),
        forall|x: u32| #[trigger] c.pass_order().contains(x) <==> c.tables.contains(x) || c.pending == Some(x),
{
    let len = c.tables.len() as int;
    let turn = natural_steps(c.tables, c.index, c.tables.len());
    lemma_natural_steps_at(c.tables, c.index, c.tables.len());
    assert forall|a: int, b: int| 0 <= a < turn.len() && 0 <= b < turn.len() && a != b implies turn[a] != turn[b] by {
        lemma_position_after(len, c.index, (a + 1) as nat);
        lemma_position_after(len, c.index, (b + 1) as nat);
    }
    assert forall|x: u32| #[trigger] turn.contains(x) <==> c.tables.contains(x) by {
        if c.tables.contains(x) {
            let p = choose|p: int| 0 <= p < len && c.tables[p] == x;
            let j = if p > c.index { p - c.index - 1 } else { p - c.index - 1 + len };
            lemma_position_after(len, c.index, (j + 1) as nat);
            assert(turn[j] == x);
        }
        if turn.contains(x) {
            let j = choose|j: int| 0 <= j < turn.len() && turn[j] == x;
            lemma_position_after(len, c.index, (j + 1) as nat);
        }
    }
    match c.pending {
        Some(g) => {
            lemma_without_member(turn, g);
            lemma_without_member_unique(turn, g);
            let w = without_member(turn, g);
            let p = c.pass_order();
            assert(p == seq![g] + w);
            assert forall|a: int, b: int| 0 <= a < p.len() && 0 <= b < p.len() && a != b implies p[a] != p[b] by {
                if a == 0 {
                    assert(p[b] == w[b - 1]);
                    assert(w.contains(p[b]));
                } else if b == 0 {
                    assert(p[a] == w[a - 1]);
                    assert(w.contains(p[a]));
                } else {
                    assert(p[a] == w[a - 1] && p[b] == w[b - 1]);
                }
            }
            assert forall|x: u32| #[trigger] p.contains(x) <==> c.tables.contains(x) || c.pending == Some(x) by {
                if p.contains(x) && x != g {
                    let j = choose|j: int| 0 <= j < p.len() && p[j] == x;
                    assert(w[j - 1] == x);
                    assert(w.contains(x));
                    assert(turn.contains(x));
                }
                if x == g {
                    assert(p[0] == x);
                } else if c.tables.contains(x) {
                    assert(w.contains(x));
                    let j = choose|j: int| 0 <= j < w.len() && w[j] == x;
                    assert(p[j + 1] == x);
                }
            }
        },
        None => {},
    }
}

impl TableSeq {
    /// Cursor over `tables`; the first natural value it yields is `tables[0]`.
    pub fn new(tables: &Vec<u32>) -> (r: TableSeq)
        requires
            tables.len() > 0,
        ensures
            r@.wf(),
            r@.tables == tables@,
            r@.index == tables.len() - 1,
            r@.pending == None::<u32>,
    {
        TableSeq { tables: tables.clone(), index: tables.len() - 1, pending: None }
    }

    /// Queues `next_item` as the next value of `advance`, replacing any queued one.
    pub fn prepend(&mut self, next_item: u32)
        ensures
            final(self)@.tables == old(self)@.tables,
            final(self)@.index == old(self)@.index,
            final(self)@.pending == Some(next_item),
            final(self)@ == old(self)@.redirected(next_item),
    {
        self.pending = Some(next_item);
    }

    /// Returns the pending override and clears it, or else steps the cycle.
    pub fn next(&mut self) -> (r: u32)
        requires
            old(self)@.wf(),
        ensures
            final(self)@.wf(),
            final(self)@.tables == old(self)@.tables,
            match old(self)@.pending {
                Some(g) => {
                    &&& r == g
                    &&& final(self)@.index == old(self)@.index
                    &&& final(self)@.pending == None::<u32>
                },
                None => {
                    &&& final(self)@.index == old(self)@.next_index()
                    &&& final(self)@.pending == None::<u32>
                    &&& r == old(self)@.tables[old(self)@.next_index()]
                },
            },
    {
        assert(self.index < self.tables.len());
        match self.pending {
            Some(g) => {
                self.pending = None;
                g
            },
            None => {
                if self.index + 1 < self.tables.len() {
                    self.index = self.index + 1;
                } else {
                    self.index = 0;
                }
                self.tables[self.index]
            },
        }
    }

    /// One pass over all groups: the pending override, if any, then a full turn
    /// of the cycle that skips it.
    pub fn one_pass(&mut self) -> (r: Vec<u32>)
        requires
            old(self)@.wf(),
        ensures
            final(self)@.wf(),
            r@ == old(self)@.pass_order(),
            final(self)@ == old(self)@.after_pass(),
    {
        let ghost start = self@;
        let first = self.pending;
        let mut out: Vec<u32> = Vec::new();
        if let Some(g) = first {
            out.push(g);
        }
        self.pending = None;
        let n = self.tables.len();
        let mut k: usize = 0;
        while k < n
            invariant
                self@.wf(),
                n == start.tables.len(),
                k <= n,
                self@.tables == start.tables,
                self@.pending == None::<u32>,
                self@.index == position_after(n as int, start.index, k as nat),
                out@ == match first {
                    Some(g) => seq![g] + without_member(natural_steps(start.tables, start.index, k as nat), g),
                    None => natural_steps(start.tables, start.index, k as nat),
                },
            decreases n - k,
        {
            let t = self.next();
            let ghost prev = natural_steps(start.tables, start.index, k as nat);
            let ghost nxt = natural_steps(start.tables, start.index, (k + 1) as nat);
            assert(nxt == prev.push(t));
            assert(nxt.drop_last() =~= prev);
            match first {
                Some(g) => {
                    if t != g {
                        out.push(t);
                        assert(without_member(nxt, g) == without_member(prev, g).push(t));
                    } else {
                        assert(without_member(nxt, g) == without_member(prev, g));
                    }
                },
                None => {
                    out.push(t);
                },
            }
            k = k + 1;
        }
        proof {
            lemma_position_after(n as int, start.index, n as nat);
            match first {
                Some(g) => {
                    assert(out@ == start.pass_order());
                },
                None => {
                    assert(out@ == start.pass_order());
                },
            }
        }
        out
    }
}

} // verus!
