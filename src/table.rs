use vstd::prelude::*;

verus! {

/// The members of one group, kept in insertion order without repeats.
pub struct Table {
    members: Vec<u32>,
}

impl View for Table {
    type V = Seq<u32>;

    closed spec fn view(&self) -> Seq<u32> {
        self.members@
    }
}

/// Size of the member set that results from admitting `pid` to `members`.
pub open spec fn joined_len(pid: u32, members: Seq<u32>) -> nat {
    if members.contains(pid) {
        members.len()
    } else {
        members.len() + 1
    }
}

/// Cost of admitting `pid` to `members`: the resulting size, or `None` when
/// that size exceeds `capacity`. Lower is better.
pub open spec fn score_of(pid: u32, members: Seq<u32>, capacity: usize) -> Option<usize> {
    if joined_len(pid, members) <= capacity {
        Some(joined_len(pid, members) as usize)
    } else {
        None
    }
}

impl Table {
    /// No person is listed twice.
    pub open spec fn wf(&self) -> bool {
        self@.no_duplicates()
    }

    pub fn new() -> (r: Table)
        ensures
            r@ == Seq::<u32>::empty(),
            r.wf(),
    {
        Table { members: Vec::new() }
    }

    pub fn len(&self) -> (r: usize)
        ensures
            r == self@.len(),
    {
        self.members.len()
    }

    /// Member at position `i` in insertion order.
    pub fn get(&self, i: usize) -> (r: u32)
        requires
            i < self@.len(),
        ensures
            r == self@[i as int],
    {
        self.members[i]
    }

    /// Position of `pid` in insertion order, if it is a member.
    pub fn position(&self, pid: u32) -> (r: Option<usize>)
        ensures
            match r {
                Some(i) => i < self@.len() && self@[i as int] == pid,
                None => !self@.contains(pid),
            },
    {
        let mut i: usize = 0;
        while i < self.members.len()
            invariant
                i <= self.members@.len(),
                forall|j: int| 0 <= j < i ==> self.members@[j] != pid,
            decreases self.members@.len() - i,
        {
            if self.members[i] == pid {
                return Some(i);
            }
            i = i + 1;
        }
        None
    }

    pub fn contains(&self, pid: u32) -> (r: bool)
        ensures
            r == self@.contains(pid),
    {
        self.position(pid).is_some()
    }

    /// Adds `pid` at the end unless it is already a member.
    pub fn insert(&mut self, pid: u32)
        requires
            old(self).wf(),
        ensures
            final(self).wf(),
            final(self)@ == if old(self)@.contains(pid) {
                old(self)@
            } else {
                old(self)@.push(pid)
            },
    {
        if !self.contains(pid) {
            self.members.push(pid);
        }
    }

    /// Removes `pid` if it is a member, keeping the order of the rest.
    pub fn remove(&mut self, pid: u32)
        requires
            old(self).wf(),
        ensures
            final(self).wf(),
            final(self)@ == without_member(old(self)@, pid),
    {
        match self.position(pid) {
            Some(i) => {
                proof {
                    lemma_remove_unique(self.members@, i as int);
                    lemma_without_member_at(self.members@, i as int, pid);
                }
                self.members.remove(i);
            },
            None => {
                proof {
                    lemma_without_absent(self.members@, pid);
                }
            },
        }
    }

    /// The set left after taking out the member at position `i`, paired with that member.
    pub fn without(&self, i: usize) -> (r: (u32, Table))
        requires
            self.wf(),
            i < self@.len(),
        ensures
            r.1.wf(),
            r.0 == self@[i as int],
            r.1@ == self@.remove(i as int),
    {
        let mut rest = self.members.clone();
        let out = rest.remove(i);
        proof {
            lemma_remove_unique(self.members@, i as int);
        }
        (out, Table { members: rest })
    }
}

pub proof fn lemma_remove_unique(s: Seq<u32>, i: int)
    requires
        s.no_duplicates(),
        0 <= i < s.len(),
    ensures
        s.remove(i).no_duplicates(),
{
    let r = s.remove(i);
    assert forall|a: int, b: int| 0 <= a < r.len() && 0 <= b < r.len() && a != b implies r[a]
        != r[b] by {
        let sa = if a < i { a } else { a + 1 };
        let sb = if b < i { b } else { b + 1 };
        assert(r[a] == s[sa]);
        assert(r[b] == s[sb]);
    }
}

/// `members` with `pid` taken out, the others in their order.
pub open spec fn without_member(members: Seq<u32>, pid: u32) -> Seq<u32>
    decreases members.len(),
{
    if members.len() == 0 {
        members
    } else if members.last() == pid {
        without_member(members.drop_last(), pid)
    } else {
        without_member(members.drop_last(), pid).push(members.last())
    }
}

/// A list with one more item at the end holds exactly the old items and that one.
pub proof fn lemma_push_contains(s: Seq<u32>, y: u32)
    ensures
        forall|x: u32| #[trigger] s.push(y).contains(x) <==> s.contains(x) || x == y,
{
    assert forall|x: u32| #[trigger] s.push(y).contains(x) <==> s.contains(x) || x == y by {
        if s.contains(x) {
            let j = choose|j: int| 0 <= j < s.len() && s[j] == x;
            assert(s.push(y)[j] == x);
        }
        if x == y {
            assert(s.push(y)[s.len() as int] == x);
        }
        if s.push(y).contains(x) && x != y {
            let j = choose|j: int| 0 <= j < s.push(y).len() && s.push(y)[j] == x;
            assert(s[j] == x);
        }
    }
}

/// Taking out `pid` keeps exactly the other members and never lengthens the list.
pub proof fn lemma_without_member(s: Seq<u32>, pid: u32)
    ensures
        forall|x: u32| #[trigger] without_member(s, pid).contains(x) <==> s.contains(x) && x != pid,
        without_member(s, pid).len() <= s.len(),
    decreases s.len(),
{
    if s.len() > 0 {
        let d = s.drop_last();
        let l = s.last();
        lemma_without_member(d, pid);
        let w = without_member(d, pid);
        assert(s =~= d.push(l));
        lemma_push_contains(d, l);
        if l == pid {
            assert(without_member(s, pid) == w);
        } else {
            assert(without_member(s, pid) == w.push(l));
            lemma_push_contains(w, l);
        }
    }
}

/// Taking out `pid` keeps a list free of repeats.
pub proof fn lemma_without_member_unique(s: Seq<u32>, pid: u32)
    requires
        s.no_duplicates(),
    ensures
        without_member(s, pid).no_duplicates(),
    decreases s.len(),
{
    if s.len() > 0 {
        let d = s.drop_last();
        assert(d.no_duplicates());
        lemma_without_member_unique(d, pid);
        lemma_without_member(d, pid);
        let w = without_member(d, pid);
        if s.last() != pid {
            assert(!d.contains(s.last())) by {
                if d.contains(s.last()) {
                    let j = choose|j: int| 0 <= j < d.len() && d[j] == s.last();
                    assert(s[j] == s[s.len() - 1]);
                }
            }
            assert(!w.contains(s.last()));
            let v = w.push(s.last());
            assert forall|a: int, b: int| 0 <= a < v.len() && 0 <= b < v.len() && a != b implies v[a] != v[b] by {
                if a == w.len() {
                    assert(w.contains(v[b]));
                } else if b == w.len() {
                    assert(w.contains(v[a]));
                }
            }
        }
    }
}

pub proof fn lemma_without_absent(s: Seq<u32>, pid: u32)
    requires
        !s.contains(pid),
    ensures
        without_member(s, pid) == s,
    decreases s.len(),
{
    if s.len() > 0 {
        assert(!s.drop_last().contains(pid)) by {
            if s.drop_last().contains(pid) {
                let j = choose|j: int| 0 <= j < s.drop_last().len() && s.drop_last()[j] == pid;
                assert(s[j] == pid);
            }
        }
        lemma_without_absent(s.drop_last(), pid);
        assert(s.drop_last().push(s.last()) =~= s);
    }
}

pub proof fn lemma_without_member_at(s: Seq<u32>, i: int, pid: u32)
    requires
        s.no_duplicates(),
        0 <= i < s.len(),
        s[i] == pid,
    ensures
        without_member(s, pid) == s.remove(i),
    decreases s.len(),
{
    let d = s.drop_last();
    if i == s.len() - 1 {
        assert(!d.contains(pid)) by {
            if d.contains(pid) {
                let j = choose|j: int| 0 <= j < d.len() && d[j] == pid;
                assert(s[j] == s[i]);
            }
        }
        lemma_without_absent(d, pid);
        assert(s.remove(i) =~= d);
    } else {
        assert(d.no_duplicates());
        lemma_without_member_at(d, i, pid);
        assert(s.last() != pid);
        assert(s.remove(i) =~= d.remove(i).push(s.last()));
    }
}

/// Taking `pid` out of a list without repeats and admitting it again gives the
/// size that admitting it would have given.
pub proof fn lemma_rejoin_len(s: Seq<u32>, pid: u32)
    requires
        s.no_duplicates(),
    ensures
        !without_member(s, pid).contains(pid),
        (if without_member(s, pid).contains(pid) {
            without_member(s, pid)
        } else {
            without_member(s, pid).push(pid)
        }).len() == joined_len(pid, s),
{
    lemma_without_member(s, pid);
    if s.contains(pid) {
        let i = choose|i: int| 0 <= i < s.len() && s[i] == pid;
        lemma_without_member_at(s, i, pid);
    } else {
        lemma_without_absent(s, pid);
    }
}

/// Cost of admitting `pid` to `members` under the shared `capacity`.
pub fn score_join(pid: u32, members: &Table, capacity: usize) -> (r: Option<usize>)
    ensures
        r == score_of(pid, members@, capacity),
{
    let n = members.len();
    if members.contains(pid) {
        if n <= capacity {
            Some(n)
        } else {
            None
        }
    } else if n < capacity {
        Some(n + 1)
    } else {
        None
    }
}

/// Every way to make room by taking out one member: for each member in order,
/// the member and the set without it.
pub fn drop_one(members: &Table) -> (r: Vec<(u32, Table)>)
    requires
        members.wf(),
    ensures
        r@.len() == members@.len(),
        forall|i: int|
            0 <= i < r@.len() ==> #[trigger] r@[i].0 == members@[i] && r@[i].1@ == members@.remove(
                i,
            ) && r@[i].1.wf(),
{
    let mut out: Vec<(u32, Table)> = Vec::new();
    let mut i: usize = 0;
    while i < members.len()
        invariant
            members.wf(),
            i <= members@.len(),
            out@.len() == i,
            forall|j: int|
                0 <= j < i ==> #[trigger] out@[j].0 == members@[j] && out@[j].1@
                    == members@.remove(j) && out@[j].1.wf(),
        decreases members@.len() - i,
    {
        out.push(members.without(i));
        i = i + 1;
    }
    out
}

} // verus!
