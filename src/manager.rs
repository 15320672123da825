use std::collections::HashMap;
use vstd::prelude::*;
use crate::table::{Table, lemma_push_contains, lemma_without_member, without_member};

verus! {

broadcast use vstd::std_specs::hash::group_hash_axioms;

/// The membership index: which group holds each person, and who is in each group.
pub struct AssociationManager {
    people_to_table: HashMap<u32, u32>,
    table_members: Vec<Table>,
    table_size: usize,
}

/// Abstract state of the membership index.
pub struct ManagerView {
    /// Person to the group that holds it.
    pub forward: Map<u32, u32>,
    /// Members of each group, indexed by group identifier, in insertion order.
    pub tables: Seq<Seq<u32>>,
    /// Bound shared by all groups.
    pub capacity: usize,
}

/// `members` after admitting `pid`.
pub open spec fn with_member(members: Seq<u32>, pid: u32) -> Seq<u32> {
    if members.contains(pid) {
        members
    } else {
        members.push(pid)
    }
}

impl ManagerView {
    /// Forward map and member sets are exact inverses of each other.
    pub open spec fn consistent(self) -> bool {
        &&& forall|p: u32| #[trigger]
            self.forward.contains_key(p) ==> self.forward[p] < self.tables.len()
                && self.tables[self.forward[p] as int].contains(p)
        &&& forall|g: int, p: u32|
            0 <= g < self.tables.len() && #[trigger] self.tables[g].contains(p)
                ==> self.forward.contains_key(p) && self.forward[p] == g
    }

    /// No group holds more members than the capacity.
    pub open spec fn within_capacity(self) -> bool {
        forall|g: int| 0 <= g < self.tables.len() ==> #[trigger] self.tables[g].len() <= self.capacity
    }

    /// No group lists a person twice.
    pub open spec fn unique(self) -> bool {
        forall|g: int| 0 <= g < self.tables.len() ==> #[trigger] self.tables[g].no_duplicates()
    }

    /// State after `pid` joins `g`; its previous group is not touched.
    pub open spec fn joined(self, pid: u32, g: u32) -> ManagerView {
        ManagerView {
            forward: self.forward.insert(pid, g),
            tables: self.tables.update(g as int, with_member(self.tables[g as int], pid)),
            capacity: self.capacity,
        }
    }

    /// State after `pid` leaves whatever group holds it.
    pub open spec fn left(self, pid: u32) -> ManagerView {
        ManagerView {
            forward: self.forward.remove(pid),
            tables: match self.group_of(pid) {
                Some(g) => self.tables.update(g as int, without_member(self.tables[g as int], pid)),
                None => self.tables,
            },
            capacity: self.capacity,
        }
    }

    /// The group that holds `pid`, if any.
    pub open spec fn group_of(self, pid: u32) -> Option<u32> {
        if self.forward.contains_key(pid) {
            Some(self.forward[pid])
        } else {
            None
        }
    }
}

impl View for AssociationManager {
    type V = ManagerView;

    closed spec fn view(&self) -> ManagerView {
        ManagerView {
            forward: self.people_to_table@,
            tables: self.table_members@.map_values(|t: Table| t@),
            capacity: self.table_size,
        }
    }
}

impl AssociationManager {
    /// A well-formed index lists nobody twice in a group.
    pub proof fn lemma_wf_unique(&self)
        requires
            self.wf(),
        ensures
            self@.unique(),
    {
        assert forall|g: int| 0 <= g < self@.tables.len() implies #[trigger] self@.tables[g].no_duplicates() by {
            assert(self.table_members@[g].wf());
        }
    }

    /// Every group's member list is free of repeats and group identifiers fit in `u32`.
    pub closed spec fn wf(&self) -> bool {
        &&& self.table_members@.len() <= u32::MAX
        &&& forall|g: int| 0 <= g < self.table_members@.len() ==> #[trigger] self.table_members@[g].wf()
    }

    /// `n_tables` empty groups of capacity `table_size`, nobody assigned.
    pub fn new(n_people: u32, n_tables: u32, table_size: usize) -> (r: AssociationManager)
        ensures
            r.wf(),
            r@.forward == Map::<u32, u32>::empty(),
            r@.tables == Seq::new(n_tables as nat, |g: int| Seq::<u32>::empty()),
            r@.capacity == table_size,
            r@.consistent(),
            r@.within_capacity(),
    {
        let people_to_table: HashMap<u32, u32> = HashMap::with_capacity(n_people as usize);
        let mut table_members: Vec<Table> = Vec::new();
        let mut i: u32 = 0;
        while i < n_tables
            invariant
                i <= n_tables,
                table_members@.len() == i,
                forall|g: int| 0 <= g < i ==> #[trigger] table_members@[g]@ == Seq::<u32>::empty()
                    && table_members@[g].wf(),
            decreases n_tables - i,
        {
            table_members.push(Table::new());
            i = i + 1;
        }
        let r = AssociationManager { people_to_table, table_members, table_size };
        assert(r@.tables =~= Seq::new(n_tables as nat, |g: int| Seq::<u32>::empty()));
        r
    }

    /// Number of groups.
    pub fn n_tables(&self) -> (r: usize)
        ensures
            r == self@.tables.len(),
    {
        self.table_members.len()
    }

    /// Capacity shared by all groups.
    pub fn capacity(&self) -> (r: usize)
        ensures
            r == self@.capacity,
    {
        self.table_size
    }

    /// Current occupants of group `tid`.
    pub fn members_of(&self, tid: u32) -> (r: &Table)
        requires
            self.wf(),
            tid < self@.tables.len(),
        ensures
            r@ == self@.tables[tid as int],
            r.wf(),
    {
        &self.table_members[tid as usize]
    }

    /// The group that holds `pid`, if any.
    pub fn current_group(&self, pid: u32) -> (r: Option<u32>)
        ensures
            r == self@.group_of(pid),
    {
        match self.people_to_table.get(&pid) {
            Some(t) => Some(*t),
            None => None,
        }
    }

    /// Occupants of the group that holds `pid`, if any.
    pub fn curr_table(&self, pid: &u32) -> (r: Option<&Table>)
        requires
            self.wf(),
            self@.consistent(),
        ensures
            match r {
                Some(t) => self@.forward.contains_key(*pid) && t@ == self@.tables[self@.forward[*pid] as int]
                    && t.wf(),
                None => !self@.forward.contains_key(*pid),
            },
    {
        match self.people_to_table.get(pid) {
            Some(tid) => {
                assert(self@.forward.contains_key(*pid));
                Some(&self.table_members[*tid as usize])
            },
            None => None,
        }
    }

    /// Assigns `pid` to `tid` and returns the group it was in before. That
    /// group's member list is left as it was.
    pub fn join_table(&mut self, pid: &u32, tid: &u32) -> (r: Option<u32>)
        requires
            old(self).wf(),
            *tid < old(self)@.tables.len(),
        ensures
            final(self).wf(),
            r == old(self)@.group_of(*pid),
            final(self)@.forward == old(self)@.forward.insert(*pid, *tid),
            final(self)@.tables == old(self)@.tables.update(
                *tid as int,
                with_member(old(self)@.tables[*tid as int], *pid),
            ),
            final(self)@.capacity == old(self)@.capacity,
            final(self)@ == old(self)@.joined(*pid, *tid),
            old(self)@.consistent() && (r is None || r == Some(*tid)) ==> final(self)@.consistent(),
    {
        let ghost before = self@;
        let i = *tid as usize;
        self.table_members[i].insert(*pid);
        let prev = self.people_to_table.insert(*pid, *tid);
        assert(self@.tables =~= before.tables.update(i as int, with_member(before.tables[i as int], *pid)));
        proof {
            if before.consistent() && (prev is None || prev == Some(*tid)) {
                let after = self@;
                lemma_push_contains(before.tables[i as int], *pid);
                assert forall|p: u32| #[trigger] after.forward.contains_key(p) implies after.forward[p]
                    < after.tables.len() && after.tables[after.forward[p] as int].contains(p) by {
                    if p != *pid {
                        assert(before.forward.contains_key(p));
                        assert(before.tables[before.forward[p] as int].contains(p));
                    } else {
                        assert(after.tables[i as int].contains(p)) by {
                            if !before.tables[i as int].contains(p) {
                                assert(after.tables[i as int].last() == p);
                            }
                        }
                    }
                }
                assert forall|g: int, p: u32|
                    0 <= g < after.tables.len() && #[trigger] after.tables[g].contains(p)
                    implies after.forward.contains_key(p) && after.forward[p] == g by {
                    if p != *pid {
                        if g == i {
                            if !before.tables[i as int].contains(p) {
                                let j = choose|j: int| 0 <= j < after.tables[g].len() && after.tables[g][j] == p;
                                assert(before.tables[g][j] == p);
                            }
                        }
                        assert(before.tables[g].contains(p));
                    } else if g != i {
                        assert(before.tables[g].contains(p));
                    }
                }
            }
        }
        prev
    }

    /// Takes `pid` out of its group, leaving it unassigned; returns that group.
    pub fn leave_table(&mut self, pid: &u32) -> (r: Option<u32>)
        requires
            old(self).wf(),
            old(self)@.consistent(),
        ensures
            final(self).wf(),
            final(self)@.consistent(),
            r == old(self)@.group_of(*pid),
            final(self)@.forward == old(self)@.forward.remove(*pid),
            final(self)@.tables == match r {
                Some(g) => old(self)@.tables.update(g as int, without_member(old(self)@.tables[g as int], *pid)),
                None => old(self)@.tables,
            },
            final(self)@.capacity == old(self)@.capacity,
            final(self)@ == old(self)@.left(*pid),
    {
        let ghost before = self@;
        let prev = self.people_to_table.remove(pid);
        match prev {
            Some(g) => {
                assert(before.forward.contains_key(*pid));
                let i = g as usize;
                self.table_members[i].remove(*pid);
                assert(self@.tables =~= before.tables.update(i as int, without_member(before.tables[i as int], *pid)));
                proof {
                    lemma_without_member(before.tables[i as int], *pid);
                    let after = self@;
                    assert forall|p: u32| #[trigger] after.forward.contains_key(p) implies after.forward[p]
                        < after.tables.len() && after.tables[after.forward[p] as int].contains(p) by {
                        assert(before.forward.contains_key(p));
                    }
                    assert forall|g2: int, p: u32|
                        0 <= g2 < after.tables.len() && #[trigger] after.tables[g2].contains(p)
                        implies after.forward.contains_key(p) && after.forward[p] == g2 by {
                        assert(before.tables[g2].contains(p));
                    }
                }
            },
            None => {
                assert(self@.tables =~= before.tables);
            },
        }
        prev
    }
}

} // verus!
