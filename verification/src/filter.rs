//! The filter: the tree of blocked and allowed names, the list of the
//! allowed ones, and counters.

use crate::config::Config;
use crate::filter_statistics::{after_check, count_up, counted, FilterStatistics};
use crate::name::DomainName;
use crate::tree::{blocked_by, DomainFilterTree};
use vstd::prelude::*;

verus! {

/// What a sequence of names holds.
pub open spec fn names_view(names: Seq<DomainName>) -> Seq<Seq<Seq<u8>>> {
    Seq::new(names.len(), |i: int| names[i]@)
}

/// The names that occur in `names`.
pub open spec fn names_set(names: Seq<Seq<Seq<u8>>>) -> Set<Seq<Seq<u8>>> {
    Set::new(|name: Seq<Seq<u8>>| names.contains(name))
}

/// The filter.
pub struct Filter {
    tree: DomainFilterTree,
    allowed: Vec<DomainName>,
    pub statistics: FilterStatistics,
}

/// What a filter holds: the blocked names, the allowed names in the order
/// in which they were entered, and the counters.
pub struct FilterView {
    pub blocked: Set<Seq<Seq<u8>>>,
    pub allowed: Seq<Seq<Seq<u8>>>,
    pub statistics: FilterStatistics,
}

/// The names of a list with one more name are those of the list and that
/// name; an empty list has no names.
pub proof fn lemma_names_set_push(names: Seq<Seq<Seq<u8>>>, name: Seq<Seq<u8>>)
    ensures
        names_set(names.push(name)) == names_set(names).insert(name),
        names_set(Seq::<Seq<Seq<u8>>>::empty()) == Set::<Seq<Seq<u8>>>::empty(),
{
    assert forall|other: Seq<Seq<u8>>| names_set(names.push(name)).contains(other) == names_set(
        names,
    ).insert(name).contains(other) by {
        if names.push(name).contains(other) {
            let i = choose|i: int| 0 <= i < names.push(name).len() && names.push(name)[i] == other;
            if i < names.len() {
                assert(names[i] == other);
            }
        }
        if names.contains(other) {
            let i = choose|i: int| 0 <= i < names.len() && names[i] == other;
            assert(names.push(name)[i] == other);
        }
        if other == name {
            assert(names.push(name)[names.len() as int] == other);
        }
    }
    assert(names_set(names.push(name)) =~= names_set(names).insert(name));
    assert(names_set(Seq::<Seq<Seq<u8>>>::empty()) =~= Set::<Seq<Seq<u8>>>::empty());
}

impl Filter {
    /// The filter is in order.
    pub closed spec fn wf(&self) -> bool {
        self.tree.wf() && self.tree.allowed() == names_set(names_view(self.allowed@))
    }

    /// What the filter holds.
    pub closed spec fn view(&self) -> FilterView {
        FilterView {
            blocked: self.tree.blocked(),
            allowed: names_view(self.allowed@),
            statistics: self.statistics,
        }
    }

    /// Whether the filter blocks `name`.
    pub open spec fn blocks(&self, name: Seq<Seq<u8>>) -> bool {
        blocked_by(self@.blocked, names_set(self@.allowed), name)
    }

    /// A filter that blocks nothing.
    pub fn new() -> (filter: Filter)
        ensures
            filter.wf(),
            filter@.blocked == Set::<Seq<Seq<u8>>>::empty(),
            filter@.allowed == Seq::<Seq<Seq<u8>>>::empty(),
            filter@.statistics == (FilterStatistics {
                blocked_entries: 0,
                allowed_entries: 0,
                checked: 0,
                blocked: 0,
            }),
    {
        let filter = Filter {
            tree: DomainFilterTree::new(),
            allowed: Vec::new(),
            statistics: FilterStatistics::new(),
        };
        proof {
            lemma_names_set_push(Seq::empty(), Seq::empty());
            assert(names_view(filter.allowed@) =~= Seq::<Seq<Seq<u8>>>::empty());
        }
        filter
    }

    /// Blocks `name` and the names under it.
    pub fn add_blocked(&mut self, name: &DomainName)
        requires
            old(self).wf(),
        ensures
            final(self).wf(),
            final(self)@ == (FilterView {
                blocked: old(self)@.blocked.insert(name@),
                statistics: FilterStatistics {
                    blocked_entries: counted(old(self)@.statistics.blocked_entries),
                    ..old(self)@.statistics
                },
                ..old(self)@
            }),
    {
        self.tree.insert_blocked(name);
        self.statistics.blocked_entries = count_up(self.statistics.blocked_entries);
    }

    /// Allows `name` and the names under it, and enters it in the list of
    /// the allowed names.
    pub fn add_allowed(&mut self, name: &DomainName)
        requires
            old(self).wf(),
        ensures
            final(self).wf(),
            final(self)@ == (FilterView {
                allowed: old(self)@.allowed.push(name@),
                statistics: FilterStatistics {
                    allowed_entries: counted(old(self)@.statistics.allowed_entries),
                    ..old(self)@.statistics
                },
                ..old(self)@
            }),
    {
        let ghost before = names_view(self.allowed@);
        self.tree.insert_allowed(name);
        self.allowed.push(name.duplicate());
        self.statistics.allowed_entries = count_up(self.statistics.allowed_entries);
        proof {
            assert(names_view(self.allowed@) =~= before.push(name@));
            lemma_names_set_push(before, name@);
        }
    }

    /// Whether `name` is blocked. The counters stay as they are.
    pub fn is_blocked(&self, name: &DomainName) -> (blocked: bool)
        requires
            self.wf(),
        ensures
            blocked == self.blocks(name@),
    {
        self.tree.is_blocked(name)
    }

    /// Whether `name` is blocked, counted as a check.
    pub fn check(&mut self, name: &DomainName) -> (blocked: bool)
        requires
            old(self).wf(),
        ensures
            final(self).wf(),
            blocked == old(self).blocks(name@),
            final(self)@ == (FilterView {
                statistics: after_check(old(self)@.statistics, blocked),
                ..old(self)@
            }),
    {
        let blocked = self.tree.is_blocked(name);
        self.statistics.count_check(blocked);
        blocked
    }

    /// The allowed names, in the order in which they were entered.
    pub fn allowed_domains(&self) -> (names: &Vec<DomainName>)
        ensures
            names_view(names@) == self@.allowed,
    {
        &self.allowed
    }

    /// The counters.
    pub fn statistics(&self) -> (statistics: FilterStatistics)
        ensures
            statistics == self@.statistics,
    {
        self.statistics
    }

    /// The filter that the settings ask for: it blocks and allows the
    /// names that they list.
    pub fn from_config(config: &Config) -> (filter: Filter)
        ensures
            filter.wf(),
            filter@.blocked == names_set(names_view(config.blocked_domains@)),
            filter@.allowed == names_view(config.allowed_domains@),
            filter@.statistics == (FilterStatistics {
                blocked_entries: config.blocked_domains@.len() as u64,
                allowed_entries: config.allowed_domains@.len() as u64,
                checked: 0,
                blocked: 0,
            }),
    {
        let mut filter = Filter::new();
        let ghost blocked = names_view(config.blocked_domains@);
        let ghost allowed = names_view(config.allowed_domains@);
        proof {
            lemma_names_set_push(Seq::empty(), Seq::empty());
        }
        let mut i: usize = 0;
        assert(blocked.take(0) =~= Seq::<Seq<Seq<u8>>>::empty());
        while i < config.blocked_domains.len()
            invariant
                i <= config.blocked_domains@.len(),
                blocked == names_view(config.blocked_domains@),
                filter.wf(),
                filter@.blocked == names_set(blocked.take(i as int)),
                filter@.allowed == Seq::<Seq<Seq<u8>>>::empty(),
                filter@.statistics == (FilterStatistics {
                    blocked_entries: i as u64,
                    allowed_entries: 0,
                    checked: 0,
                    blocked: 0,
                }),
            decreases config.blocked_domains@.len() - i,
        {
            filter.add_blocked(&config.blocked_domains[i]);
            proof {
                lemma_names_set_push(blocked.take(i as int), blocked[i as int]);
                assert(blocked.take(i + 1) =~= blocked.take(i as int).push(blocked[i as int]));
            }
            i = i + 1;
        }
        assert(blocked.take(i as int) =~= blocked);
        let mut j: usize = 0;
        assert(allowed.take(0) =~= Seq::<Seq<Seq<u8>>>::empty());
        while j < config.allowed_domains.len()
            invariant
                j <= config.allowed_domains@.len(),
                allowed == names_view(config.allowed_domains@),
                filter.wf(),
                filter@.blocked == names_set(blocked),
                filter@.allowed == allowed.take(j as int),
                filter@.statistics == (FilterStatistics {
                    blocked_entries: config.blocked_domains@.len() as u64,
                    allowed_entries: j as u64,
                    checked: 0,
                    blocked: 0,
                }),
            decreases config.allowed_domains@.len() - j,
        {
            filter.add_allowed(&config.allowed_domains[j]);
            proof {
                assert(allowed.take(j + 1) =~= allowed.take(j as int).push(allowed[j as int]));
            }
            j = j + 1;
        }
        assert(allowed.take(j as int) =~= allowed);
        filter
    }
}

} // verus!
