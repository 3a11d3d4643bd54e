//! The shared state of a user interface: named values, the elements bound
//! to each name, and the pending updates that setting a value causes.
use vstd::prelude::*;
use crate::strmap::{StrMap, entries_map, keys_unique};
use crate::tree::ElementId;
use crate::value::Var;

verus! {

/// The named values of a user interface and who depends on them.
pub struct UIState {
    values: StrMap<Var>,
    dependees: StrMap<Vec<ElementId>>,
    updates: StrMap<ElementId>,
}

/// A copy of a list of ids.
pub fn copy_ids(v: &Vec<ElementId>) -> (r: Vec<ElementId>)
    ensures
        r@ == v@,
{
    let mut r: Vec<ElementId> = Vec::new();
    let mut i: usize = 0;
    while i < v.len()
        invariant
            i <= v.len(),
            r@ == v@.take(i as int),
        decreases v.len() - i,
    {
        r.push(v[i]);
        proof {
            assert(v@.take(i + 1) =~= v@.take(i as int).push(v@[i as int]));
        }
        i += 1;
    }
    proof {
        assert(v@.take(i as int) =~= v@);
    }
    r
}

/// The ids bound to `name` after `extra` were bound to it in `deps`.
pub open spec fn bound_after(deps: Map<Seq<char>, Seq<ElementId>>, name: Seq<char>, extra: Seq<ElementId>) -> Seq<ElementId> {
    if deps.contains_key(name) {
        deps[name] + extra
    } else {
        extra
    }
}

impl UIState {
    /// The values by name.
    pub closed spec fn values(&self) -> Map<Seq<char>, Var> {
        self.values@
    }

    /// The ids of the elements bound to each name.
    pub closed spec fn dependees(&self) -> Map<Seq<char>, Seq<ElementId>> {
        self.dependees@.map_values(|v: Vec<ElementId>| v@)
    }

    /// The pending updates: for a name, the element to tell of its change.
    pub closed spec fn updates_view(&self) -> Map<Seq<char>, ElementId> {
        self.updates@
    }

    /// A state with no values, no bindings and no updates.
    pub fn new() -> (s: UIState)
        ensures
            s.values() == Map::<Seq<char>, Var>::empty(),
            s.dependees() == Map::<Seq<char>, Seq<ElementId>>::empty(),
            s.updates_view() == Map::<Seq<char>, ElementId>::empty(),
    {
        let s = UIState { values: StrMap::new(), dependees: StrMap::new(), updates: StrMap::new() };
        proof {
            assert(s.dependees() =~= Map::<Seq<char>, Seq<ElementId>>::empty());
        }
        s
    }

    /// Forgets every pending update.
    pub fn clear_updates(&mut self)
        ensures
            final(self).updates_view() == Map::<Seq<char>, ElementId>::empty(),
            final(self).values() == old(self).values(),
            final(self).dependees() == old(self).dependees(),
    {
        self.updates.clear()
    }

    /// The pending updates.
    pub fn updates(&self) -> (u: &StrMap<ElementId>)
        ensures
            u@ == self.updates_view(),
    {
        &self.updates
    }

    /// The values.
    pub fn value_map(&self) -> (v: &StrMap<Var>)
        ensures
            v@ == self.values(),
    {
        &self.values
    }

    /// Registers a value under `name`, replacing any value held there.
    pub fn register(&mut self, name: &str, default_value: Var)
        ensures
            final(self).values() == old(self).values().insert(name@, default_value),
            final(self).dependees() == old(self).dependees(),
            final(self).updates_view() == old(self).updates_view(),
    {
        self.values.insert(name.to_owned(), default_value);
    }

    /// Sets the value under `name`; when elements are bound to `name`, the
    /// pending update of `name` becomes the last of them.
    pub fn set(&mut self, name: &str, value: Var)
        ensures
            final(self).values() == old(self).values().insert(name@, value),
            final(self).dependees() == old(self).dependees(),
            final(self).updates_view() == if old(self).dependees().contains_key(name@)
                && old(self).dependees()[name@].len() > 0 {
                old(self).updates_view().insert(name@, old(self).dependees()[name@].last())
            } else {
                old(self).updates_view()
            },
    {
        self.values.insert(name.to_owned(), value);
        if let Some(dependees) = self.dependees.get(name) {
            let mut i: usize = 0;
            while i < dependees.len()
                invariant
                    i <= dependees.len(),
                    self.dependees@ == old(self).dependees@,
                    self.values@ == old(self).values@.insert(name@, value),
                    self.updates@ == if i == 0 {
                        old(self).updates@
                    } else {
                        old(self).updates@.insert(name@, dependees@[i - 1])
                    },
                decreases dependees.len() - i,
            {
                self.updates.insert(name.to_owned(), dependees[i]);
                proof {
                    assert(self.updates@ =~= old(self).updates@.insert(name@, dependees@[i as int]));
                }
                i += 1;
            }
        }
    }

    /// The value under `name`, if any.
    pub fn get(&self, name: &str) -> (v: Option<&Var>)
        ensures
            v is Some <==> self.values().contains_key(name@),
            v is Some ==> *v->0 == self.values()[name@],
    {
        self.values.get(name)
    }

    /// The value under `name`, which must be held.
    pub fn value(&self, name: &str) -> (v: &Var)
        requires
            self.values().contains_key(name@),
        ensures
            *v == self.values()[name@],
    {
        self.values.get(name).unwrap()
    }

    /// Binds, for each name of `bindings`, its ids to that name, after the
    /// ids already bound to it.
    pub fn bind(&mut self, bindings: StrMap<Vec<ElementId>>)
        ensures
            final(self).values() == old(self).values(),
            final(self).updates_view() == old(self).updates_view(),
            final(self).dependees().dom() == old(self).dependees().dom() + bindings@.dom(),
            forall|name: Seq<char>| #[trigger] final(self).dependees().contains_key(name) ==>
                final(self).dependees()[name] == if bindings@.contains_key(name) {
                    bound_after(old(self).dependees(), name, bindings@[name]@)
                } else {
                    old(self).dependees()[name]
                },
    {
        let entries = bindings.entries();
        let ghost e = entries@;
        let mut i: usize = 0;
        while i < entries.len()
            invariant
                i <= entries.len(),
                e == entries@,
                keys_unique(e),
                bindings@ == entries_map(e),
                self.values@ == old(self).values@,
                self.updates@ == old(self).updates@,
                forall|name: Seq<char>| #[trigger] self.dependees().contains_key(name) <==>
                    (old(self).dependees().contains_key(name)
                        || exists|j: int| 0 <= j < i && #[trigger] e[j].0@ == name),
                forall|name: Seq<char>| #[trigger] self.dependees().contains_key(name) ==>
                    self.dependees()[name] == if exists|j: int| 0 <= j < i && #[trigger] e[j].0@ == name {
                        bound_after(old(self).dependees(), name, e[entry_index_of(e, name)].1@)
                    } else {
                        old(self).dependees()[name]
                    },
            decreases entries.len() - i,
        {
            let name = &entries[i].0;
            let ids = &entries[i].1;
            let ghost before = self.dependees();
            let merged = match self.dependees.get(name.as_str()) {
                Some(existing) => {
                    let mut all = copy_ids(existing);
                    let mut extra = copy_ids(ids);
                    all.append(&mut extra);
                    all
                },
                None => copy_ids(ids),
            };
            let ghost merged_v = merged@;
            proof {
                assert(merged_v == bound_after(before, e[i as int].0@, e[i as int].1@));
            }
            self.dependees.insert(name.clone(), merged);
            proof {
                assert(self.dependees() =~= before.insert(e[i as int].0@, merged_v));
                assert forall|nm: Seq<char>| #[trigger] self.dependees().contains_key(nm) <==>
                    (old(self).dependees().contains_key(nm)
                        || exists|j: int| 0 <= j < i + 1 && #[trigger] e[j].0@ == nm) by {
                    if nm == e[i as int].0@ {
                        assert(exists|j: int| 0 <= j < i + 1 && #[trigger] e[j].0@ == nm);
                    }
                    if exists|j: int| 0 <= j < i + 1 && #[trigger] e[j].0@ == nm {
                        let j = choose|j: int| 0 <= j < i + 1 && #[trigger] e[j].0@ == nm;
                        if j < i {
                            assert(exists|j2: int| 0 <= j2 < i && #[trigger] e[j2].0@ == nm);
                        }
                    }
                }
                assert forall|nm: Seq<char>| #[trigger] self.dependees().contains_key(nm) implies
                    self.dependees()[nm] == if exists|j: int| 0 <= j < i + 1 && #[trigger] e[j].0@ == nm {
                        bound_after(old(self).dependees(), nm, e[entry_index_of(e, nm)].1@)
                    } else {
                        old(self).dependees()[nm]
                    } by {
                    lemma_entry_index_of(e, i as int);
                    if nm == e[i as int].0@ {
                        assert(exists|j: int| 0 <= j < i + 1 && #[trigger] e[j].0@ == nm);
                        assert(!exists|j: int| 0 <= j < i && #[trigger] e[j].0@ == nm);
                        assert(before.contains_key(nm) == old(self).dependees().contains_key(nm));
                        if before.contains_key(nm) {
                            assert(before[nm] == old(self).dependees()[nm]);
                        }
                    } else {
                        assert(before.contains_key(nm));
                        if exists|j: int| 0 <= j < i + 1 && #[trigger] e[j].0@ == nm {
                            let j = choose|j: int| 0 <= j < i + 1 && #[trigger] e[j].0@ == nm;
                            assert(j < i);
                            assert(exists|j2: int| 0 <= j2 < i && #[trigger] e[j2].0@ == nm);
                        } else {
                            assert(!exists|j2: int| 0 <= j2 < i && #[trigger] e[j2].0@ == nm);
                        }
                    }
                }
            }
            i += 1;
        }
        proof {
            assert forall|name: Seq<char>| #[trigger] self.dependees().contains_key(name) implies
                self.dependees()[name] == if bindings@.contains_key(name) {
                    bound_after(old(self).dependees(), name, bindings@[name]@)
                } else {
                    old(self).dependees()[name]
                } by {
                if exists|j: int| 0 <= j < i && #[trigger] e[j].0@ == name {
                    let j = choose|j: int| 0 <= j < i && #[trigger] e[j].0@ == name;
                    lemma_entry_index_of(e, j);
                    assert(bindings@.contains_key(name));
                    crate::strmap::lemma_entry_at(e, j);
                } else {
                    assert(!bindings@.contains_key(name));
                }
            }
            assert forall|name: Seq<char>| #[trigger] self.dependees().dom().contains(name)
                == (old(self).dependees().dom() + bindings@.dom()).contains(name) by {
                if bindings@.contains_key(name) {
                    let j = choose|j: int| 0 <= j < e.len() && #[trigger] e[j].0@ == name;
                }
                if exists|j: int| 0 <= j < i && #[trigger] e[j].0@ == name {
                    let j = choose|j: int| 0 <= j < i && #[trigger] e[j].0@ == name;
                    assert(e[j].0@ == name);
                    assert(bindings@.dom().contains(name));
                }
            }
            assert(self.dependees().dom() =~= old(self).dependees().dom() + bindings@.dom());
        }
    }

    /// Binds the element `id` to `name`, after the ids already bound to it.
    pub fn bind_one(&mut self, id: ElementId, name: &str)
        ensures
            final(self).values() == old(self).values(),
            final(self).updates_view() == old(self).updates_view(),
            final(self).dependees() == old(self).dependees().insert(name@, bound_after(old(self).dependees(), name@, seq![id])),
    {
        let merged = match self.dependees.get(name) {
            Some(existing) => {
                let mut all = copy_ids(existing);
                all.push(id);
                all
            },
            None => {
                let mut v = Vec::new();
                v.push(id);
                v
            },
        };
        let ghost merged_v = merged@;
        self.dependees.insert(name.to_owned(), merged);
        proof {
            assert(merged_v == bound_after(old(self).dependees(), name@, seq![id]));
            assert(self.dependees() =~= old(self).dependees().insert(name@, bound_after(old(self).dependees(), name@, seq![id])));
        }
    }
}

/// The position of the entry for `name` among entries with unique keys.
pub open spec fn entry_index_of(e: Seq<(String, Vec<ElementId>)>, name: Seq<char>) -> int {
    crate::strmap::entry_index(e, name)
}

proof fn lemma_entry_index_of(e: Seq<(String, Vec<ElementId>)>, i: int)
    requires
        keys_unique(e),
        0 <= i < e.len(),
    ensures
        entry_index_of(e, e[i].0@) == i,
{
    crate::strmap::lemma_entry_at(e, i);
}

impl Default for UIState {
    fn default() -> (s: Self)
        ensures
            s.values() == Map::<Seq<char>, Var>::empty(),
            s.dependees() == Map::<Seq<char>, Seq<ElementId>>::empty(),
            s.updates_view() == Map::<Seq<char>, ElementId>::empty(),
    {
        Self::new()
    }
}

/// Binding an element to a name and then setting the value of that name
/// makes that element the pending update of the name.
pub proof fn law_bind_then_set_notifies(
    deps: Map<Seq<char>, Seq<ElementId>>,
    updates: Map<Seq<char>, ElementId>,
    name: Seq<char>,
    id: ElementId,
)
    ensures
        ({
            let deps2 = deps.insert(name, bound_after(deps, name, seq![id]));
            &&& deps2.contains_key(name)
            &&& deps2[name].len() > 0
            &&& updates.insert(name, deps2[name].last())[name] == id
        }),
{
}

/// Setting a value and reading it back gives that value.
pub proof fn law_set_then_get(values: Map<Seq<char>, Var>, name: Seq<char>, value: Var)
    ensures
        values.insert(name, value).contains_key(name),
        values.insert(name, value)[name] == value,
{
}

} // verus!
