//! Schedules: named lists of systems, run in the order they were added.
use vstd::prelude::*;

use super::{World, WorldModel};
use crate::keyed::{has_key, lemma_lookup, lemma_push, lemma_update, unique_keys};
use crate::schedule::{runs_in_order, System};

verus! {

impl<V, S> World<V, S> {
    /// The index of the schedule named `name`.
    fn find_schedule(&self, name: &String) -> (r: Option<usize>)
        ensures
            match r {
                Some(i) => i < self.schedules@.len() && self.schedules@[i as int].0@ == name@,
                None => !has_key(self.schedule_entries(), name@),
            },
    {
        let mut i: usize = 0;
        while i < self.schedules.len()
            invariant
                i <= self.schedules@.len(),
                forall|j: int| 0 <= j < i ==> self.schedules@[j].0@ != name@,
            decreases self.schedules@.len() - i,
        {
            if self.schedules[i].0 == *name {
                return Some(i);
            }
            i += 1;
        }
        proof {
            let e = self.schedule_entries();
            assert forall|j: int| 0 <= j < e.len() implies #[trigger] e[j].0 != name@ by {
                assert(e[j].0 == self.schedules@[j].0@);
            }
        }
        None
    }

    /// Creates the schedule `name` with no systems; one already there is
    /// emptied.
    pub fn register_schedule(&mut self, name: &'static str)
        requires
            old(self).wf(),
        ensures
            final(self).wf(),
            final(self)@ == (WorldModel { schedules: old(self)@.schedules.insert(name@, Seq::empty()), ..old(self)@ }),
    {
        let owned = name.to_owned();
        let ghost es = self.schedule_entries();
        let ghost empty = Seq::<S>::empty();
        match self.find_schedule(&owned) {
            Some(i) => {
                self.schedules.set(i, (owned, Vec::new()));
                proof {
                    lemma_update(es, i as int, empty);
                    assert(self.schedule_entries() =~= es.update(i as int, (name@, empty)));
                }
            },
            None => {
                self.schedules.push((owned, Vec::new()));
                proof {
                    lemma_push(es, name@, empty);
                    assert(self.schedule_entries() =~= es.push((name@, empty)));
                }
            },
        }
    }

    /// Appends `system` to the schedule `name`; nothing happens where there
    /// is no such schedule.
    pub fn add_system(&mut self, schedule_name: &'static str, system: S)
        requires
            old(self).wf(),
        ensures
            final(self).wf(),
            final(self)@ == if old(self)@.schedules.contains_key(schedule_name@) {
                WorldModel {
                    schedules: old(self)@.schedules.insert(
                        schedule_name@,
                        old(self)@.schedules[schedule_name@].push(system),
                    ),
                    ..old(self)@
                }
            } else {
                old(self)@
            },
    {
        let owned = schedule_name.to_owned();
        let ghost es = self.schedule_entries();
        match self.find_schedule(&owned) {
            Some(i) => {
                let ghost old_systems = self.schedules@[i as int].1@;
                push_system(&mut self.schedules[i], system);
                proof {
                    lemma_lookup(es, i as int);
                    lemma_update(es, i as int, old_systems.push(system));
                    assert(self.schedule_entries() =~= es.update(
                        i as int,
                        (schedule_name@, old_systems.push(system)),
                    ));
                }
            },
            None => {},
        }
    }
}

impl<V, S: System<V>> World<V, S> {
    /// Runs one system against the world.
    pub fn run_system(&mut self, system: S)
        requires
            old(self).wf(),
        ensures
            final(self).wf(),
            system.effect(old(self)@, final(self)@),
    {
        system.run(self);
    }

    /// Runs every system of the schedule `name`, one after another in the
    /// order they were added; nothing happens where there is no such
    /// schedule. The list is the one the schedule held when the run began.
    pub fn run_schedule(&mut self, schedule_name: &'static str)
        requires
            old(self).wf(),
        ensures
            final(self).wf(),
            if old(self)@.schedules.contains_key(schedule_name@) {
                runs_in_order(old(self)@.schedules[schedule_name@], old(self)@, final(self)@)
            } else {
                final(self)@ == old(self)@
            },
    {
        let owned = schedule_name.to_owned();
        let ghost start = self@;
        match self.find_schedule(&owned) {
            Some(si) => {
                proof {
                    lemma_lookup(self.schedule_entries(), si as int);
                }
                let systems = copy_systems(&self.schedules[si].1);
                let mut i: usize = 0;
                assert(systems@.subrange(0, 0) =~= Seq::<S>::empty());
                while i < systems.len()
                    invariant
                        i <= systems@.len(),
                        self.wf(),
                        runs_in_order(systems@.subrange(0, i as int), start, self@),
                    decreases systems@.len() - i,
                {
                    let ghost mid = self@;
                    let ghost done = systems@.subrange(0, i as int + 1);
                    systems[i].run(self);
                    proof {
                        assert(done.drop_last() =~= systems@.subrange(0, i as int));
                        assert(done.last() == systems@[i as int]);
                        assert(runs_in_order(done.drop_last(), start, mid) && done.last().effect(
                            mid,
                            self@,
                        ));
                    }
                    i += 1;
                }
                assert(systems@.subrange(0, systems@.len() as int) =~= systems@);
            },
            None => {},
        }
    }
}

fn push_system<S>(entry: &mut (String, Vec<S>), system: S)
    ensures
        final(entry).0 == old(entry).0,
        final(entry).1@ == old(entry).1@.push(system),
{
    entry.1.push(system);
}

fn copy_systems<S: Copy>(systems: &Vec<S>) -> (r: Vec<S>)
    ensures
        r@ == systems@,
{
    let mut r: Vec<S> = Vec::new();
    let mut i: usize = 0;
    while i < systems.len()
        invariant
            i <= systems@.len(),
            r@ == systems@.subrange(0, i as int),
        decreases systems@.len() - i,
    {
        r.push(systems[i]);
        i += 1;
        assert(r@ =~= systems@.subrange(0, i as int));
    }
    assert(systems@.subrange(0, systems@.len() as int) =~= systems@);
    r
}

impl<V, S> World<V, S> {
    /// The names of the schedules, each once, with the number of systems in
    /// each.
    pub fn schedule_sizes(&self) -> (r: Vec<(String, usize)>)
        requires
            self.wf(),
        ensures
            forall|a: int, b: int|
                0 <= a < r@.len() && 0 <= b < r@.len() && a != b ==> r@[a].0@ != r@[b].0@,
            forall|i: int|
                0 <= i < r@.len() ==> #[trigger] self@.schedules.contains_key(r@[i].0@)
                    && self@.schedules[r@[i].0@].len() == r@[i].1,
            forall|name: Seq<char>| #[trigger]
                self@.schedules.contains_key(name) ==> exists|i: int|
                    0 <= i < r@.len() && #[trigger] r@[i].0@ == name,
    {
        let ghost e = self.schedule_entries();
        let mut r: Vec<(String, usize)> = Vec::new();
        let mut i: usize = 0;
        while i < self.schedules.len()
            invariant
                i <= self.schedules@.len(),
                e == self.schedule_entries(),
                unique_keys(e),
                r@.len() == i,
                forall|j: int|
                    0 <= j < i ==> #[trigger] r@[j].0@ == e[j].0 && r@[j].1 as nat == e[j].1.len(),
            decreases self.schedules@.len() - i,
        {
            let entry = &self.schedules[i];
            r.push((entry.0.clone(), entry.1.len()));
            i += 1;
        }
        proof {
            assert forall|a: int, b: int|
                0 <= a < r@.len() && 0 <= b < r@.len() && a != b implies r@[a].0@ != r@[b].0@ by {
                assert(r@[a].0@ == e[a].0 && r@[b].0@ == e[b].0);
            }
            assert forall|j: int| 0 <= j < r@.len() implies #[trigger] self@.schedules.contains_key(
                r@[j].0@,
            ) && self@.schedules[r@[j].0@].len() == r@[j].1 by {
                lemma_lookup(e, j);
            }
            assert forall|name: Seq<char>| #[trigger]
                self@.schedules.contains_key(name) implies exists|j: int|
                    0 <= j < r@.len() && #[trigger] r@[j].0@ == name by {
                let j = choose|j: int| 0 <= j < e.len() && #[trigger] e[j].0 == name;
                assert(r@[j].0@ == name);
            }
        }
        r
    }
}

} // verus!
