//! Collect monitored information so that it can be inspected afterwards.

use crate::apath::Apath;
use crate::monitor::counters::{Counter, Counters, COUNTER_COUNT};
use crate::monitor::{Problem, Task};
use vstd::prelude::*;

verus! {

/// Whether the problems `after` are the problems `before` and, behind
/// them, others.
pub open spec fn continues(before: Seq<Problem>, after: Seq<Problem>) -> bool {
    before.len() <= after.len() && after.take(before.len() as int) == before
}

/// A monitor that collects information for later inspection.
///
/// Problems are collected in a list, and so are the files that were
/// started and the names of the tasks. Totals of counters are kept.
pub struct CollectMonitor {
    pub problems: Vec<Problem>,
    counters: Counters,
    started_files: Vec<Apath>,
    task_list: Vec<String>,
}

impl CollectMonitor {
    /// The problems that were collected and not yet taken, in order.
    pub closed spec fn collected(&self) -> Seq<Problem> {
        self.problems@
    }

    /// The counts that were collected.
    pub closed spec fn counters(&self) -> Counters {
        self.counters
    }

    /// The files that were started and not yet taken, in order.
    pub closed spec fn started_files(&self) -> Seq<Apath> {
        self.started_files@
    }

    /// The names of the tasks that were started, in order.
    pub closed spec fn tasks(&self) -> Seq<String> {
        self.task_list@
    }

    /// A monitor that has collected nothing: no problem, no file, no task,
    /// and every count at zero.
    pub fn new() -> (m: CollectMonitor)
        ensures
            m.collected().len() == 0,
            m.started_files().len() == 0,
            m.tasks().len() == 0,
            m.counters()@.len() == COUNTER_COUNT,
            forall|i: int| 0 <= i < COUNTER_COUNT ==> m.counters()@[i] == 0,
    {
        CollectMonitor {
            problems: Vec::new(),
            counters: Counters::default(),
            started_files: Vec::new(),
            task_list: Vec::new(),
        }
    }

    /// The count of `counter`.
    pub fn get_counter(&self, counter: Counter) -> (v: usize)
        ensures
            v == self.counters().value(counter),
    {
        self.counters.get(counter)
    }

    /// Hands over the problems that were collected and forgets them.
    pub fn take_problems(&mut self) -> (taken: Vec<Problem>)
        ensures
            taken@ == old(self).collected(),
            final(self).collected().len() == 0,
            final(self).counters() == old(self).counters(),
            final(self).started_files() == old(self).started_files(),
            final(self).tasks() == old(self).tasks(),
    {
        let mut taken: Vec<Problem> = Vec::new();
        core::mem::swap(&mut self.problems, &mut taken);
        taken
    }

    /// Hands over the files that were started and forgets them.
    pub fn take_started_files(&mut self) -> (taken: Vec<Apath>)
        ensures
            taken@ == old(self).started_files(),
            final(self).started_files().len() == 0,
            final(self).collected() == old(self).collected(),
            final(self).counters() == old(self).counters(),
            final(self).tasks() == old(self).tasks(),
    {
        let mut taken: Vec<Apath> = Vec::new();
        core::mem::swap(&mut self.started_files, &mut taken);
        taken
    }

    /// Adds `increment` to the count of `counter`, as [`Counters::count`]
    /// does.
    pub fn count(&mut self, counter: Counter, increment: usize)
        ensures
            final(self).counters()@ == old(self).counters()@.update(
                counter.index_of(),
                old(self).counters().value(counter).wrapping_add(increment),
            ),
            final(self).collected() == old(self).collected(),
            final(self).started_files() == old(self).started_files(),
            final(self).tasks() == old(self).tasks(),
    {
        self.counters.count(counter, increment)
    }

    /// Sets the count of `counter` to `value`.
    pub fn set_counter(&mut self, counter: Counter, value: usize)
        ensures
            final(self).counters()@ == old(self).counters()@.update(counter.index_of(), value),
            final(self).collected() == old(self).collected(),
            final(self).started_files() == old(self).started_files(),
            final(self).tasks() == old(self).tasks(),
    {
        self.counters.set(counter, value)
    }

    /// Collects a problem.
    pub fn problem(&mut self, problem: Problem)
        ensures
            final(self).collected() == old(self).collected().push(problem),
            final(self).counters() == old(self).counters(),
            final(self).started_files() == old(self).started_files(),
            final(self).tasks() == old(self).tasks(),
    {
        self.problems.push(problem);
    }

    /// Notes that work on the file `apath` has begun.
    pub fn file_started(&mut self, apath: Apath)
        ensures
            final(self).started_files() == old(self).started_files().push(apath),
            final(self).collected() == old(self).collected(),
            final(self).counters() == old(self).counters(),
            final(self).tasks() == old(self).tasks(),
    {
        self.started_files.push(apath);
    }

    /// Announces the task `name` and returns it, with no progress yet.
    pub fn start_task(&mut self, name: String) -> (task: Task)
        ensures
            task.name@ == name@,
            task.done == 0,
            final(self).tasks().len() == old(self).tasks().len() + 1,
            final(self).tasks().last() == name,
            final(self).tasks().drop_last() == old(self).tasks(),
            final(self).collected() == old(self).collected(),
            final(self).counters() == old(self).counters(),
            final(self).started_files() == old(self).started_files(),
    {
        let task = Task { name: name.clone(), done: 0 };
        self.task_list.push(name);
        assert(self.task_list@.drop_last() =~= old(self).task_list@);
        task
    }
}

} // verus!
