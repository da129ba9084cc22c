//! Pushing load out of one overloaded domain, one task at a time.
use vstd::prelude::*;
use crate::accuracy;
use crate::double;
use crate::double::Double;
use crate::load_balancer;
use crate::load_balancer::{LoadBalancer, TaskInfo};
use crate::load_map;
use crate::load_map::LoadMap;
use crate::migration;
use crate::migration::{LOAD_IMBAL_PUSH_MAX_RATIO_BITS, Migration};
use crate::rounding;

verus! {

/// A domain that is to push out tasks.
#[derive(Clone, Copy, Debug)]
pub struct Push {
    pub dom: u32,
    /// The load that the domain has too much.
    pub to_push: Double,
    /// No more load than this is pushed out.
    pub push_max: Double,
    /// The tasks of the domain have to be read before it can push.
    pub needs_tasks: bool,
}

/// How far the pushing from a domain has got.
pub struct PushState {
    /// Kworkers are left alone.
    pub skip_kworkers: bool,
    /// No more load than this is pushed out.
    pub push_max: Double,
    /// The tasks of the domain, by load.
    pub tasks: Seq<(Double, TaskInfo)>,
    /// The load that the domain still has too much.
    pub to_push: Double,
    /// The load that has been pushed out.
    pub pushed: Double,
    /// The domains that lack load, by the load that they lack.
    pub pull: Seq<(Double, u32)>,
    /// The tasks that are to move, in the order in which they were picked.
    pub migrations: Seq<Migration>,
}

/// The number of tasks that have not been moved.
pub open spec fn unmigrated(tasks: Seq<(Double, TaskInfo)>) -> nat
    decreases tasks.len(),
{
    if tasks.len() == 0 {
        0
    } else {
        unmigrated(tasks.drop_last()) + if tasks.last().1.migrated {
            0nat
        } else {
            1nat
        }
    }
}

impl PushState {
    /// The task that would move to the `i`-th domain that lacks load: the one
    /// that is picked for it, where that does not push out more than the limit.
    pub open spec fn victim_for(self, i: int) -> Option<int> {
        let picked = migration::victim(
            self.tasks,
            self.skip_kworkers,
            self.to_push,
            self.pull[i].0,
            self.pull[i].1,
        );
        match picked {
            Some(t) => if self.pushed.plus(self.tasks[t].0).at_most(self.push_max) {
                Some(t)
            } else {
                None
            },
            None => None,
        }
    }

    /// The domain that lacks most load of the first `n` for which there is a
    /// task to move.
    pub open spec fn puller(self, n: nat) -> Option<int>
        decreases n,
    {
        if n == 0 {
            None
        } else if self.victim_for(n - 1) is Some {
            Some(n - 1)
        } else {
            self.puller((n - 1) as nat)
        }
    }

    /// The state after the `t`-th task has moved to the `i`-th domain that
    /// lacks load, which then lacks less.
    pub open spec fn moved(self, i: int, t: int) -> PushState {
        let load = self.tasks[t].0;
        let task = self.tasks[t].1;
        PushState {
            skip_kworkers: self.skip_kworkers,
            push_max: self.push_max,
            tasks: self.tasks.update(t, (load, TaskInfo { migrated: true, ..task })),
            to_push: self.to_push.minus(load),
            pushed: self.pushed.plus(load),
            pull: load_map::inserted(
                self.pull.remove(i),
                self.pull[i].0.minus(load),
                self.pull[i].1,
            ),
            migrations: self.migrations.push(Migration { pid: task.pid, dom: self.pull[i].1 }),
        }
    }

    /// The state after a task has moved to the domain that lacks most load and
    /// for which there is one; `None` where there is no such domain.
    pub open spec fn next(self) -> Option<PushState> {
        match self.puller(self.pull.len()) {
            Some(i) => Some(self.moved(i, self.victim_for(i)->0)),
            None => None,
        }
    }

    /// The state once nothing more can be moved, the last move did not add to
    /// what was pushed, or enough was pushed.
    pub open spec fn pushed_out(self) -> PushState
        decreases unmigrated(self.tasks),
    {
        match self.next() {
            None => self,
            Some(after) => if after.pushed.same(self.pushed) || self.push_max.at_most(
                after.pushed,
            ) {
                after
            } else {
                proof {
                    law_next_decreases(self);
                }
                after.pushed_out()
            },
        }
    }
}

proof fn lemma_unmigrated_update(tasks: Seq<(Double, TaskInfo)>, t: int, task: TaskInfo)
    requires
        0 <= t < tasks.len(),
        !tasks[t].1.migrated,
        task.migrated,
    ensures
        unmigrated(tasks.update(t, (tasks[t].0, task))) + 1 == unmigrated(tasks),
    decreases tasks.len(),
{
    let after = tasks.update(t, (tasks[t].0, task));
    if t == tasks.len() - 1 {
        assert(after.drop_last() =~= tasks.drop_last());
    } else {
        lemma_unmigrated_update(tasks.drop_last(), t, task);
        assert(after.drop_last() =~= tasks.drop_last().update(t, (tasks[t].0, task)));
    }
}

proof fn lemma_puller(st: PushState, n: nat)
    ensures
        st.puller(n) matches Some(i) ==> 0 <= i < n && st.victim_for(i) is Some,
    decreases n,
{
    if n > 0 {
        lemma_puller(st, (n - 1) as nat);
    }
}

/// Every move leaves fewer tasks that have not been moved, so that pushing ends.
pub proof fn law_next_decreases(st: PushState)
    ensures
        st.next() matches Some(after) ==> unmigrated(after.tasks) < unmigrated(st.tasks),
{
    lemma_puller(st, st.pull.len());
    if let Some(i) = st.puller(st.pull.len()) {
        let t = st.victim_for(i)->0;
        migration::law_victim(st.tasks, st.skip_kworkers, st.to_push, st.pull[i].0, st.pull[i].1);
        let task = st.tasks[t].1;
        lemma_unmigrated_update(st.tasks, t, TaskInfo { migrated: true, ..task });
    }
}

impl<'a> LoadBalancer<'a> {
    /// Takes the domain that has most load too much off the list of those that
    /// are to push. There is nothing left to do where there is none.
    pub fn next_push(&mut self) -> (res: Option<Push>)
        requires
            old(self).wf(),
        ensures
            final(self).wf(),
            final(self).same_but_pushers(*old(self)),
            res is None <==> old(self).doms_to_push@.len() == 0,
            res is None ==> final(self).doms_to_push@ == old(self).doms_to_push@,
            res matches Some(push) ==> {
                &&& final(self).doms_to_push@ == old(self).doms_to_push@.drop_last()
                &&& push.dom == old(self).doms_to_push@.last().1
                &&& push.dom < old(self).top.doms()
                &&& push.to_push == old(self).doms_to_push@.last().0
                &&& forall|i: int|
                    0 <= i < old(self).doms_to_push@.len() ==> (#[trigger] old(
                        self,
                    ).doms_to_push@[i]).0.rank() <= push.to_push.rank()
                &&& push.push_max == old(self).dom_loads@[push.dom as int].times(
                    Double { bits: LOAD_IMBAL_PUSH_MAX_RATIO_BITS },
                )
                &&& old(self).dom_loads@[push.dom as int].finite() ==> push.push_max.finite()
                    && accuracy::gap(
                    2 * push.push_max.value(),
                    old(self).dom_loads@[push.dom as int].value(),
                ) <= 1
                &&& push.needs_tasks <==> old(self).doms_to_pull@.len() > 0 && old(
                    self,
                ).tasks_by_load@[push.dom as int] is None
            },
    {
        let ghost before = self.doms_to_push@;
        match self.doms_to_push.pop_last() {
            None => None,
            Some((to_push, dom)) => {
                assert(before[before.len() - 1].1 < self.top.doms());
                let push_max: Double = self.dom_loads[dom as usize].mul(
                    Double { bits: LOAD_IMBAL_PUSH_MAX_RATIO_BITS },
                );
                proof {
                    if self.dom_loads@[dom as int].finite() {
                        accuracy::law_half(self.dom_loads@[dom as int]);
                    }
                }
                let needs_tasks: bool = self.doms_to_pull.len() > 0
                    && self.tasks_by_load[dom as usize].is_none();
                Some(Push { dom, to_push, push_max, needs_tasks })
            },
        }
    }

    /// Everything but the list of domains that are to push is the same.
    pub open spec fn same_but_pushers(self, other: LoadBalancer<'a>) -> bool {
        &&& self.same_but_loads(LoadBalancer { doms_to_push: self.doms_to_push, ..other })
        &&& self.infeas_threshold == other.infeas_threshold
        &&& self.load_avg == other.load_avg
        &&& self.dom_loads == other.dom_loads
    }

    /// Notes that a task of a domain has been moved, and returns its pid.
    fn mark_migrated(&mut self, dom: u32, t: usize) -> (pid: i32)
        requires
            old(self).wf(),
            dom < old(self).top.doms(),
            old(self).tasks_by_load@[dom as int] is Some,
            t < old(self).tasks(dom as int).len(),
        ensures
            final(self).wf(),
            final(self).same_but_tasks(*old(self), dom as int),
            final(self).doms_to_pull == old(self).doms_to_pull,
            final(self).tasks_by_load@[dom as int] is Some,
            ({
                let tasks = old(self).tasks(dom as int);
                let task = tasks[t as int].1;
                &&& pid == task.pid
                &&& final(self).tasks(dom as int) == tasks.update(
                    t as int,
                    (tasks[t as int].0, TaskInfo { migrated: true, ..task }),
                )
            }),
    {
        match &mut self.tasks_by_load[dom as usize] {
            Some(tasks) => {
                let task: TaskInfo = tasks.entry(t).1;
                tasks.set_value(
                    t,
                    TaskInfo {
                        pid: task.pid,
                        dom_mask: task.dom_mask,
                        migrated: true,
                        is_kworker: task.is_kworker,
                    },
                );
                task.pid
            },
            None => 0,
        }
    }

    /// Where pushing from a domain starts.
    pub open spec fn push_start(self, push: Push) -> PushState {
        PushState {
            skip_kworkers: self.skip_kworkers,
            push_max: push.push_max,
            tasks: self.tasks(push.dom as int),
            to_push: push.to_push,
            pushed: Double::zero(),
            pull: self.doms_to_pull@,
            migrations: Seq::empty(),
        }
    }

    /// Moves tasks from a domain that is to push to the domains that lack load,
    /// each time to the one that lacks most and for which there is a task to
    /// move, and no more than the limit in all. Returns the tasks that are to
    /// move.
    pub fn push_out(&mut self, push: Push) -> (res: Vec<Migration>)
        requires
            old(self).wf(),
            push.dom < old(self).top.doms(),
            old(self).doms_to_pull@.len() > 0 ==> old(self).tasks_by_load@[push.dom as int] is Some,
        ensures
            final(self).wf(),
            final(self).same_but_tasks(*old(self), push.dom as int),
            ({
                let end = old(self).push_start(push).pushed_out();
                &&& res@ == end.migrations
                &&& final(self).doms_to_pull@ == end.pull
                &&& final(self).tasks(push.dom as int) == end.tasks
                &&& final(self).tasks_by_load@[push.dom as int] is Some <==> old(
                    self,
                ).tasks_by_load@[push.dom as int] is Some
            }),
    {
        let ghost start = self.push_start(push);
        let ghost end = start.pushed_out();
        let mut migrations: Vec<Migration> = Vec::new();
        if self.doms_to_pull.len() == 0 {
            assert(start.puller(0) is None);
            assert(migrations@ =~= Seq::empty());
            return migrations;
        }
        let mut pull: LoadMap<u32> = LoadMap::new();
        std::mem::swap(&mut pull, &mut self.doms_to_pull);
        let ghost doms = self.top.doms();
        let mut to_push: Double = push.to_push;
        let mut pushed: Double = Double { bits: 0 };
        let ghost mut st = start;
        assert(migrations@ =~= Seq::empty());
        let mut done: bool = false;
        while !done
            invariant
                self.wf(),
                self.same_but_tasks(*old(self), push.dom as int),
                self.tasks_by_load@[push.dom as int] is Some,
                push.dom < doms,
                doms == self.top.doms(),
                pull.wf(),
                load_balancer::doms_exist(pull@, doms),
                st.skip_kworkers == self.skip_kworkers,
                st.push_max == push.push_max,
                st.tasks == self.tasks(push.dom as int),
                st.to_push == to_push,
                st.pushed == pushed,
                st.pull == pull@,
                st.migrations == migrations@,
                !done ==> end == st.pushed_out(),
                done ==> end == st,
            decreases
                unmigrated(st.tasks),
                if done {
                    0int
                } else {
                    1int
                },
        {
            // Pull to the most imbalanced first.
            let mut n: usize = pull.len();
            let mut found: Option<(usize, Double)> = None;
            while n > 0 && found.is_none()
                invariant
                    self.wf(),
                    self.tasks_by_load@[push.dom as int] is Some,
                    push.dom < doms,
                    doms == self.top.doms(),
                    load_balancer::doms_exist(pull@, doms),
                    st.skip_kworkers == self.skip_kworkers,
                    st.push_max == push.push_max,
                    st.tasks == self.tasks(push.dom as int),
                    st.to_push == to_push,
                    st.pushed == pushed,
                    st.pull == pull@,
                    n <= pull@.len(),
                    match found {
                        Some((t, load)) => {
                            &&& n < pull@.len()
                            &&& st.puller(pull@.len()) == Some(n as int)
                            &&& st.victim_for(n as int) == Some(t as int)
                            &&& load == st.tasks[t as int].0
                        },
                        None => st.puller(pull@.len()) == st.puller(n as nat),
                    },
                decreases n,
            {
                n = n - 1;
                let (to_pull, pull_dom): (Double, u32) = *pull.entry(n);
                assert(pull@[n as int].1 < doms);
                if let Some((t, load)) = self.pick_victim((push.dom, to_push), (pull_dom, to_pull)) {
                    // Don't drain the domain too much.
                    if pushed.add(load).le(push.push_max) {
                        found = Some((t, load));
                    }
                }
            }
            match found {
                None => {
                    done = true;
                },
                Some((t, load)) => {
                    proof {
                        law_next_decreases(st);
                        migration::law_victim(
                            st.tasks,
                            st.skip_kworkers,
                            st.to_push,
                            st.pull[n as int].0,
                            st.pull[n as int].1,
                        );
                    }
                    let last_pushed: Double = pushed;
                    let pid: i32 = self.mark_migrated(push.dom, t);
                    to_push = to_push.sub(load);
                    pushed = pushed.add(load);
                    let (to_pull, pull_dom): (Double, u32) = pull.remove(n);
                    proof {
                        assert(st.pull[n as int].1 < doms);
                        load_balancer::lemma_inserted_doms_exist(
                            pull@,
                            to_pull.minus(load),
                            pull_dom,
                            doms,
                        );
                    }
                    pull.insert(to_pull.sub(load), pull_dom);
                    migrations.push(Migration { pid, dom: pull_dom });
                    proof {
                        st = st.moved(n as int, t as int);
                    }
                    // Stop repeating if nothing got transferred or pushed enough.
                    if pushed.equals(last_pushed) || push.push_max.le(pushed) {
                        done = true;
                    }
                },
            }
        }
        self.doms_to_pull = pull;
        migrations
    }
}

/// A move leaves the same domains on the list of those that lack load.
pub proof fn law_pullers_stay(st: PushState, i: int, t: int, dom: u32)
    requires
        0 <= i < st.pull.len(),
    ensures
        load_balancer::names(st.moved(i, t).pull, dom) <==> load_balancer::names(st.pull, dom),
{
    let rest = st.pull.remove(i);
    let lack = st.pull[i].0.minus(st.tasks[t].0);
    load_balancer::lemma_inserted_names(rest, lack, st.pull[i].1, dom);
    if load_balancer::names(rest, dom) {
        let k = choose|k: int| 0 <= k < rest.len() && (#[trigger] rest[k]).1 == dom;
        if k < i {
            assert(st.pull[k].1 == dom);
        } else {
            assert(st.pull[k + 1].1 == dom);
        }
    }
    if load_balancer::names(st.pull, dom) && dom != st.pull[i].1 {
        let k = choose|k: int| 0 <= k < st.pull.len() && (#[trigger] st.pull[k]).1 == dom;
        if k < i {
            assert(rest[k].1 == dom);
        } else {
            assert(rest[k - 1].1 == dom);
        }
    }
}

/// A load and those of the tasks at the places `ts`, added up in that order.
pub open spec fn added(base: Double, tasks: Seq<(Double, TaskInfo)>, ts: Seq<int>) -> Double
    decreases ts.len(),
{
    if ts.len() == 0 {
        base
    } else {
        added(base, tasks, ts.drop_last()).plus(tasks[ts.last()].0)
    }
}

proof fn lemma_added_first(
    base: Double,
    tasks: Seq<(Double, TaskInfo)>,
    after: Seq<(Double, TaskInfo)>,
    t: int,
    rest: Seq<int>,
)
    requires
        forall|k: int| 0 <= k < rest.len() ==> after[#[trigger] rest[k]].0 == tasks[rest[k]].0,
    ensures
        added(base.plus(tasks[t].0), after, rest) == added(base, tasks, seq![t] + rest),
    decreases rest.len(),
{
    let ts = seq![t] + rest;
    if rest.len() == 0 {
        assert(ts =~= seq![t]);
        assert(ts.drop_last() =~= Seq::empty());
        assert(added(base, tasks, ts.drop_last()) == base);
    } else {
        assert(ts.drop_last() =~= seq![t] + rest.drop_last());
        assert(forall|k: int| 0 <= k < rest.len() - 1 ==> rest.drop_last()[k] == rest[k]);
        assert forall|k: int| 0 <= k < rest.drop_last().len() implies after[#[trigger] rest.drop_last()[k]].0
            == tasks[rest.drop_last()[k]].0 by {
            assert(rest.drop_last()[k] == rest[k]);
        }
        lemma_added_first(base, tasks, after, t, rest.drop_last());
        assert(ts.last() == rest.last() && rest.last() == rest[rest.len() - 1]);
    }
}

/// `ts` are the places of the tasks that were moved between two states: no
/// place twice, each task one that could move to the domain that it was moved
/// to, which lacked load, no other task touched, and their load what was pushed.
pub open spec fn moves(start: PushState, end: PushState, ts: Seq<int>) -> bool {
    let before = start.migrations.len();
    &&& end.migrations.len() == before + ts.len()
    &&& end.migrations.take(before as int) == start.migrations
    &&& ts.no_duplicates()
    &&& end.tasks.len() == start.tasks.len()
    &&& end.pushed == added(start.pushed, start.tasks, ts)
    &&& forall|k: int|
        0 <= k < ts.len() ==> {
            &&& 0 <= #[trigger] ts[k] < start.tasks.len()
            &&& end.migrations[before + k].pid == start.tasks[ts[k]].1.pid
            &&& migration::migratable(
                start.tasks[ts[k]].1,
                end.migrations[before + k].dom,
                start.skip_kworkers,
            )
            &&& load_balancer::names(start.pull, end.migrations[before + k].dom)
        }
    &&& forall|t: int|
        0 <= t < start.tasks.len() ==> #[trigger] end.tasks[t] == (if ts.contains(t) {
            (start.tasks[t].0, TaskInfo { migrated: true, ..start.tasks[t].1 })
        } else {
            start.tasks[t]
        })
}

/// Pushing moves a task at most once, only to a domain that lacks load and that
/// the task may run in, leaves kworkers alone where they are to be, and leaves
/// the tasks that it does not move as they are.
pub proof fn law_moves(start: PushState) -> (ts: Seq<int>)
    ensures
        moves(start, start.pushed_out(), ts),
    decreases unmigrated(start.tasks),
{
    match start.next() {
        None => {
            let ts = Seq::<int>::empty();
            assert(start.migrations.take(start.migrations.len() as int) =~= start.migrations);
            ts
        },
        Some(after) => {
            lemma_puller(start, start.pull.len());
            let i = start.puller(start.pull.len())->0;
            let t = start.victim_for(i)->0;
            migration::law_victim(
                start.tasks,
                start.skip_kworkers,
                start.to_push,
                start.pull[i].0,
                start.pull[i].1,
            );
            let end = start.pushed_out();
            let rest = if after.pushed.same(start.pushed) || start.push_max.at_most(after.pushed) {
                assert(after.migrations.take(after.migrations.len() as int) =~= after.migrations);
                Seq::<int>::empty()
            } else {
                law_next_decreases(start);
                law_moves(after)
            };
            lemma_moves_compose(start, i, t, end, rest);
            seq![t] + rest
        },
    }
}

proof fn lemma_moves_compose(start: PushState, i: int, t: int, end: PushState, rest: Seq<int>)
    requires
        0 <= i < start.pull.len(),
        0 <= t < start.tasks.len(),
        migration::migratable(start.tasks[t].1, start.pull[i].1, start.skip_kworkers),
        moves(start.moved(i, t), end, rest),
    ensures
        moves(start, end, seq![t] + rest),
{
    let after = start.moved(i, t);
    let ts = seq![t] + rest;
    let n = start.migrations.len();
    let skip = start.skip_kworkers;
    assert(after.migrations.take(n as int) =~= start.migrations);
    assert(end.migrations.take(n as int) =~= end.migrations.take((n + 1) as int).take(n as int));
    assert(end.migrations[n as int] == after.migrations[n as int]) by {
        assert(end.migrations.take((n + 1) as int)[n as int] == after.migrations[n as int]);
    }
    assert(!rest.contains(t)) by {
        if rest.contains(t) {
            let k = choose|k: int| 0 <= k < rest.len() && rest[k] == t;
            assert(after.tasks[t].1.migrated);
            assert(migration::migratable(
                after.tasks[rest[k]].1,
                end.migrations[n + 1 + k].dom,
                skip,
            ));
        }
    }
    assert(ts.no_duplicates());
    lemma_added_first(start.pushed, start.tasks, after.tasks, t, rest);
    assert forall|k: int| 0 <= k < ts.len() implies {
        &&& 0 <= #[trigger] ts[k] < start.tasks.len()
        &&& end.migrations[n + k].pid == start.tasks[ts[k]].1.pid
        &&& migration::migratable(start.tasks[ts[k]].1, end.migrations[n + k].dom, skip)
        &&& load_balancer::names(start.pull, end.migrations[n + k].dom)
    } by {
        if k == 0 {
            assert(load_balancer::names(start.pull, start.pull[i].1));
        } else {
            let j = k - 1;
            assert(ts[k] == rest[j]);
            assert(rest.contains(rest[j]));
            assert(after.tasks[rest[j]] == start.tasks[rest[j]]);
            let dom = end.migrations[n + 1 + j].dom;
            assert(load_balancer::names(after.pull, dom));
            law_pullers_stay(start, i, t, dom);
        }
    }
    assert forall|x: int| 0 <= x < start.tasks.len() implies #[trigger] end.tasks[x] == (
    if ts.contains(x) {
        (start.tasks[x].0, TaskInfo { migrated: true, ..start.tasks[x].1 })
    } else {
        start.tasks[x]
    }) by {
        if x == t {
            assert(ts[0] == t);
            assert(ts.contains(t));
        } else if rest.contains(x) {
            let k = choose|k: int| 0 <= k < rest.len() && rest[k] == x;
            assert(ts[k + 1] == x);
            assert(after.tasks[x] == start.tasks[x]);
        } else {
            assert(!ts.contains(x)) by {
                if ts.contains(x) {
                    let k = choose|k: int| 0 <= k < ts.len() && ts[k] == x;
                    assert(rest[k - 1] == x);
                }
            }
            assert(after.tasks[x] == start.tasks[x]);
        }
    }
}

/// No more load than the limit is pushed out.
pub proof fn law_push_limit(start: PushState)
    ensures
        start.pushed.at_most(start.push_max) ==> start.pushed_out().pushed.at_most(start.push_max),
        start.next() is Some ==> start.pushed_out().pushed.at_most(start.push_max),
    decreases unmigrated(start.tasks),
{
    if let Some(after) = start.next() {
        lemma_puller(start, start.pull.len());
        if !(after.pushed.same(start.pushed) || start.push_max.at_most(after.pushed)) {
            law_next_decreases(start);
            law_push_limit(after);
        }
    }
}

/// There is no task to move to the `i`-th domain that lacks load: none is picked
/// for it, or the one that is picked would push out more than the limit.
pub open spec fn nothing_for(st: PushState, i: int) -> bool {
    migration::victim(st.tasks, st.skip_kworkers, st.to_push, st.pull[i].0, st.pull[i].1) matches Some(
        t,
    ) ==> !st.pushed.plus(st.tasks[t].0).at_most(st.push_max)
}

proof fn lemma_no_puller(st: PushState, n: nat, i: int)
    requires
        0 <= i < n,
        st.puller(n) matches Some(k) ==> k < i,
    ensures
        nothing_for(st, i),
    decreases n,
{
    if i < n - 1 {
        lemma_puller(st, n);
        lemma_no_puller(st, (n - 1) as nat, i);
    }
}

/// Pushing does not stop early: once it has ended there is no task left to move
/// to any domain that lacks load, or the limit is reached, or the last move did
/// not add to what was pushed.
pub proof fn law_pushing_is_complete(start: PushState) -> (ts: Seq<int>)
    ensures
        moves(start, start.pushed_out(), ts),
        start.pushed_out().skip_kworkers == start.skip_kworkers,
        start.pushed_out().push_max == start.push_max,
        ({
            let end = start.pushed_out();
            ||| forall|i: int| 0 <= i < end.pull.len() ==> #[trigger] nothing_for(end, i)
            ||| start.push_max.at_most(end.pushed)
            ||| ts.len() > 0 && added(start.pushed, start.tasks, ts.drop_last()).same(end.pushed)
        }),
    decreases unmigrated(start.tasks),
{
    let end = start.pushed_out();
    match start.next() {
        None => {
            let ts = law_moves(start);
            assert forall|i: int| 0 <= i < end.pull.len() implies #[trigger] nothing_for(end, i) by {
                lemma_no_puller(start, start.pull.len(), i);
            }
            ts
        },
        Some(after) => {
            lemma_puller(start, start.pull.len());
            let i = start.puller(start.pull.len())->0;
            let t = start.victim_for(i)->0;
            migration::law_victim(
                start.tasks,
                start.skip_kworkers,
                start.to_push,
                start.pull[i].0,
                start.pull[i].1,
            );
            if after.pushed.same(start.pushed) || start.push_max.at_most(after.pushed) {
                let rest = Seq::<int>::empty();
                assert(after.migrations.take(after.migrations.len() as int) =~= after.migrations);
                lemma_moves_compose(start, i, t, end, rest);
                let ts = seq![t] + rest;
                assert(ts =~= seq![t]);
                assert(ts.drop_last() =~= Seq::empty());
                assert(added(start.pushed, start.tasks, ts.drop_last()) == start.pushed);
                double::lemma_same_symmetric(after.pushed, start.pushed);
                ts
            } else {
                law_next_decreases(start);
                let rest = law_pushing_is_complete(after);
                lemma_moves_compose(start, i, t, end, rest);
                let ts = seq![t] + rest;
                if rest.len() > 0 {
                    let front = rest.drop_last();
                    assert(ts.drop_last() =~= seq![t] + front);
                    assert forall|k: int| 0 <= k < front.len() implies after.tasks[#[trigger] front[k]].0
                        == start.tasks[front[k]].0 by {
                        assert(front[k] == rest[k]);
                    }
                    lemma_added_first(start.pushed, start.tasks, after.tasks, t, front);
                }
                ts
            }
        },
    }
}

/// A sum that is at most a number in exact terms is at most that number.
proof fn lemma_sum_at_most(x: Double, y: Double, z: Double)
    requires
        x.finite(),
        y.finite(),
        z.finite(),
        x.value() >= 0,
        y.value() >= 0,
        x.value() + y.value() <= z.value(),
    ensures
        x.plus(y).finite(),
        x.plus(y).at_most(z),
{
    reveal(Double::plus);
    double::lemma_parts(x);
    double::lemma_parts(y);
    double::lemma_parts(z);
    double::lemma_round_exact(z);
    let s = (x.value() + y.value()) as nat;
    assert(s * 1 == s && z.mag() * 1 == z.mag());
    rounding::law_round_monotone(s, 1, z.mag(), 1);
}

/// Every task has a load in range that counts beside the limit.
pub open spec fn all_count(st: PushState) -> bool {
    forall|t: int|
        0 <= t < st.tasks.len() ==> {
            &&& migration::moderate((#[trigger] st.tasks[t]).0)
            &&& st.tasks[t].0.value() > 0
            &&& st.tasks[t].0.value() * 0x4_0000_0000_0000 >= st.push_max.value()
        }
}

/// No load is left with a domain that another one could have taken: once pushing
/// has ended, no task that may move to a domain that lacks load has a load between
/// nothing and the lesser of what the two are off by, where that much is left up to
/// the limit.
pub proof fn law_nothing_is_left(start: PushState, i: int, t: int)
    requires
        load_map::ascending(start.tasks),
        all_count(start),
        start.pushed.finite(),
        start.pushed.value() >= 0,
        start.push_max.finite(),
        0 <= i < start.pushed_out().pull.len(),
        0 <= t < start.pushed_out().tasks.len(),
        migration::moderate(start.pushed_out().to_push),
        migration::moderate(start.pushed_out().pull[i].0),
    ensures
        ({
            let end = start.pushed_out();
            let (load, task) = end.tasks[t];
            let (lack, dom) = end.pull[i];
            let may_move = !task.migrated && task.dom_mask & (1u64 << dom) != 0 && !(
            start.skip_kworkers && task.is_kworker);
            let room = start.push_max.value() - end.pushed.value();
            !(may_move && migration::fits_between(end.to_push, lack, load) && (end.to_push.value()
                <= room || lack.value() <= room))
        }),
    decreases unmigrated(start.tasks),
{
    let end = start.pushed_out();
    match start.next() {
        None => {
            lemma_no_puller(start, start.pull.len(), i);
            lemma_nothing_left_at_end(start, i, t);
        },
        Some(after) => {
            lemma_puller(start, start.pull.len());
            let k = start.puller(start.pull.len())->0;
            let v = start.victim_for(k)->0;
            migration::law_victim(
                start.tasks,
                start.skip_kworkers,
                start.to_push,
                start.pull[k].0,
                start.pull[k].1,
            );
            let c = start.tasks[v].0;
            assert(migration::moderate(c));
            lemma_pushed_stays_in_range(start.pushed, c, start.push_max);
            if after.pushed.same(start.pushed) {
                accuracy::law_order(after.pushed, start.pushed);
            } else if start.push_max.at_most(after.pushed) {
                accuracy::law_order(start.push_max, after.pushed);
            } else {
                law_next_decreases(start);
                assert forall|x: int| 0 <= x < after.tasks.len() implies {
                    &&& migration::moderate((#[trigger] after.tasks[x]).0)
                    &&& after.tasks[x].0.value() > 0
                    &&& after.tasks[x].0.value() * 0x4_0000_0000_0000 >= after.push_max.value()
                } by {
                    assert(migration::moderate(start.tasks[x].0));
                }
                assert forall|x: int, y: int|
                    0 <= x < y < after.tasks.len() implies load_map::precedes(
                    #[trigger] after.tasks[x],
                    #[trigger] after.tasks[y],
                ) by {
                    assert(load_map::precedes(start.tasks[x], start.tasks[y]));
                }
                law_nothing_is_left(after, i, t);
            }
        },
    }
}

/// A move that is within the limit keeps the pushed load in range, and adds to
/// it where the load counts beside the limit.
proof fn lemma_pushed_stays_in_range(pushed: Double, load: Double, push_max: Double)
    requires
        pushed.finite(),
        pushed.value() >= 0,
        push_max.finite(),
        load.finite(),
        load.value() > 0,
        load.value() * 0x4_0000_0000_0000 >= push_max.value(),
        pushed.plus(load).at_most(push_max),
    ensures
        pushed.plus(load).finite(),
        pushed.plus(load).value() >= 0,
        pushed.plus(load).value() != pushed.value(),
{
    let r = pushed.plus(load);
    double::lemma_parts(push_max);
    double::lemma_parts(pushed);
    double::lemma_parts(load);
    double::lemma_unsigned_sum(pushed, load);
    assert(r.finite());
    accuracy::law_plus(pushed, load);
    accuracy::law_order(r, push_max);
}

proof fn lemma_nothing_left_at_end(end: PushState, i: int, t: int)
    requires
        load_map::ascending(end.tasks),
        all_count(end),
        end.pushed.finite(),
        end.pushed.value() >= 0,
        end.push_max.finite(),
        0 <= i < end.pull.len(),
        0 <= t < end.tasks.len(),
        migration::moderate(end.to_push),
        migration::moderate(end.pull[i].0),
        nothing_for(end, i),
    ensures
        ({
            let (load, task) = end.tasks[t];
            let (lack, dom) = end.pull[i];
            let may_move = !task.migrated && task.dom_mask & (1u64 << dom) != 0 && !(
            end.skip_kworkers && task.is_kworker);
            let room = end.push_max.value() - end.pushed.value();
            !(may_move && migration::fits_between(end.to_push, lack, load) && (end.to_push.value()
                <= room || lack.value() <= room))
        }),
{
    let (load, task) = end.tasks[t];
    let (lack, dom) = end.pull[i];
    let may_move = !task.migrated && task.dom_mask & (1u64 << dom) != 0 && !(end.skip_kworkers
        && task.is_kworker);
    let room = end.push_max.value() - end.pushed.value();
    if may_move && migration::fits_between(end.to_push, lack, load) && (end.to_push.value() <= room
        || lack.value() <= room) {
        assert forall|x: int| 0 <= x < end.tasks.len() implies migration::moderate(
            (#[trigger] end.tasks[x]).0,
        ) by {
        }
        migration::law_victim_is_found(end.tasks, end.skip_kworkers, end.to_push, lack, dom, t);
        migration::law_victim(end.tasks, end.skip_kworkers, end.to_push, lack, dom);
        let v = migration::victim(end.tasks, end.skip_kworkers, end.to_push, lack, dom)->0;
        assert(migration::moderate(end.tasks[v].0));
        lemma_sum_at_most(end.pushed, end.tasks[v].0, end.push_max);
    }
}

/// Pushing starts with nothing pushed and nobody moved, with what the domain has
/// too much and its limit, with the tasks that were read for it, none where that
/// has not been done, and with the domains that lack load.
pub proof fn law_push_start(lb: LoadBalancer, push: Push)
    ensures
        ({
            let start = lb.push_start(push);
            &&& start.skip_kworkers == lb.skip_kworkers
            &&& start.push_max == push.push_max
            &&& start.to_push == push.to_push
            &&& start.pushed.finite() && start.pushed.value() == 0
            &&& start.migrations.len() == 0
            &&& start.pull == lb.doms_to_pull@
            &&& lb.tasks_by_load@[push.dom as int] matches Some(tasks) ==> start.tasks == tasks@
            &&& lb.tasks_by_load@[push.dom as int] is None ==> start.tasks.len() == 0
        }),
{
    double::lemma_parts(Double::zero());
}

/// Taking a domain off the list of those that are to push leaves the loads, the
/// tasks, the imbalances, the settings and the domains that lack load alone.
pub proof fn law_same_but_pushers(a: LoadBalancer, b: LoadBalancer)
    requires
        a.same_but_pushers(b),
    ensures
        a.top == b.top && a.skip_kworkers == b.skip_kworkers && a.lb_apply_weight
            == b.lb_apply_weight,
        a.infeas_threshold == b.infeas_threshold && a.load_avg == b.load_avg && a.dom_loads
            == b.dom_loads && a.imbal == b.imbal,
        a.tasks_by_load == b.tasks_by_load && a.doms_to_pull == b.doms_to_pull,
{
}

/// The state after `n` moves.
pub open spec fn after_moves(st: PushState, n: nat) -> Option<PushState>
    decreases n,
{
    if n == 0 {
        Some(st)
    } else {
        match st.next() {
            Some(after) => after_moves(after, (n - 1) as nat),
            None => None,
        }
    }
}

/// Pushing is made of single moves and of nothing else, and goes on only as long
/// as the limit is not reached and each move adds to what was pushed.
pub proof fn law_pushing_is_moves(start: PushState) -> (n: nat)
    ensures
        after_moves(start, n) == Some(start.pushed_out()),
        forall|k: nat|
            0 < k < n ==> {
                let now = #[trigger] after_moves(start, k);
                &&& now is Some
                &&& !start.push_max.at_most(now->0.pushed)
                &&& !now->0.pushed.same(after_moves(start, (k - 1) as nat)->0.pushed)
            },
    decreases unmigrated(start.tasks),
{
    match start.next() {
        None => 0,
        Some(after) => if after.pushed.same(start.pushed) || start.push_max.at_most(after.pushed) {
            assert(after_moves(after, 0) == Some(after));
            1
        } else {
            law_next_decreases(start);
            let n = law_pushing_is_moves(after);
            assert(after_moves(start, n + 1) == after_moves(after, n));
            assert(after_moves(start, 0) == Some(start) && after_moves(after, 0) == Some(after));
            assert forall|k: nat| 0 < k < n + 1 implies ({
                let now = #[trigger] after_moves(start, k);
                &&& now is Some
                &&& !start.push_max.at_most(now->0.pushed)
                &&& !now->0.pushed.same(after_moves(start, (k - 1) as nat)->0.pushed)
            }) by {
                assert(after_moves(start, k) == after_moves(after, (k - 1) as nat));
                if k > 1 {
                    assert(after_moves(start, (k - 1) as nat) == after_moves(after, (k - 2) as nat));
                }
            }
            n + 1
        },
    }
}

/// There is a move to make just where there is a task to move to some domain that
/// lacks load.
pub proof fn law_next_move(st: PushState)
    ensures
        st.next() is None <==> forall|i: int|
            0 <= i < st.pull.len() ==> #[trigger] nothing_for(st, i),
{
    lemma_puller(st, st.pull.len());
    if st.next() is None {
        assert forall|i: int| 0 <= i < st.pull.len() implies #[trigger] nothing_for(st, i) by {
            lemma_no_puller(st, st.pull.len(), i);
        }
    } else {
        assert(!nothing_for(st, st.puller(st.pull.len())->0));
    }
}

/// No domain is listed twice.
pub open spec fn distinct_doms(pull: Seq<(Double, u32)>) -> bool {
    forall|i: int, j: int|
        0 <= i < j < pull.len() ==> (#[trigger] pull[i]).1 != (#[trigger] pull[j]).1
}

/// A single move, of the `t`-th task to the `i`-th domain that lacks load: the
/// task is the one that is picked for the domain, there is none for a domain that
/// lacks more, what is pushed grows by the load of the task, what the domain has
/// too much and what the other one lacks shrink by it, and the other domains lack
/// what they lacked before.
pub proof fn law_move(st: PushState) -> (at: (int, int))
    requires
        distinct_doms(st.pull),
        st.next() is Some,
    ensures
        ({
            let (i, t) = at;
            let after = st.next()->0;
            let (load, task) = st.tasks[t];
            let (lack, dom) = st.pull[i];
            &&& 0 <= i < st.pull.len()
            &&& 0 <= t < st.tasks.len()
            &&& migration::victim(st.tasks, st.skip_kworkers, st.to_push, lack, dom) == Some(t)
            &&& forall|k: int| i < k < st.pull.len() ==> #[trigger] nothing_for(st, k)
            &&& after.migrations == st.migrations.push((Migration { pid: task.pid, dom }))
            &&& after.tasks == st.tasks.update(t, (load, TaskInfo { migrated: true, ..task }))
            &&& after.pushed.at_most(st.push_max)
            &&& after.push_max == st.push_max
            &&& after.skip_kworkers == st.skip_kworkers
            &&& st.pushed.finite() && load.finite() && after.pushed.finite() ==> accuracy::gap(
                after.pushed.value(),
                st.pushed.value() + load.value(),
            ) * 0x20_0000_0000_0000 <= accuracy::gap(st.pushed.value() + load.value(), 0)
            &&& st.to_push.finite() && load.finite() && after.to_push.finite() ==> accuracy::gap(
                after.to_push.value(),
                st.to_push.value() - load.value(),
            ) * 0x20_0000_0000_0000 <= accuracy::gap(st.to_push.value(), load.value())
            &&& after.pull.len() == st.pull.len()
            &&& distinct_doms(after.pull)
            &&& exists|k: int|
                0 <= k < after.pull.len() && (#[trigger] after.pull[k]).1 == dom && (lack.finite()
                    && load.finite() && after.pull[k].0.finite() ==> accuracy::gap(
                    after.pull[k].0.value(),
                    lack.value() - load.value(),
                ) * 0x20_0000_0000_0000 <= accuracy::gap(lack.value(), load.value()))
            &&& forall|k: int|
                0 <= k < st.pull.len() && k != i ==> after.pull.contains(#[trigger] st.pull[k])
        }),
{
    lemma_puller(st, st.pull.len());
    let i = st.puller(st.pull.len())->0;
    let t = st.victim_for(i)->0;
    let after = st.next()->0;
    let (load, task) = st.tasks[t];
    let (lack, dom) = st.pull[i];
    migration::law_victim(st.tasks, st.skip_kworkers, st.to_push, lack, dom);
    assert forall|k: int| i < k < st.pull.len() implies #[trigger] nothing_for(st, k) by {
        lemma_no_puller(st, st.pull.len(), k);
    }
    if st.pushed.finite() && load.finite() {
        accuracy::law_plus(st.pushed, load);
    }
    if st.to_push.finite() && load.finite() {
        accuracy::law_minus(st.to_push, load);
    }
    if lack.finite() && load.finite() {
        accuracy::law_minus(lack, load);
    }
    let rest = st.pull.remove(i);
    let left = lack.minus(load);
    assert forall|k: int| 0 <= k < rest.len() implies (#[trigger] rest[k]).1 != dom by {
        if k < i {
            assert(rest[k] == st.pull[k]);
            assert(st.pull[k].1 != st.pull[i].1);
        } else {
            assert(rest[k] == st.pull[k + 1]);
            assert(st.pull[i].1 != st.pull[k + 1].1);
        }
    }
    load_map::law_insert_adds(rest, left, dom);
    let w = choose|k: int| 0 <= k < after.pull.len() && after.pull[k] == (left, dom);
    assert(after.pull[w].1 == dom);
    assert forall|k: int| 0 <= k < st.pull.len() && k != i implies after.pull.contains(
        #[trigger] st.pull[k],
    ) by {
        let j = if k < i {
            k
        } else {
            k - 1
        };
        assert(rest[j] == st.pull[k]);
        assert(rest[j].1 != dom);
        load_map::law_insert_keeps_others(rest, left, dom, st.pull[k]);
    }
    assert forall|x: int, y: int| 0 <= x < y < rest.len() implies (#[trigger] rest[x]).1 != (
    #[trigger] rest[y]).1 by {
        let (a, b) = (
            if x < i {
                x
            } else {
                x + 1
            },
            if y < i {
                y
            } else {
                y + 1
            },
        );
        assert(rest[x] == st.pull[a] && rest[y] == st.pull[b]);
        assert(st.pull[a].1 != st.pull[b].1);
    }
    lemma_distinct_after(rest, left, dom);
    (i, t)
}

proof fn lemma_distinct_after(s: Seq<(Double, u32)>, load: Double, dom: u32)
    requires
        distinct_doms(s),
        forall|k: int| 0 <= k < s.len() ==> (#[trigger] s[k]).1 != dom,
    ensures
        distinct_doms(load_map::inserted(s, load, dom)),
    decreases s.len(),
{
    let r = load_map::inserted(s, load, dom);
    if s.len() > 0 && !load_map::precedes(s.last(), (load, dom)) {
        let d = s.drop_last();
        let q = load_map::inserted(d, load, dom);
        assert(s[s.len() - 1].1 != dom);
        assert forall|k: int| 0 <= k < d.len() implies (#[trigger] d[k]).1 != dom by {
            assert(d[k] == s[k]);
        }
        assert forall|i: int, j: int| 0 <= i < j < d.len() implies (#[trigger] d[i]).1 != (
        #[trigger] d[j]).1 by {
            assert(s[i].1 != s[j].1);
        }
        lemma_distinct_after(d, load, dom);
        assert forall|i: int, j: int| 0 <= i < j < r.len() implies (#[trigger] r[i]).1 != (
        #[trigger] r[j]).1 by {
            if j == r.len() - 1 {
                load_map::lemma_inserted_from(d, load, dom, i);
                if d.contains(q[i]) {
                    let k = choose|k: int| 0 <= k < d.len() && d[k] == q[i];
                    assert(s[k].1 != s[s.len() - 1].1);
                }
            } else {
                assert(q[i].1 != q[j].1);
            }
        }
    } else if s.len() > 0 {
        assert forall|i: int, j: int| 0 <= i < j < r.len() implies (#[trigger] r[i]).1 != (
        #[trigger] r[j]).1 by {
            assert(r[i] == s[i]);
            if j < s.len() {
                assert(s[i].1 != s[j].1);
            }
        }
    }
}

/// A task moves to the domain that lacks most load: for none that comes behind
/// it in the order of what they lack there is a task to move.
pub proof fn law_most_imbalanced_first(st: PushState, n: nat, other: int)
    requires
        st.puller(n) is Some,
        n <= st.pull.len(),
        st.puller(n)->0 < other < n,
    ensures
        st.victim_for(other) is None,
    decreases n,
{
    lemma_puller(st, n);
    if st.victim_for(n - 1) is None && other < n - 1 {
        law_most_imbalanced_first(st, (n - 1) as nat, other);
    }
}

} // verus!
