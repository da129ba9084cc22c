//! Which tasks move from an overloaded domain to domains that lack load.
use vstd::prelude::*;
use crate::accuracy;
use crate::double;
use crate::double::Double;
use crate::load_balancer::{LoadBalancer, TaskInfo};
use crate::load_map;
use crate::load_map::LoadMap;
use crate::pow2;

verus! {

/// The number of recently active tasks that the kernel side remembers for a
/// domain.
pub const MAX_DOM_ACTIVE_PIDS: u64 = 1024;

/// The bits of 0.5. Aim to transfer this fraction of the imbalance at a time.
/// We want to be gradual to avoid unnecessary oscillations. While this can
/// delay convergence, greedy execution should be able to bridge the temporary
/// gap.
pub const LOAD_IMBAL_XFER_TARGET_RATIO_BITS: u64 = 0x3fe0_0000_0000_0000;

/// The bits of 0.5. Don't push out more than this fraction of the load of a
/// domain on each round. While this overlaps with the target above, the target
/// doesn't limit the total load. As long as the transfer reduces load imbalance
/// between the two involved domains, whatever amount that can be transferred
/// would be. This limit is the safety cap to avoid draining a given domain too
/// much in a single round.
pub const LOAD_IMBAL_PUSH_MAX_RATIO_BITS: u64 = 0x3fe0_0000_0000_0000;

/// What the kernel side knows about a recently active task.
#[derive(Clone, Copy, Debug)]
pub struct TaskSample {
    pub pid: i32,
    pub dom_id: u32,
    pub weight: u32,
    pub dcycle: Double,
    pub dom_mask: u64,
    pub is_kworker: bool,
}

/// A task that is to move to another domain.
#[derive(Clone, Copy, Debug, PartialEq, Eq, Structural)]
pub struct Migration {
    pub pid: i32,
    pub dom: u32,
}

/// The position from which the recently active tasks are still known.
pub open spec fn first_known(read_idx: u64, write_idx: u64) -> int {
    if write_idx - read_idx > MAX_DOM_ACTIVE_PIDS {
        write_idx - MAX_DOM_ACTIVE_PIDS
    } else {
        read_idx as int
    }
}

/// The pids that were written to a ring since it was last read and are still
/// known, the oldest first.
pub open spec fn active_pids(pids: Seq<i32>, read_idx: u64, write_idx: u64) -> Seq<i32> {
    Seq::new(
        (write_idx - first_known(read_idx, write_idx)) as nat,
        |i: int| pids[(first_known(read_idx, write_idx) + i) % MAX_DOM_ACTIVE_PIDS as int],
    )
}

/// Takes the pids that were written to a ring since it was last read, the
/// oldest first. Of those that were overwritten meanwhile only the newest are
/// left.
pub fn drain_active_pids(pids: &[i32], read_idx: &mut u64, write_idx: u64, gen: &mut u64) -> (res:
    Vec<i32>)
    requires
        pids@.len() == MAX_DOM_ACTIVE_PIDS,
        *old(read_idx) <= write_idx,
        *old(gen) < u64::MAX,
    ensures
        res@ == active_pids(pids@, *old(read_idx), write_idx),
        *final(read_idx) == write_idx,
        *final(gen) == *old(gen) + 1,
{
    let mut ridx: u64 = *read_idx;
    if write_idx - ridx > MAX_DOM_ACTIVE_PIDS {
        ridx = write_idx - MAX_DOM_ACTIVE_PIDS;
    }
    let ghost first = first_known(*old(read_idx), write_idx);
    let mut res: Vec<i32> = Vec::new();
    let mut idx: u64 = ridx;
    while idx < write_idx
        invariant
            pids@.len() == MAX_DOM_ACTIVE_PIDS,
            first == ridx,
            ridx <= idx <= write_idx,
            res@.len() == idx - first,
            forall|i: int|
                0 <= i < res@.len() ==> #[trigger] res@[i] == pids@[(first + i)
                    % MAX_DOM_ACTIVE_PIDS as int],
        decreases write_idx - idx,
    {
        res.push(pids[(idx % MAX_DOM_ACTIVE_PIDS) as usize]);
        idx = idx + 1;
    }
    *read_idx = write_idx;
    *gen = *gen + 1;
    assert(res@ =~= active_pids(pids@, *old(read_idx), write_idx));
    res
}

/// The tasks that are looked at are those that were written to the ring last, as
/// many as were written since the last read and no more than the ring holds, in
/// the order in which they were written.
pub proof fn law_active_pids(pids: Seq<i32>, read_idx: u64, write_idx: u64)
    requires
        read_idx <= write_idx,
    ensures
        active_pids(pids, read_idx, write_idx).len() == (if write_idx - read_idx <= 1024 {
            write_idx - read_idx
        } else {
            1024
        }),
        forall|ago: int|
            1 <= ago <= active_pids(pids, read_idx, write_idx).len() ==> (#[trigger] active_pids(
                pids,
                read_idx,
                write_idx,
            )[active_pids(pids, read_idx, write_idx).len() - ago]) == pids[(write_idx - ago)
                % 1024],
{
}

/// The load of a task: its duty cycle by its weight, up to the threshold.
pub open spec fn task_load(sample: TaskSample, threshold: Double) -> Double {
    Double::of_nat(sample.weight as nat).lesser(threshold).times(sample.dcycle)
}

/// The load of a task is its duty cycle by the lesser of its weight and the
/// threshold, up to a part in `2^53`, or half a unit where that is more.
pub proof fn law_task_load(sample: TaskSample, threshold: Double)
    requires
        accuracy::small(sample.dcycle),
        accuracy::small(threshold),
    ensures
        ({
            let u = accuracy::unit();
            let weight = sample.weight * u;
            let least = if weight <= threshold.value() {
                weight
            } else {
                threshold.value()
            };
            let x = sample.dcycle.value() * least;
            &&& task_load(sample, threshold).finite()
            &&& task_load(sample, threshold).value() >= 0
            &&& accuracy::gap(task_load(sample, threshold).value() * u, x) * 0x20_0000_0000_0000 <= x
                + 0x10_0000_0000_0000 * u
        }),
{
    let u = accuracy::unit() as int;
    let w = Double::of_nat(sample.weight as nat);
    double::lemma_of_nat_exact(sample.weight as nat);
    accuracy::law_order(w, threshold);
    let least = w.lesser(threshold);
    let d = sample.dcycle;
    double::lemma_parts(least);
    double::lemma_parts(d);
    accuracy::lemma_small_range();
    pow2::lemma_pow2_pos(1074);
    pow2::lemma_pow2_pos(2000);
    let (m, v) = (least.mag() as int, d.mag() as int);
    let top = pow2::pow2(2000) as int;
    let big = pow2::pow2(2097) as int;
    let n = sample.weight as int;
    assert(0 <= m * v <= (n * top) * u) by (nonlinear_arith)
        requires
            0 <= m <= n * u,
            0 <= v <= top,
            u >= 0,
            n >= 0,
    ;
    assert((n * top) * u < u * big) by (nonlinear_arith)
        requires
            0 <= n <= 0xffff_ffff,
            0x1_0000_0000 * top <= big,
            top >= 1,
            u >= 1,
    ;
    assert(m * v == v * m) by (nonlinear_arith);
    accuracy::law_times(least, d);
    let r = least.times(d);
    double::lemma_parts(r);
    let t = r.mag() as int;
    if m * v == 0 {
        assert(t == 0) by (nonlinear_arith)
            requires
                t >= 0,
                u >= 1,
                accuracy::gap(t * u, 0) * 0x20_0000_0000_0000 <= 0x10_0000_0000_0000 * u,
        ;
    } else {
        assert(v > 0 && m > 0) by (nonlinear_arith)
            requires
                m * v != 0,
                v >= 0,
                m >= 0,
        ;
    }
}

/// The tasks among the first `n` samples that are in the domain, by load and
/// pid. A task that was sampled twice with the same load is listed once.
pub open spec fn tasks_of(samples: Seq<TaskSample>, dom: u32, threshold: Double, n: nat) -> Seq<
    (Double, TaskInfo),
>
    decreases n,
{
    if n == 0 {
        Seq::empty()
    } else {
        let before = tasks_of(samples, dom, threshold, (n - 1) as nat);
        let sample = samples[n - 1];
        if sample.dom_id == dom {
            load_map::inserted(
                before,
                task_load(sample, threshold),
                TaskInfo {
                    pid: sample.pid,
                    dom_mask: sample.dom_mask,
                    migrated: false,
                    is_kworker: sample.is_kworker,
                },
            )
        } else {
            before
        }
    }
}

/// The task has not been moved yet, may run in the domain, and is not a kworker
/// that is to be left alone.
pub open spec fn migratable(task: TaskInfo, pull_dom: u32, skip_kworkers: bool) -> bool {
    &&& !task.migrated
    &&& task.dom_mask & (1u64 << pull_dom) != 0
    &&& !(skip_kworkers && task.is_kworker)
}

fn is_migratable(task: &TaskInfo, pull_dom: u32, skip_kworkers: bool) -> (res: bool)
    requires
        pull_dom < 64,
    ensures
        res == migratable(*task, pull_dom, skip_kworkers),
{
    !(task.migrated || (task.dom_mask & (1u64 << pull_dom) == 0) || (skip_kworkers
        && task.is_kworker))
}

/// Finds the first task from `from` up to but without `to`, or the last one
/// where `rev` is set, that can move to a domain.
pub fn find_first_candidate(
    tasks: &LoadMap<TaskInfo>,
    from: usize,
    to: usize,
    rev: bool,
    pull_dom: u32,
    skip_kworkers: bool,
) -> (res: Option<usize>)
    requires
        from <= to <= tasks@.len(),
        pull_dom < 64,
    ensures
        res is None <==> forall|i: int|
            from <= i < to ==> !migratable((#[trigger] tasks@[i]).1, pull_dom, skip_kworkers),
        res matches Some(found) ==> {
            &&& from <= found < to
            &&& migratable(tasks@[found as int].1, pull_dom, skip_kworkers)
            &&& forall|i: int|
                from <= i < to && (if rev {
                    found < i
                } else {
                    i < found
                }) ==> !migratable((#[trigger] tasks@[i]).1, pull_dom, skip_kworkers)
        },
{
    let mut lo: usize = from;
    let mut hi: usize = to;
    while lo < hi
        invariant
            from <= lo <= hi <= to <= tasks@.len(),
            pull_dom < 64,
            rev ==> lo == from,
            !rev ==> hi == to,
            forall|i: int|
                from <= i < to && !(lo <= i < hi) ==> !migratable(
                    (#[trigger] tasks@[i]).1,
                    pull_dom,
                    skip_kworkers,
                ),
        decreases hi - lo,
    {
        let at: usize = if rev {
            hi - 1
        } else {
            lo
        };
        if is_migratable(&tasks.entry(at).1, pull_dom, skip_kworkers) {
            return Some(at);
        }
        if rev {
            hi = at;
        } else {
            lo = at + 1;
        }
    }
    None
}

/// The last of the first `n` tasks with at most this load that can move.
pub open spec fn left_candidate(
    tasks: Seq<(Double, TaskInfo)>,
    load: Double,
    pull_dom: u32,
    skip_kworkers: bool,
    n: nat,
) -> Option<int>
    decreases n,
{
    if n == 0 {
        None
    } else if tasks[n - 1].0.rank() <= load.rank() && migratable(
        tasks[n - 1].1,
        pull_dom,
        skip_kworkers,
    ) {
        Some(n - 1)
    } else {
        left_candidate(tasks, load, pull_dom, skip_kworkers, (n - 1) as nat)
    }
}

/// The first task from `i` on with at least this load that can move.
pub open spec fn right_candidate(
    tasks: Seq<(Double, TaskInfo)>,
    load: Double,
    pull_dom: u32,
    skip_kworkers: bool,
    i: nat,
) -> Option<int>
    decreases tasks.len() - i,
{
    if i >= tasks.len() {
        None
    } else if tasks[i as int].0.rank() >= load.rank() && migratable(
        tasks[i as int].1,
        pull_dom,
        skip_kworkers,
    ) {
        Some(i as int)
    } else {
        right_candidate(tasks, load, pull_dom, skip_kworkers, i + 1)
    }
}

/// The load that would best be transferred between two domains.
pub open spec fn transfer_target(to_push: Double, to_pull: Double) -> Double {
    to_pull.lesser(to_push).times(Double { bits: LOAD_IMBAL_XFER_TARGET_RATIO_BITS })
}

/// The imbalance of two domains that would be left after a transfer.
pub open spec fn imbal_after(to_push: Double, to_pull: Double, xfer: Double) -> Double {
    to_push.minus(xfer).magnitude().plus(to_pull.minus(xfer).magnitude())
}

/// How far a load is from another.
pub open spec fn distance(load: Double, target: Double) -> Double {
    load.minus(target).magnitude()
}

/// The task whose load is closest to the target: the closer of the one that is
/// closest from below and the one that is closest from above.
pub open spec fn best_candidate(
    tasks: Seq<(Double, TaskInfo)>,
    skip_kworkers: bool,
    to_push: Double,
    to_pull: Double,
    pull_dom: u32,
) -> Option<int> {
    let target = transfer_target(to_push, to_pull);
    match (
        left_candidate(tasks, target, pull_dom, skip_kworkers, tasks.len()),
        right_candidate(tasks, target, pull_dom, skip_kworkers, 0),
    ) {
        (None, None) => None,
        (Some(i), None) => Some(i),
        (None, Some(j)) => Some(j),
        (Some(i), Some(j)) => if distance(tasks[i].0, target).at_most(
            distance(tasks[j].0, target),
        ) {
            Some(i)
        } else {
            Some(j)
        },
    }
}

/// The task to move: the best candidate, where that reduces the imbalance.
pub open spec fn victim(
    tasks: Seq<(Double, TaskInfo)>,
    skip_kworkers: bool,
    to_push: Double,
    to_pull: Double,
    pull_dom: u32,
) -> Option<int> {
    match best_candidate(tasks, skip_kworkers, to_push, to_pull, pull_dom) {
        Some(i) => if imbal_after(to_push, to_pull, tasks[i].0).below(to_push.plus(to_pull)) {
            Some(i)
        } else {
            None
        },
        None => None,
    }
}

/// The number of tasks with at most this load, or with less where `strict`.
fn count_below(tasks: &LoadMap<TaskInfo>, load: Double, strict: bool) -> (res: usize)
    requires
        tasks.wf(),
    ensures
        res <= tasks@.len(),
        forall|i: int|
            0 <= i < tasks@.len() ==> (i < res <==> if strict {
                (#[trigger] tasks@[i]).0.rank() < load.rank()
            } else {
                tasks@[i].0.rank() <= load.rank()
            }),
{
    let mut n: usize = 0;
    while n < tasks.len()
        invariant
            tasks.wf(),
            n <= tasks@.len(),
            forall|i: int|
                0 <= i < n ==> if strict {
                    (#[trigger] tasks@[i]).0.rank() < load.rank()
                } else {
                    tasks@[i].0.rank() <= load.rank()
                },
        decreases tasks@.len() - n,
    {
        let key: Double = tasks.entry(n).0;
        let inside: bool = if strict {
            key.ranks_below(load)
        } else {
            !load.ranks_below(key)
        };
        if !inside {
            return n;
        }
        n = n + 1;
    }
    n
}

proof fn lemma_left(
    tasks: Seq<(Double, TaskInfo)>,
    load: Double,
    pull_dom: u32,
    skip_kworkers: bool,
    n: nat,
    found: Option<int>,
)
    requires
        found matches Some(i) ==> 0 <= i < n && tasks[i].0.rank() <= load.rank() && migratable(
            tasks[i].1,
            pull_dom,
            skip_kworkers,
        ),
        forall|j: int|
            0 <= j < n && (found is None || found->0 < j) ==> !((#[trigger] tasks[j]).0.rank()
                <= load.rank() && migratable(tasks[j].1, pull_dom, skip_kworkers)),
    ensures
        left_candidate(tasks, load, pull_dom, skip_kworkers, n) == found,
    decreases n,
{
    if n > 0 && found != Some(n - 1) {
        lemma_left(tasks, load, pull_dom, skip_kworkers, (n - 1) as nat, found);
    }
}

proof fn lemma_right(
    tasks: Seq<(Double, TaskInfo)>,
    load: Double,
    pull_dom: u32,
    skip_kworkers: bool,
    from: nat,
    found: Option<int>,
)
    requires
        found matches Some(i) ==> from <= i < tasks.len() && tasks[i].0.rank() >= load.rank()
            && migratable(tasks[i].1, pull_dom, skip_kworkers),
        forall|j: int|
            from <= j < tasks.len() && (found is None || j < found->0) ==> !((
            #[trigger] tasks[j]).0.rank() >= load.rank() && migratable(
                tasks[j].1,
                pull_dom,
                skip_kworkers,
            )),
    ensures
        right_candidate(tasks, load, pull_dom, skip_kworkers, from) == found,
    decreases tasks.len() - from,
{
    if from < tasks.len() && found != Some(from as int) {
        lemma_right(tasks, load, pull_dom, skip_kworkers, from + 1, found);
    }
}

fn calc_new_imbal(to_push: Double, to_pull: Double, xfer: Double) -> (res: Double)
    ensures
        res == imbal_after(to_push, to_pull, xfer),
{
    to_push.sub(xfer).abs().add(to_pull.sub(xfer).abs())
}

/// Picks the task to move from a domain that is to push out `to_push` to a
/// domain that is to pull in `to_pull`: its place among the tasks of the
/// former, and its load.
fn pick_from(
    tasks: &LoadMap<TaskInfo>,
    skip_kworkers: bool,
    to_push: Double,
    to_pull: Double,
    pull_dom: u32,
) -> (res: Option<(usize, Double)>)
    requires
        tasks.wf(),
        pull_dom < 64,
    ensures
        ({
            let v = victim(tasks@, skip_kworkers, to_push, to_pull, pull_dom);
            match res {
                Some((i, load)) => v == Some(i as int) && load == tasks@[i as int].0,
                None => v is None,
            }
        }),
{
    let to_xfer: Double = to_pull.min(to_push).mul(
        Double { bits: LOAD_IMBAL_XFER_TARGET_RATIO_BITS },
    );
    let ghost s = tasks@;
    // Pick the task which has the closest load value to `to_xfer` that can be
    // migrated. Find such task by locating the first migratable task while
    // scanning left from `to_xfer` and the counterpart while scanning right
    // and picking the better of the two.
    let hi: usize = count_below(tasks, to_xfer, false);
    let left: Option<usize> = find_first_candidate(tasks, 0, hi, true, pull_dom, skip_kworkers);
    let lo: usize = count_below(tasks, to_xfer, true);
    let right: Option<usize> = find_first_candidate(
        tasks,
        lo,
        tasks.len(),
        false,
        pull_dom,
        skip_kworkers,
    );
    proof {
        let l: Option<int> = match left {
            Some(i) => Some(i as int),
            None => None,
        };
        let r: Option<int> = match right {
            Some(i) => Some(i as int),
            None => None,
        };
        lemma_left(s, to_xfer, pull_dom, skip_kworkers, s.len(), l);
        lemma_right(s, to_xfer, pull_dom, skip_kworkers, 0, r);
    }
    let at: usize = match (left, right) {
        (None, None) => {
            return None;
        },
        (Some(i), None) => i,
        (None, Some(j)) => j,
        (Some(i), Some(j)) => {
            let distance0: Double = tasks.entry(i).0.sub(to_xfer).abs();
            let distance1: Double = tasks.entry(j).0.sub(to_xfer).abs();
            if distance0.le(distance1) {
                i
            } else {
                j
            }
        },
    };
    // If the best candidate can't reduce the imbalance, there's nothing to do
    // for this pair.
    let old_imbal: Double = to_push.add(to_pull);
    let new_imbal: Double = calc_new_imbal(to_push, to_pull, tasks.entry(at).0);
    if !new_imbal.lt(old_imbal) {
        return None;
    }
    Some((at, tasks.entry(at).0))
}

impl<'a> LoadBalancer<'a> {
    /// The tasks of a domain, by load; none where they have not been read.
    pub open spec fn tasks(self, dom: int) -> Seq<(Double, TaskInfo)> {
        match self.tasks_by_load@[dom] {
            Some(tasks) => tasks@,
            None => Seq::empty(),
        }
    }

    /// Everything but the tasks of one domain is the same.
    pub open spec fn same_but_tasks(self, other: LoadBalancer<'a>, dom: int) -> bool {
        &&& self.top == other.top
        &&& self.skip_kworkers == other.skip_kworkers
        &&& self.lb_apply_weight == other.lb_apply_weight
        &&& self.infeas_threshold == other.infeas_threshold
        &&& self.load_avg == other.load_avg
        &&& self.dom_loads == other.dom_loads
        &&& self.imbal == other.imbal
        &&& self.doms_to_push == other.doms_to_push
        &&& self.tasks_by_load@.len() == other.tasks_by_load@.len()
        &&& forall|d: int|
            0 <= d < self.tasks_by_load@.len() && d != dom ==> #[trigger] self.tasks_by_load@[d]
                == other.tasks_by_load@[d]
    }

    /// Takes in the recently active tasks of a domain that is to push out
    /// tasks, unless that has been done before.
    pub fn populate_tasks_by_load(&mut self, dom: u32, samples: &Vec<TaskSample>)
        requires
            old(self).wf(),
            dom < old(self).top.doms(),
        ensures
            final(self).wf(),
            final(self).same_but_tasks(*old(self), dom as int),
            final(self).doms_to_pull == old(self).doms_to_pull,
            final(self).tasks_by_load@[dom as int] is Some,
            final(self).tasks(dom as int) == (if old(self).tasks_by_load@[dom as int] is Some {
                old(self).tasks(dom as int)
            } else {
                tasks_of(samples@, dom, old(self).infeas_threshold, samples@.len())
            }),
    {
        if self.tasks_by_load[dom as usize].is_some() {
            return ;
        }
        let mut tasks: LoadMap<TaskInfo> = LoadMap::new();
        let mut i: usize = 0;
        while i < samples.len()
            invariant
                i <= samples@.len(),
                tasks.wf(),
                tasks@ == tasks_of(samples@, dom, self.infeas_threshold, i as nat),
            decreases samples@.len() - i,
        {
            let sample: &TaskSample = &samples[i];
            if sample.dom_id == dom {
                let weight: Double = Double::from_u64(sample.weight as u64).min(
                    self.infeas_threshold,
                );
                let load: Double = weight.mul(sample.dcycle);
                tasks.insert(
                    load,
                    TaskInfo {
                        pid: sample.pid,
                        dom_mask: sample.dom_mask,
                        migrated: false,
                        is_kworker: sample.is_kworker,
                    },
                );
            }
            i = i + 1;
        }
        self.tasks_by_load[dom as usize] = Some(tasks);
    }

    /// Picks the task to move from `push.0`, which has the load `push.1` too
    /// much, to `pull.0`, which lacks the load `pull.1`: its place among the
    /// tasks of the pushing domain, and its load.
    pub fn pick_victim(&self, push: (u32, Double), pull: (u32, Double)) -> (res: Option<
        (usize, Double),
    >)
        requires
            self.wf(),
            push.0 < self.top.doms(),
            pull.0 < self.top.doms(),
            self.tasks_by_load@[push.0 as int] is Some,
        ensures
            ({
                let tasks = self.tasks(push.0 as int);
                let v = victim(tasks, self.skip_kworkers, push.1, pull.1, pull.0);
                match res {
                    Some((i, load)) => v == Some(i as int) && load == tasks[i as int].0,
                    None => v is None,
                }
            }),
    {
        match &self.tasks_by_load[push.0 as usize] {
            Some(tasks) => pick_from(tasks, self.skip_kworkers, push.1, pull.1, pull.0),
            None => None,
        }
    }
}

proof fn lemma_left_found(
    tasks: Seq<(Double, TaskInfo)>,
    load: Double,
    pull_dom: u32,
    skip_kworkers: bool,
    n: nat,
)
    ensures
        left_candidate(tasks, load, pull_dom, skip_kworkers, n) matches Some(i) ==> 0 <= i < n
            && tasks[i].0.rank() <= load.rank() && migratable(tasks[i].1, pull_dom, skip_kworkers),
        forall|j: int|
            0 <= j < n && (#[trigger] tasks[j]).0.rank() <= load.rank() && migratable(
                tasks[j].1,
                pull_dom,
                skip_kworkers,
            ) ==> (left_candidate(tasks, load, pull_dom, skip_kworkers, n) is Some && j
                <= left_candidate(tasks, load, pull_dom, skip_kworkers, n)->0),
    decreases n,
{
    if n > 0 {
        lemma_left_found(tasks, load, pull_dom, skip_kworkers, (n - 1) as nat);
    }
}

proof fn lemma_right_found(
    tasks: Seq<(Double, TaskInfo)>,
    load: Double,
    pull_dom: u32,
    skip_kworkers: bool,
    from: nat,
)
    ensures
        right_candidate(tasks, load, pull_dom, skip_kworkers, from) matches Some(i) ==> from <= i
            < tasks.len() && tasks[i].0.rank() >= load.rank() && migratable(
            tasks[i].1,
            pull_dom,
            skip_kworkers,
        ),
        forall|j: int|
            from <= j < tasks.len() && (#[trigger] tasks[j]).0.rank() >= load.rank() && migratable(
                tasks[j].1,
                pull_dom,
                skip_kworkers,
            ) ==> (right_candidate(tasks, load, pull_dom, skip_kworkers, from) is Some && j
                >= right_candidate(tasks, load, pull_dom, skip_kworkers, from)->0),
    decreases tasks.len() - from,
{
    if from < tasks.len() {
        lemma_right_found(tasks, load, pull_dom, skip_kworkers, from + 1);
    }
}

/// Dealing with the tasks of a domain leaves those of all others alone, and the
/// loads, the imbalances, the settings and the domains that are to push as well.
pub proof fn law_same_but_tasks(a: LoadBalancer, b: LoadBalancer, dom: int, other: int)
    requires
        a.same_but_tasks(b, dom),
        other != dom,
        0 <= other < a.tasks_by_load@.len(),
    ensures
        a.tasks_by_load@.len() == b.tasks_by_load@.len(),
        a.tasks_by_load@[other] == b.tasks_by_load@[other],
        a.top == b.top && a.skip_kworkers == b.skip_kworkers && a.lb_apply_weight
            == b.lb_apply_weight,
        a.infeas_threshold == b.infeas_threshold && a.load_avg == b.load_avg && a.dom_loads
            == b.dom_loads && a.imbal == b.imbal,
        a.doms_to_push == b.doms_to_push,
{
}

/// Every task that is listed for a domain is a recently active task of that
/// domain that has not been moved, under its load.
pub proof fn law_tasks_belong(
    samples: Seq<TaskSample>,
    dom: u32,
    threshold: Double,
    n: nat,
    i: int,
)
    requires
        n <= samples.len(),
        0 <= i < tasks_of(samples, dom, threshold, n).len(),
    ensures
        exists|k: int|
            0 <= k < n && is_sample(
                #[trigger] samples[k],
                dom,
                threshold,
                tasks_of(samples, dom, threshold, n)[i],
            ),
    decreases n,
{
    let s = tasks_of(samples, dom, threshold, n);
    if n > 0 {
        let before = tasks_of(samples, dom, threshold, (n - 1) as nat);
        let sample = samples[n - 1];
        let e = s[i];
        if sample.dom_id == dom {
            let task = TaskInfo {
                pid: sample.pid,
                dom_mask: sample.dom_mask,
                migrated: false,
                is_kworker: sample.is_kworker,
            };
            load_map::lemma_inserted_from(before, task_load(sample, threshold), task, i);
        } else {
            assert(before.contains(before[i]));
        }
        if before.contains(e) {
            let j = choose|j: int| 0 <= j < before.len() && before[j] == e;
            law_tasks_belong(samples, dom, threshold, (n - 1) as nat, j);
        } else {
            assert(is_sample(samples[n - 1], dom, threshold, e));
        }
    }
}

/// Every recently active task of a domain is listed for it, under its load.
pub proof fn law_no_task_lost(
    samples: Seq<TaskSample>,
    dom: u32,
    threshold: Double,
    n: nat,
    k: int,
)
    requires
        0 <= k < n <= samples.len(),
        samples[k].dom_id == dom,
    ensures
        load_map::has_key(
            tasks_of(samples, dom, threshold, n),
            task_load(samples[k], threshold).rank(),
            samples[k].pid as int,
        ),
    decreases n,
{
    let before = tasks_of(samples, dom, threshold, (n - 1) as nat);
    let sample = samples[n - 1];
    if k < n - 1 {
        law_no_task_lost(samples, dom, threshold, (n - 1) as nat, k);
    }
    if sample.dom_id == dom {
        load_map::law_insert_keeps_keys(
            before,
            task_load(sample, threshold),
            TaskInfo {
                pid: sample.pid,
                dom_mask: sample.dom_mask,
                migrated: false,
                is_kworker: sample.is_kworker,
            },
            task_load(samples[k], threshold).rank(),
            samples[k].pid as int,
        );
    }
}

/// A task that is listed for a domain has the pid, the domains and the kind of a
/// task that was sampled in that domain, and has not been moved.
pub proof fn law_listed_task(
    samples: Seq<TaskSample>,
    dom: u32,
    threshold: Double,
    n: nat,
    i: int,
) -> (k: int)
    requires
        n <= samples.len(),
        0 <= i < tasks_of(samples, dom, threshold, n).len(),
    ensures
        0 <= k < n,
        samples[k].dom_id == dom,
        ({
            let (load, task) = tasks_of(samples, dom, threshold, n)[i];
            &&& load.rank() == task_load(samples[k], threshold).rank()
            &&& task.pid == samples[k].pid
            &&& task.dom_mask == samples[k].dom_mask
            &&& task.is_kworker == samples[k].is_kworker
            &&& !task.migrated
        }),
{
    law_tasks_belong(samples, dom, threshold, n, i);
    choose|k: int|
        0 <= k < n && is_sample(
            #[trigger] samples[k],
            dom,
            threshold,
            tasks_of(samples, dom, threshold, n)[i],
        )
}

/// The entry is that of a sampled task of the domain.
pub open spec fn is_sample(
    sample: TaskSample,
    dom: u32,
    threshold: Double,
    entry: (Double, TaskInfo),
) -> bool {
    &&& sample.dom_id == dom
    &&& entry.0.rank() == task_load(sample, threshold).rank()
    &&& entry.1 == (TaskInfo {
        pid: sample.pid,
        dom_mask: sample.dom_mask,
        migrated: false,
        is_kworker: sample.is_kworker,
    })
}

/// The task that is picked has not been moved before, may run in the pulling
/// domain, is not a kworker that is to be left alone, and moving it reduces the
/// imbalance of the two domains.
pub proof fn law_victim(
    tasks: Seq<(Double, TaskInfo)>,
    skip_kworkers: bool,
    to_push: Double,
    to_pull: Double,
    pull_dom: u32,
)
    ensures
        victim(tasks, skip_kworkers, to_push, to_pull, pull_dom) matches Some(i) ==> {
            &&& 0 <= i < tasks.len()
            &&& migratable(tasks[i].1, pull_dom, skip_kworkers)
            &&& imbal_after(to_push, to_pull, tasks[i].0).below(to_push.plus(to_pull))
        },
{
    let target = transfer_target(to_push, to_pull);
    lemma_left_found(tasks, target, pull_dom, skip_kworkers, tasks.len());
    lemma_right_found(tasks, target, pull_dom, skip_kworkers, 0);
}

/// Of two loads on the same side of a target, the nearer one is not further
/// from it.
proof fn lemma_nearer(near: Double, far: Double, target: Double)
    requires
        (far.rank() <= near.rank() <= target.rank()) || (target.rank() <= near.rank()
            <= far.rank()),
        !distance(near, target).nan(),
        !distance(far, target).nan(),
    ensures
        distance(near, target).at_most(distance(far, target)),
{
    double::lemma_difference_nan(near, target);
    double::lemma_difference_nan(far, target);
    double::law_difference_sign(near, target);
    double::law_difference_sign(far, target);
    if far.rank() <= near.rank() {
        double::law_plus_monotone(far, near, target.negated());
    }
    if near.rank() <= far.rank() {
        double::law_plus_monotone(near, far, target.negated());
    }
}

/// Where the distance to the closest task from below is not a number, neither
/// is that to any other task from below, or that to any task from above.
proof fn lemma_no_distance(left: Double, right: Double, other: Double, target: Double)
    requires
        other.rank() <= left.rank() <= target.rank() <= right.rank(),
        distance(left, target).nan(),
    ensures
        distance(other, target).nan() || distance(right, target).nan(),
{
    double::lemma_difference_nan(left, target);
    double::lemma_difference_nan(right, target);
    double::lemma_difference_nan(other, target);
}

proof fn lemma_best_is_closest(
    tasks: Seq<(Double, TaskInfo)>,
    skip_kworkers: bool,
    to_push: Double,
    to_pull: Double,
    pull_dom: u32,
    other: int,
)
    requires
        load_map::ascending(tasks),
        0 <= other < tasks.len(),
        migratable(tasks[other].1, pull_dom, skip_kworkers),
    ensures
        ({
            let target = transfer_target(to_push, to_pull);
            best_candidate(tasks, skip_kworkers, to_push, to_pull, pull_dom) matches Some(at) && {
                &&& 0 <= at < tasks.len()
                &&& migratable(tasks[at].1, pull_dom, skip_kworkers)
                &&& !distance(tasks[at].0, target).nan() && !distance(tasks[other].0, target).nan()
                    ==> distance(tasks[at].0, target).at_most(distance(tasks[other].0, target))
            }
        }),
{
    let target = transfer_target(to_push, to_pull);
    let left = left_candidate(tasks, target, pull_dom, skip_kworkers, tasks.len());
    let right = right_candidate(tasks, target, pull_dom, skip_kworkers, 0);
    let load = tasks[other].0;
    lemma_left_found(tasks, target, pull_dom, skip_kworkers, tasks.len());
    lemma_right_found(tasks, target, pull_dom, skip_kworkers, 0);
    let at = best_candidate(tasks, skip_kworkers, to_push, to_pull, pull_dom)->0;
    if !distance(tasks[at].0, target).nan() && !distance(load, target).nan() {
        if load.rank() <= target.rank() {
            let i = left->0;
            assert(other <= i);
            assert(load.rank() <= tasks[i].0.rank()) by {
                if other < i {
                    assert(load_map::precedes(tasks[other], tasks[i]));
                }
            }
            if distance(tasks[i].0, target).nan() {
                if right is Some {
                    lemma_no_distance(tasks[i].0, tasks[right->0].0, load, target);
                }
            } else {
                lemma_nearer(tasks[i].0, load, target);
            }
        } else {
            let j = right->0;
            assert(j <= other);
            assert(tasks[j].0.rank() <= load.rank()) by {
                if j < other {
                    assert(load_map::precedes(tasks[j], tasks[other]));
                }
            }
            if distance(tasks[j].0, target).nan() {
                double::lemma_difference_nan(tasks[j].0, target);
                double::lemma_difference_nan(load, target);
                double::lemma_difference_nan(tasks[at].0, target);
                assert(false);
            } else {
                lemma_nearer(tasks[j].0, load, target);
            }
        }
    }
}

/// The task that is picked is the one that can move whose load is closest to
/// the target: none has a load at a lower distance. A load has no distance to
/// the target where their difference is not a number.
pub proof fn law_victim_is_closest(
    tasks: Seq<(Double, TaskInfo)>,
    skip_kworkers: bool,
    to_push: Double,
    to_pull: Double,
    pull_dom: u32,
    other: int,
)
    requires
        load_map::ascending(tasks),
        victim(tasks, skip_kworkers, to_push, to_pull, pull_dom) is Some,
        0 <= other < tasks.len(),
        migratable(tasks[other].1, pull_dom, skip_kworkers),
        ({
            let picked = tasks[victim(tasks, skip_kworkers, to_push, to_pull, pull_dom)->0].0;
            let target = transfer_target(to_push, to_pull);
            !distance(picked, target).nan() && !distance(tasks[other].0, target).nan()
        }),
    ensures
        ({
            let picked = tasks[victim(tasks, skip_kworkers, to_push, to_pull, pull_dom)->0].0;
            let target = transfer_target(to_push, to_pull);
            distance(picked, target).at_most(distance(tasks[other].0, target))
        }),
{
    lemma_best_is_closest(tasks, skip_kworkers, to_push, to_pull, pull_dom, other);
}

/// The number is finite, and far enough from the largest one for sums of a few
/// such numbers to be in range.
pub open spec fn moderate(x: Double) -> bool {
    x.finite() && accuracy::gap(x.value(), 0) < pow2::pow2(2095)
}

/// The best candidate in exact terms: how far twice its load is from the lesser
/// of the two imbalances.
proof fn lemma_best_is_near_half(
    tasks: Seq<(Double, TaskInfo)>,
    skip_kworkers: bool,
    to_push: Double,
    to_pull: Double,
    pull_dom: u32,
    other: int,
)
    requires
        load_map::ascending(tasks),
        moderate(to_push),
        moderate(to_pull),
        0 <= other < tasks.len(),
        moderate(tasks[other].0),
        migratable(tasks[other].1, pull_dom, skip_kworkers),
        best_candidate(tasks, skip_kworkers, to_push, to_pull, pull_dom) matches Some(at) ==> moderate(
            tasks[at].0,
        ),
    ensures
        best_candidate(tasks, skip_kworkers, to_push, to_pull, pull_dom) matches Some(at) && {
            let least = if to_push.value() <= to_pull.value() {
                to_push.value()
            } else {
                to_pull.value()
            };
            accuracy::gap(2 * tasks[at].0.value(), least) * 0x4_0000_0000_0000 <= accuracy::gap(
                2 * tasks[other].0.value(),
                least,
            ) * 0x4_0000_0000_0001 + 0x10_0000_0000_0000
        },
{
    let target = transfer_target(to_push, to_pull);
    let at = best_candidate(tasks, skip_kworkers, to_push, to_pull, pull_dom)->0;
    lemma_best_is_closest(tasks, skip_kworkers, to_push, to_pull, pull_dom, other);
    let (p, o) = (tasks[at].0, tasks[other].0);
    let least = to_pull.lesser(to_push);
    accuracy::law_order(to_pull, to_push);
    accuracy::law_half(least);
    accuracy::lemma_range();
    accuracy::law_minus(p, target);
    accuracy::law_minus(o, target);
    accuracy::lemma_magnitude(p.minus(target));
    accuracy::lemma_magnitude(o.minus(target));
    accuracy::law_order(distance(p, target), distance(o, target));
    lemma_near_half_exact(
        p.value(),
        o.value(),
        target.value(),
        least.value(),
        p.minus(target).value(),
        o.minus(target).value(),
    );
}

/// What the order of two rounded distances says of the exact ones.
proof fn lemma_near_half_exact(p: int, o: int, t: int, least: int, dp: int, d_o: int)
    requires
        accuracy::gap(2 * t, least) <= 1,
        accuracy::gap(dp, p - t) * 0x20_0000_0000_0000 <= accuracy::gap(p, t),
        accuracy::gap(d_o, o - t) * 0x20_0000_0000_0000 <= accuracy::gap(o, t),
        accuracy::gap(dp, 0) <= accuracy::gap(d_o, 0),
    ensures
        accuracy::gap(2 * p, least) * 0x4_0000_0000_0000 <= accuracy::gap(2 * o, least)
            * 0x4_0000_0000_0001 + 0x10_0000_0000_0000,
{
    let (gp, go) = (accuracy::gap(p, t), accuracy::gap(o, t));
    let (ap, ao) = (accuracy::gap(dp, 0), accuracy::gap(d_o, 0));
    assert(accuracy::gap(ap, gp) * 0x20_0000_0000_0000 <= gp);
    assert(accuracy::gap(ao, go) * 0x20_0000_0000_0000 <= go);
    assert(gp * 0x1f_ffff_ffff_ffff <= go * 0x20_0000_0000_0001);
    assert(accuracy::gap(2 * p, least) <= 2 * gp + 1);
    assert(2 * go <= accuracy::gap(2 * o, least) + 1);
}

/// The task that is picked may move to the pulling domain, and its load is the
/// one closest to half of the lesser of the two imbalances, whatever their size:
/// no task that may move has a load that is closer by more than a part in `2^50`
/// or a few units.
pub proof fn law_victim_is_near_half(
    tasks: Seq<(Double, TaskInfo)>,
    skip_kworkers: bool,
    to_push: Double,
    to_pull: Double,
    pull_dom: u32,
    other: int,
)
    requires
        load_map::ascending(tasks),
        moderate(to_push),
        moderate(to_pull),
        victim(tasks, skip_kworkers, to_push, to_pull, pull_dom) is Some,
        moderate(tasks[victim(tasks, skip_kworkers, to_push, to_pull, pull_dom)->0].0),
        0 <= other < tasks.len(),
        moderate(tasks[other].0),
        !tasks[other].1.migrated,
        tasks[other].1.dom_mask & (1u64 << pull_dom) != 0,
        !(skip_kworkers && tasks[other].1.is_kworker),
    ensures
        ({
            let (load, task) = tasks[victim(tasks, skip_kworkers, to_push, to_pull, pull_dom)->0];
            let least = if to_push.value() <= to_pull.value() {
                to_push.value()
            } else {
                to_pull.value()
            };
            &&& !task.migrated
            &&& task.dom_mask & (1u64 << pull_dom) != 0
            &&& !(skip_kworkers && task.is_kworker)
            &&& accuracy::gap(2 * load.value(), least) * 0x4_0000_0000_0000 <= accuracy::gap(
                2 * tasks[other].0.value(),
                least,
            ) * 0x4_0000_0000_0001 + 0x10_0000_0000_0000
        }),
{
    law_victim(tasks, skip_kworkers, to_push, to_pull, pull_dom);
    lemma_best_is_near_half(tasks, skip_kworkers, to_push, to_pull, pull_dom, other);
}

/// A task that takes no more than the lesser imbalance off both, and not vanishingly
/// little, leaves less imbalance.
proof fn lemma_reduces(to_push: Double, to_pull: Double, load: Double)
    requires
        moderate(to_push),
        moderate(to_pull),
        moderate(load),
        ({
            let (a, b, c) = (to_push.value(), to_pull.value(), load.value());
            &&& 0 < c
            &&& c <= a && c <= b
            &&& a + b <= 0x400_0000_0000 * c
        }),
    ensures
        imbal_after(to_push, to_pull, load).below(to_push.plus(to_pull)),
{
    let (a, b, c) = (to_push.value(), to_pull.value(), load.value());
    accuracy::lemma_range();
    accuracy::law_minus(to_push, load);
    accuracy::law_minus(to_pull, load);
    let (x, y) = (to_push.minus(load), to_pull.minus(load));
    double::lemma_parts(x);
    double::lemma_parts(y);
    assert(x.value() >= 0 && y.value() >= 0);
    let (mx, my) = (x.magnitude(), y.magnitude());
    accuracy::lemma_magnitude(x);
    accuracy::lemma_magnitude(y);
    accuracy::law_plus(mx, my);
    accuracy::law_plus(to_push, to_pull);
    accuracy::law_order(mx.plus(my), to_push.plus(to_pull));
}

/// Where some task that may move has a load between nothing and the lesser
/// imbalance, and is off from both ends by a part in `2^40` of the imbalances, a
/// task is picked.
pub proof fn law_victim_is_found(
    tasks: Seq<(Double, TaskInfo)>,
    skip_kworkers: bool,
    to_push: Double,
    to_pull: Double,
    pull_dom: u32,
    other: int,
)
    requires
        load_map::ascending(tasks),
        moderate(to_push),
        moderate(to_pull),
        forall|t: int| 0 <= t < tasks.len() ==> moderate((#[trigger] tasks[t]).0),
        0 <= other < tasks.len(),
        !tasks[other].1.migrated,
        tasks[other].1.dom_mask & (1u64 << pull_dom) != 0,
        !(skip_kworkers && tasks[other].1.is_kworker),
        fits_between(to_push, to_pull, tasks[other].0),
    ensures
        victim(tasks, skip_kworkers, to_push, to_pull, pull_dom) is Some,
        ({
            let load = tasks[victim(tasks, skip_kworkers, to_push, to_pull, pull_dom)->0].0.value();
            0 < load <= to_push.value() && load <= to_pull.value()
        }),
{
    lemma_best_is_closest(tasks, skip_kworkers, to_push, to_pull, pull_dom, other);
    lemma_best_is_near_half(tasks, skip_kworkers, to_push, to_pull, pull_dom, other);
    let at = best_candidate(tasks, skip_kworkers, to_push, to_pull, pull_dom)->0;
    lemma_reduces(to_push, to_pull, tasks[at].0);
}

/// The load is between nothing and the lesser imbalance, and not vanishingly close
/// to either beside the sum of the imbalances.
pub open spec fn fits_between(to_push: Double, to_pull: Double, load: Double) -> bool {
    let (a, b, c) = (to_push.value(), to_pull.value(), load.value());
    let least = if a <= b {
        a
    } else {
        b
    };
    &&& least >= 0x1000_0000_0000_0000
    &&& a + b <= 0x100_0000_0000 * c
    &&& a + b <= 0x100_0000_0000 * (least - c)
}

/// Moving the task that is picked takes load that is there: where both domains
/// are off, its load is positive, and the imbalance that is left is not above the
/// one before by more than rounding.
pub proof fn law_victim_reduces_imbalance(
    tasks: Seq<(Double, TaskInfo)>,
    skip_kworkers: bool,
    to_push: Double,
    to_pull: Double,
    pull_dom: u32,
)
    requires
        moderate(to_push),
        moderate(to_pull),
        to_push.value() >= 0,
        to_pull.value() >= 0,
        victim(tasks, skip_kworkers, to_push, to_pull, pull_dom) is Some,
        moderate(tasks[victim(tasks, skip_kworkers, to_push, to_pull, pull_dom)->0].0),
    ensures
        ({
            let c = tasks[victim(tasks, skip_kworkers, to_push, to_pull, pull_dom)->0].0.value();
            let (a, b) = (to_push.value(), to_pull.value());
            let left = accuracy::gap(a, c) + accuracy::gap(b, c);
            &&& 0 < c
            &&& (left - (a + b)) * 0x4_0000_0000_0000 <= a + b
        }),
{
    law_victim(tasks, skip_kworkers, to_push, to_pull, pull_dom);
    let load = tasks[victim(tasks, skip_kworkers, to_push, to_pull, pull_dom)->0].0;
    let (a, b, c) = (to_push.value(), to_pull.value(), load.value());
    accuracy::lemma_range();
    accuracy::law_minus(to_push, load);
    accuracy::law_minus(to_pull, load);
    let (x, y) = (to_push.minus(load), to_pull.minus(load));
    let (mx, my) = (x.magnitude(), y.magnitude());
    accuracy::lemma_magnitude(x);
    accuracy::lemma_magnitude(y);
    accuracy::law_plus(mx, my);
    accuracy::law_plus(to_push, to_pull);
    let (before, after) = (to_push.plus(to_pull), mx.plus(my));
    assert(after.finite()) by {
        assert(after.below(before));
        assert(before.finite());
        double::lemma_unsigned_results(mx, my);
    }
    accuracy::law_order(after, before);
    lemma_left_exact(a, b, c, x.value(), y.value(), after.value(), before.value());
    if c <= 0 {
        lemma_no_gain(to_push, to_pull, load);
    }
}

/// What the order of two rounded imbalances says of the exact ones.
proof fn lemma_left_exact(a: int, b: int, c: int, x: int, y: int, after: int, before: int)
    requires
        a >= 0,
        b >= 0,
        accuracy::gap(x, a - c) * 0x20_0000_0000_0000 <= accuracy::gap(a, c),
        accuracy::gap(y, b - c) * 0x20_0000_0000_0000 <= accuracy::gap(b, c),
        ({
            let s = accuracy::gap(x, 0) + accuracy::gap(y, 0);
            accuracy::gap(after, s) * 0x20_0000_0000_0000 <= s
        }),
        accuracy::gap(before, a + b) * 0x20_0000_0000_0000 <= a + b,
        after < before,
    ensures
        (accuracy::gap(a, c) + accuracy::gap(b, c) - (a + b)) * 0x4_0000_0000_0000 <= a + b,
{
    let (ga, gb) = (accuracy::gap(a, c), accuracy::gap(b, c));
    let (ax, ay) = (accuracy::gap(x, 0), accuracy::gap(y, 0));
    assert(accuracy::gap(ax, ga) * 0x20_0000_0000_0000 <= ga);
    assert(accuracy::gap(ay, gb) * 0x20_0000_0000_0000 <= gb);
    let (s, t) = (ax + ay, ga + gb);
    assert(t * 0x1f_ffff_ffff_ffff <= s * 0x20_0000_0000_0000);
    assert(s * 0x1f_ffff_ffff_ffff <= after * 0x20_0000_0000_0000);
    assert(before * 0x20_0000_0000_0000 <= (a + b) * 0x20_0000_0000_0001);
}

/// Moving nothing, or less, reduces no imbalance.
proof fn lemma_no_gain(to_push: Double, to_pull: Double, load: Double)
    requires
        moderate(to_push),
        moderate(to_pull),
        moderate(load),
        to_push.value() >= 0,
        to_pull.value() >= 0,
        load.value() <= 0,
    ensures
        !imbal_after(to_push, to_pull, load).below(to_push.plus(to_pull)),
{
    lemma_not_less(to_push, load);
    lemma_not_less(to_pull, load);
    accuracy::lemma_range();
    accuracy::law_minus(to_push, load);
    accuracy::law_minus(to_pull, load);
    let (mx, my) = (to_push.minus(load).magnitude(), to_pull.minus(load).magnitude());
    accuracy::lemma_magnitude(to_push.minus(load));
    accuracy::lemma_magnitude(to_pull.minus(load));
    lemma_sum_not_nan(to_push, to_pull);
    lemma_sum_not_nan(mx, to_pull);
    lemma_sum_not_nan(to_pull, mx);
    lemma_sum_not_nan(mx, my);
    lemma_sum_not_nan(my, mx);
    double::law_plus_monotone(to_push, mx, to_pull);
    double::law_plus_monotone(to_pull, my, mx);
}

/// A sum of finite numbers is a number, and does not depend on their order.
proof fn lemma_sum_not_nan(x: Double, y: Double)
    requires
        x.finite(),
        y.finite(),
    ensures
        !x.plus(y).nan(),
        x.plus(y) == y.plus(x),
{
    reveal(Double::plus);
}

/// Taking nothing, or less, off an imbalance leaves no less of it.
proof fn lemma_not_less(imbal: Double, load: Double)
    requires
        moderate(imbal),
        moderate(load),
        imbal.value() >= 0,
        load.value() <= 0,
    ensures
        imbal.at_most(imbal.minus(load).magnitude()),
{
    accuracy::lemma_range();
    accuracy::law_minus(imbal, load);
    let r = imbal.minus(load);
    let zero = Double::zero();
    let neg = load.negated();
    accuracy::lemma_negated(load);
    accuracy::lemma_magnitude(r);
    double::lemma_parts(zero);
    accuracy::law_order(zero, neg);
    lemma_sum_not_nan(zero, imbal);
    lemma_sum_not_nan(imbal, neg);
    double::law_plus_monotone(zero, neg, imbal);
    accuracy::law_plus(imbal, zero);
    accuracy::law_order(imbal.plus(zero), r);
    assert(imbal.plus(zero).finite() && imbal.plus(zero).value() == imbal.value()) by {
        lemma_plus_zero(imbal);
    }
    accuracy::law_order(imbal, r.magnitude());
}

proof fn lemma_plus_zero(x: Double)
    requires
        x.finite(),
    ensures
        x.plus(Double::zero()).finite(),
        x.plus(Double::zero()).value() == x.value(),
{
    reveal(Double::plus);
    let zero = Double::zero();
    double::lemma_parts(x);
    double::lemma_parts(zero);
    double::lemma_round_exact(x);
    double::lemma_parts(x.plus(zero));
}

} // verus!
