//! The CPUs of the machine and the scheduling domains they are grouped into.
use vstd::prelude::*;
use crate::cpumask;
use crate::pow2;

verus! {

/// The most CPUs that the scheduler can handle.
pub const MAX_CPUS: usize = 512;

/// The most domains that the scheduler can handle.
pub const MAX_DOMS: usize = 64;

/// Which domain each CPU belongs to. A CPU that was offline when the domains
/// were built belongs to none.
#[derive(Clone, Debug)]
pub struct Topology {
    nr_doms: usize,
    cpu_doms: Vec<Option<usize>>,
}

/// The machine is larger than the scheduler can handle.
#[derive(Clone, Copy, Debug, PartialEq, Eq, Structural)]
pub enum LimitError {
    TooManyCpus,
    TooManyDoms,
}

/// A CPU is in the masks of two domains.
#[derive(Clone, Copy, Debug, PartialEq, Eq, Structural)]
pub struct InTwoDomains {
    pub cpu: usize,
}

/// The masks reach as far as the CPUs do.
pub open spec fn masks_cover(masks: Seq<Vec<u64>>, nr_cpus: int) -> bool {
    forall|dom: int|
        0 <= dom < masks.len() ==> (#[trigger] masks[dom])@.len() * 64 >= nr_cpus
}

/// The CPU is in the mask of a domain.
pub open spec fn in_mask(masks: Seq<Vec<u64>>, dom: int, cpu: int) -> bool {
    0 <= dom < masks.len() && cpumask::has_cpu(masks[dom]@, cpu)
}

/// No two masks hold the CPU.
pub open spec fn in_one_at_most(masks: Seq<Vec<u64>>, cpu: int) -> bool {
    forall|a: int, b: int|
        #[trigger] in_mask(masks, a, cpu) && #[trigger] in_mask(masks, b, cpu) ==> a == b
}

/// A CPU is in the mask of a domain where its digit is set in the binary form of
/// its word of that mask, and in no two masks at most where no two have it set.
pub proof fn law_in_mask(masks: Seq<Vec<u64>>, cpu: int)
    requires
        0 <= cpu,
        masks_cover(masks, cpu + 1),
    ensures
        forall|dom: int|
            0 <= dom < masks.len() ==> cpu < #[trigger] masks[dom]@.len() * 64,
        forall|dom: int|
            0 <= dom < masks.len() ==> (#[trigger] in_mask(masks, dom, cpu) <==> (masks[dom]@[cpu
                / 64] as nat / pow2::pow2((cpu % 64) as nat)) % 2 == 1),
        !in_one_at_most(masks, cpu) <==> exists|a: int, b: int|
            0 <= a < b < masks.len() && #[trigger] in_mask(masks, a, cpu) && #[trigger] in_mask(
                masks,
                b,
                cpu,
            ),
{
    assert forall|dom: int| 0 <= dom < masks.len() implies (#[trigger] in_mask(masks, dom, cpu)
        <==> (masks[dom]@[cpu / 64] as nat / pow2::pow2((cpu % 64) as nat)) % 2 == 1) by {
        cpumask::law_has_cpu(masks[dom]@, cpu);
    }
    if !in_one_at_most(masks, cpu) {
        let (a, b) = choose|a: int, b: int|
            #[trigger] in_mask(masks, a, cpu) && #[trigger] in_mask(masks, b, cpu) && a != b;
        if a > b {
            assert(in_mask(masks, b, cpu) && in_mask(masks, a, cpu));
        }
    }
}

/// A machine within the limits has no more than 512 CPUs and 64 domains.
pub proof fn law_limits(top: Topology)
    ensures
        top.within_limits() <==> !(top.cpus() > 512 || top.doms() > 64),
{
}

/// The domain whose mask holds the CPU.
fn dom_in_masks(masks: &[Vec<u64>], cpu: usize) -> (res: Result<Option<usize>, InTwoDomains>)
    requires
        masks_cover(masks@, cpu + 1),
    ensures
        res is Ok <==> in_one_at_most(masks@, cpu as int),
        res matches Err(e) ==> e.cpu == cpu,
        res matches Ok(found) ==> forall|dom: int|
            0 <= dom < masks@.len() ==> (#[trigger] in_mask(masks@, dom, cpu as int) <==> found
                is Some && found->0 == dom),
        res matches Ok(Some(dom)) ==> dom < masks@.len(),
{
    let mut found: Option<usize> = None;
    let mut dom: usize = 0;
    while dom < masks.len()
        invariant
            masks_cover(masks@, cpu + 1),
            dom <= masks@.len(),
            found matches Some(d) ==> d < dom,
            forall|d: int|
                0 <= d < dom ==> (#[trigger] in_mask(masks@, d, cpu as int) <==> found is Some
                    && found->0 == d),
        decreases masks@.len() - dom,
    {
        assert(masks@[dom as int]@.len() * 64 >= cpu + 1);
        if masks[dom][cpu / 64] & (1u64 << ((cpu % 64) as u64)) != 0 {
            assert(in_mask(masks@, dom as int, cpu as int));
            if let Some(other) = found {
                assert(in_mask(masks@, other as int, cpu as int));
                return Err(InTwoDomains { cpu });
            }
            found = Some(dom);
        } else {
            assert(!in_mask(masks@, dom as int, cpu as int));
        }
        dom = dom + 1;
    }
    Ok(found)
}

/// The numbers ascend, so that none occurs twice.
spec fn ascending(s: Seq<usize>) -> bool {
    forall|i: int, j: int| 0 <= i < j < s.len() ==> #[trigger] s[i] < #[trigger] s[j]
}

/// The first place from which on no number is lower.
fn place_of(s: &Vec<usize>, id: usize) -> (res: usize)
    requires
        ascending(s@),
    ensures
        res <= s@.len(),
        forall|i: int| 0 <= i < s@.len() ==> (i < res <==> #[trigger] s@[i] < id),
{
    let mut i: usize = 0;
    while i < s.len() && s[i] < id
        invariant
            i <= s@.len(),
            ascending(s@),
            forall|j: int| 0 <= j < i ==> #[trigger] s@[j] < id,
        decreases s@.len() - i,
    {
        i = i + 1;
    }
    i
}

/// The numbers that occur, in ascending order.
fn distinct(ids: &[Option<usize>]) -> (res: Vec<usize>)
    ensures
        ascending(res@),
        forall|cpu: int|
            0 <= cpu < ids@.len() ==> (#[trigger] ids@[cpu] matches Some(id) ==> res@.contains(id)),
        forall|i: int| 0 <= i < res@.len() ==> ids@.contains(Some(#[trigger] res@[i])),
{
    let mut res: Vec<usize> = Vec::new();
    let mut cpu: usize = 0;
    while cpu < ids.len()
        invariant
            cpu <= ids@.len(),
            ascending(res@),
            forall|c: int|
                0 <= c < cpu ==> (#[trigger] ids@[c] matches Some(id) ==> res@.contains(id)),
            forall|i: int| 0 <= i < res@.len() ==> ids@.contains(Some(#[trigger] res@[i])),
        decreases ids@.len() - cpu,
    {
        if let Some(id) = ids[cpu] {
            let at: usize = place_of(&res, id);
            let ghost before = res@;
            if at == res.len() || res[at] != id {
                res.insert(at, id);
                proof {
                    assert(res@[at as int] == id);
                    assert forall|x: usize| before.contains(x) implies res@.contains(x) by {
                        let k = choose|k: int| 0 <= k < before.len() && before[k] == x;
                        if k < at {
                            assert(res@[k] == x);
                        } else {
                            assert(res@[k + 1] == x);
                        }
                    }
                    assert forall|i: int| 0 <= i < res@.len() implies ids@.contains(
                        Some(#[trigger] res@[i]),
                    ) by {
                        if i == at {
                            assert(ids@[cpu as int] == Some(res@[i]));
                        } else if i < at {
                            assert(res@[i] == before[i]);
                        } else {
                            assert(res@[i] == before[i - 1]);
                        }
                    }
                }
            } else {
                assert(res@[at as int] == id);
            }
            assert(res@.contains(id));
        }
        cpu = cpu + 1;
    }
    res
}

impl Topology {
    /// The number of CPUs.
    pub closed spec fn cpus(self) -> nat {
        self.cpu_doms@.len()
    }

    /// The number of domains.
    pub closed spec fn doms(self) -> nat {
        self.nr_doms as nat
    }

    /// The domain of a CPU.
    pub closed spec fn dom_of(self, cpu: int) -> Option<usize> {
        self.cpu_doms@[cpu]
    }

    /// The domain has a CPU.
    pub open spec fn inhabited(self, dom: usize) -> bool {
        exists|cpu: int| 0 <= cpu < self.cpus() && #[trigger] self.dom_of(cpu) == Some(dom)
    }

    /// Every CPU that belongs to a domain belongs to one that exists.
    pub open spec fn wf(self) -> bool {
        &&& self.cpus() <= usize::MAX
        &&& self.doms() <= usize::MAX
        &&& forall|cpu: int|
            0 <= cpu < self.cpus() ==> (#[trigger] self.dom_of(cpu) matches Some(dom) ==> dom
                < self.doms())
    }

    /// The machine is small enough for the scheduler.
    pub open spec fn within_limits(self) -> bool {
        self.cpus() <= MAX_CPUS && self.doms() <= MAX_DOMS
    }

    /// Groups CPUs into `nr_doms` domains; `cpu_doms[cpu]` is the domain of
    /// `cpu`. There is no result where a CPU is in a domain that does not exist.
    pub fn new(nr_doms: usize, cpu_doms: Vec<Option<usize>>) -> (res: Option<Topology>)
        ensures
            res is Some <==> forall|cpu: int|
                0 <= cpu < cpu_doms@.len() ==> (#[trigger] cpu_doms@[cpu] matches Some(dom) ==> dom
                    < nr_doms),
            res matches Some(top) ==> {
                &&& top.wf()
                &&& top.doms() == nr_doms
                &&& top.cpus() == cpu_doms@.len()
                &&& forall|cpu: int|
                    0 <= cpu < cpu_doms@.len() ==> #[trigger] top.dom_of(cpu) == cpu_doms@[cpu]
            },
    {
        let mut cpu: usize = 0;
        while cpu < cpu_doms.len()
            invariant
                cpu <= cpu_doms@.len(),
                forall|c: int|
                    0 <= c < cpu ==> (#[trigger] cpu_doms@[c] matches Some(dom) ==> dom < nr_doms),
            decreases cpu_doms@.len() - cpu,
        {
            if let Some(dom) = cpu_doms[cpu] {
                if dom >= nr_doms {
                    return None;
                }
            }
            cpu = cpu + 1;
        }
        Some(Topology { nr_doms, cpu_doms })
    }

    /// Groups CPUs into domains by the masks of the domains. A CPU that is in no
    /// mask belongs to no domain, and the lowest CPU that is in two masks is
    /// returned as an error.
    pub fn from_masks(nr_cpus: usize, masks: &[Vec<u64>]) -> (res: Result<Topology, InTwoDomains>)
        requires
            masks_cover(masks@, nr_cpus as int),
        ensures
            res is Ok <==> forall|cpu: int|
                0 <= cpu < nr_cpus ==> #[trigger] in_one_at_most(masks@, cpu),
            res matches Err(e) ==> {
                &&& e.cpu < nr_cpus
                &&& !in_one_at_most(masks@, e.cpu as int)
                &&& forall|cpu: int| 0 <= cpu < e.cpu ==> #[trigger] in_one_at_most(masks@, cpu)
            },
            res matches Ok(top) ==> {
                &&& top.wf()
                &&& top.cpus() == nr_cpus
                &&& top.doms() == masks@.len()
                &&& forall|cpu: int, dom: int|
                    0 <= cpu < nr_cpus && 0 <= dom < masks@.len() ==> (#[trigger] in_mask(
                        masks@,
                        dom,
                        cpu,
                    ) <==> top.dom_of(cpu) is Some && top.dom_of(cpu)->0 == dom)
            },
    {
        let mut cpu_doms: Vec<Option<usize>> = Vec::new();
        let mut cpu: usize = 0;
        while cpu < nr_cpus
            invariant
                masks_cover(masks@, nr_cpus as int),
                cpu <= nr_cpus,
                cpu_doms@.len() == cpu,
                forall|c: int| 0 <= c < cpu ==> #[trigger] in_one_at_most(masks@, c),
                forall|c: int|
                    0 <= c < cpu ==> (#[trigger] cpu_doms@[c] matches Some(dom) ==> dom
                        < masks@.len()),
                forall|c: int, dom: int|
                    0 <= c < cpu && 0 <= dom < masks@.len() ==> (#[trigger] in_mask(masks@, dom, c)
                        <==> cpu_doms@[c] is Some && cpu_doms@[c]->0 == dom),
            decreases nr_cpus - cpu,
        {
            match dom_in_masks(masks, cpu) {
                Ok(dom) => {
                    cpu_doms.push(dom);
                },
                Err(e) => {
                    return Err(e);
                },
            }
            cpu = cpu + 1;
        }
        Ok(Topology { nr_doms: masks.len(), cpu_doms })
    }

    /// Groups CPUs into domains by the cache that they use. CPUs with the same
    /// cache are in the same domain, domains have consecutive numbers in the
    /// order of the caches, and a CPU without a cache belongs to no domain.
    pub fn from_cache_ids(ids: &[Option<usize>]) -> (top: Topology)
        ensures
            top.wf(),
            top.cpus() == ids@.len(),
            forall|cpu: int|
                0 <= cpu < ids@.len() ==> (#[trigger] top.dom_of(cpu) is Some <==> ids@[cpu] is Some),
            forall|a: int, b: int|
                0 <= a < ids@.len() && 0 <= b < ids@.len() && ids@[a] is Some && ids@[b] is Some
                    ==> ((#[trigger] top.dom_of(a))->0 < (#[trigger] top.dom_of(b))->0
                    <==> ids@[a]->0 < ids@[b]->0),
            forall|dom: usize| dom < top.doms() ==> #[trigger] top.inhabited(dom),
    {
        let caches: Vec<usize> = distinct(ids);
        let mut cpu_doms: Vec<Option<usize>> = Vec::new();
        let mut cpu: usize = 0;
        while cpu < ids.len()
            invariant
                cpu <= ids@.len(),
                ascending(caches@),
                forall|c: int|
                    0 <= c < ids@.len() ==> (#[trigger] ids@[c] matches Some(id)
                        ==> caches@.contains(id)),
                cpu_doms@.len() == cpu,
                forall|c: int|
                    0 <= c < cpu ==> (#[trigger] cpu_doms@[c] is Some <==> ids@[c] is Some),
                forall|c: int|
                    0 <= c < cpu ==> (#[trigger] cpu_doms@[c] matches Some(dom) ==> dom
                        < caches@.len() && caches@[dom as int] == ids@[c]->0),
            decreases ids@.len() - cpu,
        {
            match ids[cpu] {
                Some(id) => {
                    let dom: usize = place_of(&caches, id);
                    proof {
                        let k = choose|k: int| 0 <= k < caches@.len() && caches@[k] == id;
                        assert(caches@[k] == id);
                        if dom < k {
                            assert(caches@[dom as int] < caches@[k]);
                        }
                        assert(dom == k);
                    }
                    cpu_doms.push(Some(dom));
                },
                None => {
                    cpu_doms.push(None);
                },
            }
            cpu = cpu + 1;
        }
        let top: Topology = Topology { nr_doms: caches.len(), cpu_doms };
        proof {
            assert forall|a: int, b: int|
                0 <= a < ids@.len() && 0 <= b < ids@.len() && ids@[a] is Some && ids@[b] is Some implies
                ((#[trigger] top.dom_of(a))->0 < (#[trigger] top.dom_of(b))->0 <==> ids@[a]->0
                < ids@[b]->0) by {
                let x = cpu_doms@[a]->0 as int;
                let y = cpu_doms@[b]->0 as int;
                assert(caches@[x] == ids@[a]->0 && caches@[y] == ids@[b]->0);
            }
            assert forall|dom: usize| dom < top.doms() implies #[trigger] top.inhabited(dom) by {
                let id = caches@[dom as int];
                let c = choose|c: int| 0 <= c < ids@.len() && ids@[c] == Some(id);
                let other = cpu_doms@[c]->0 as int;
                assert(caches@[other] == id);
                assert(top.dom_of(c) == Some(dom));
            }
        }
        top
    }

    /// The lowest CPU that belongs to no domain.
    pub fn first_without_domain(&self) -> (res: Option<usize>)
        ensures
            res is None <==> forall|cpu: int|
                0 <= cpu < self.cpus() ==> #[trigger] self.dom_of(cpu) is Some,
            res matches Some(found) ==> {
                &&& found < self.cpus()
                &&& self.dom_of(found as int) is None
                &&& forall|cpu: int| 0 <= cpu < found ==> #[trigger] self.dom_of(cpu) is Some
            },
    {
        let mut cpu: usize = 0;
        while cpu < self.nr_cpus()
            invariant
                cpu <= self.cpus(),
                forall|c: int| 0 <= c < cpu ==> #[trigger] self.dom_of(c) is Some,
            decreases self.cpus() - cpu,
        {
            if self.cpu_domain_id(cpu).is_none() {
                return Some(cpu);
            }
            cpu = cpu + 1;
        }
        None
    }

    /// The number of CPUs.
    pub fn nr_cpus(&self) -> (res: usize)
        ensures
            res == self.cpus(),
    {
        self.cpu_doms.len()
    }

    /// The number of domains.
    pub fn nr_doms(&self) -> (res: usize)
        ensures
            res == self.doms(),
    {
        self.nr_doms
    }

    /// The domain that a CPU belongs to.
    pub fn cpu_domain_id(&self, cpu: usize) -> (res: Option<usize>)
        requires
            cpu < self.cpus(),
        ensures
            res == self.dom_of(cpu as int),
    {
        self.cpu_doms[cpu]
    }

    /// Checks the size of the machine, the number of CPUs first.
    pub fn check_limits(&self) -> (res: Result<(), LimitError>)
        ensures
            res is Ok <==> self.within_limits(),
            res == Err::<(), LimitError>(LimitError::TooManyCpus) <==> self.cpus() > MAX_CPUS,
            res == Err::<(), LimitError>(LimitError::TooManyDoms) <==> self.cpus() <= MAX_CPUS
                && self.doms() > MAX_DOMS,
    {
        if self.nr_cpus() > MAX_CPUS {
            return Err(LimitError::TooManyCpus);
        }
        if self.nr_doms() > MAX_DOMS {
            return Err(LimitError::TooManyDoms);
        }
        Ok(())
    }

    /// The domain of each CPU. A CPU that was offline when the domains were
    /// built is ignored: its entry is 0, which the table of the kernel side
    /// starts with.
    pub fn cpu_dom_id_map(&self) -> (res: Vec<u32>)
        requires
            self.wf(),
            self.within_limits(),
        ensures
            res@.len() == self.cpus(),
            forall|cpu: int|
                0 <= cpu < self.cpus() ==> #[trigger] res@[cpu] == (match self.dom_of(cpu) {
                    Some(dom) => dom as int,
                    None => 0,
                }),
    {
        let mut res: Vec<u32> = Vec::new();
        let mut cpu: usize = 0;
        while cpu < self.nr_cpus()
            invariant
                self.wf(),
                self.within_limits(),
                cpu <= self.cpus(),
                res@.len() == cpu,
                forall|c: int|
                    0 <= c < cpu ==> #[trigger] res@[c] == (match self.dom_of(c) {
                        Some(dom) => dom as int,
                        None => 0,
                    }),
            decreases self.cpus() - cpu,
        {
            let dom: u32 = match self.cpu_domain_id(cpu) {
                Some(dom) => dom as u32,
                None => 0,
            };
            res.push(dom);
            cpu = cpu + 1;
        }
        res
    }
}

} // verus!
