# scx_rusty

The userspace part of a multi-domain BPF / userspace hybrid scheduler.

The kernel side schedules tasks within each domain and keeps running averages
of the duty cycle of tasks and domains. The userspace part decides, ten times a
second, which CPUs may take work from other domains, and every other second
which tasks move from one domain to another.

## Layout

`src/` is the verified library. It holds every decision and does no I/O.

- `topology`: the CPUs and the domains they are grouped into
- `cpustat`, `tuner`, `cpumask`: utilization, and the CPUs that may take work
- `weights`, `dom_loads`, `load_balancer`: the load of each domain, the limit
  for infeasible weights, and the domains that carry too much or too little
- `load_map`, `migration`, `push`: the tasks that move
- `timing`, `report`, `config`: deadlines, reported figures, kernel settings
- `pow2`, `rounding`, `double`, `approx`: binary64 arithmetic

Loads and shares are binary64 numbers. The library keeps them as bit patterns
(`Double`) and computes on those with integers, so that what an operation
returns is proved: the exact result, rounded to the nearest number, ties to
even. `f64::to_bits` and `f64::from_bits` convert.

Functions named `law_*` state what holds of the library as a whole.

`app/` is the program: options, procfs and sysfs, the BPF skeleton and its maps,
logging. `tests/` runs the library on concrete values and compares it with
floating point hardware and with tree maps.
