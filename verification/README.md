# kuberina_solver

A static scheduling planner for heterogeneous Kubernetes clusters. It reads an
infrastructure document (nodes, labels, taints, DaemonSets) and a workload
document (namespaces of pod declarations, replicas, gangs), and plans where
every pod goes: DaemonSet pre-deduction, a first-fit-decreasing warm start, then
an evolutionary search whose operators respect the hard constraints.

## Layout

- `src/` — the verified library (Verus). Every function carries a contract and
  is proved:
  - `csp` — taint/toleration and node-selector pre-screening, violation counts,
    gang node eligibility;
  - `phase0` — which DaemonSets run on which node;
  - `ffd` — the first-fit node choice of the warm start;
  - `ga` — gang lookup, eligible nodes, crossover genes, swap admissibility and
    gang repair used by the search operators;
  - `fitness` — the integer objectives: active nodes, affinity violations and
    topology-spread excess;
  - `parser`, `gangs`, `workloads` — document headers, replica naming,
    namespace unrolling, declared and implied gangs, and their assembly;
  - `quantity` — the grammar of resource quantities ("300m", "512Mi", "10G");
  - `plan` — search budget tiers, the search's stopping rule and the verdict
    on a plan;
  - `blueprint` — the solution document a plan is exported as;
  - `labels`, `order`, `text`, `model` — the data model and string helpers.
- `app/` — the command-line program around the library: YAML reading, the
  floating-point resource arithmetic (capacities, loads, fitness weights), the
  random search loop, the console report and the writing of the solution
  file.
- `tests/` — tests of the library on concrete inputs.
