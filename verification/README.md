# planner

Policies for hierarchical task networks whose actions have several possible
outcomes. The library is written in Verus: what each function returns is stated
in its contract and proved.

## What it holds

- `domain`, `task_network`, `problem`, `named`: facts, actions, tasks with their
  methods, task networks, and problems, which may be given by names.
- `progress`: one step of carrying out a network, an action or a decomposition.
- `hmax`, `lmcut`, `costs`, `graphplan`, `ff`, `prob`, `dot`: heuristics for
  classical domains without deletes, and the planning graph, which can be drawn.
- `composition`: the classical reading of a problem that the search asks for
  bounds.
- `signature`, `policy`, `reach`, `proper`, `lower_bound`, `search_space`,
  `andstar`: partial policies, the graphs of what they reach, and the best-first
  search through them, for the greatest probability of success (`run`) or for
  certain success with the fewest assignments (`run_fond`).
- `goal_checks`: whether a path through task networks is a solution, and the
  partially ordered network that is left of it.
- `*_laws`, `dead_ends`, `determined`, `optimality`: what holds of the functions
  together, such as what it means that a heuristic gives up, that every cut is a
  landmark, that the sweeps of the value iteration come to an end and how far the
  values are then from what a graph is worth, that growing a graph gives what is
  built from the start, that a search goes one way only, that no partial policy
  promises less than what comes of it, that `run` leaves out nothing better
  within the precision of the values, and that no policy that succeeds for
  certain is shorter than the one that `run_fond` finds.

Probabilities are integers in units of `1 / ONE`. Values of policies are rounded
down, and the probability bound of a heuristic is rounded up. Costs and bounds
are integers; `None` stands for an infinite one.

`app/` is the program around the library. It reads a problem from a file and
prints the policy that `run` finds.
