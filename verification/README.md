# wave_function_collapse

Converts nodes and their restrictions into one state per node. Each node lists,
per neighbor, node state collections: "when I am in state S, this neighbor may
only be in one of these states". Collapsing the wave function validates the
input and then runs a backtracking search that gives every node a state
permitted by the collections of the nodes that list it. The search takes the
most restricted node next, and at a dead end walks back to the nearest earlier
node that lists the node that ran out of states; it gives up only when there
is none.

The library under `src/` is verified with Verus:

- `node`: nodes and node state collections.
- `wave_function`: the wave function, its validation and `collapse`; the
  contract of `collapse` states the exact validation message on invalid input;
  on valid input, it ties the answer to a run of the search from the start it
  builds: success gives the states at which that run settles every node (each
  permitted by its neighbors), and failure means that run gave up.
- `validation`: what makes an input valid, and the checks that find the first
  problem.
- `neighbor_masks`: the bit masks that a node in each state places on its
  neighbors, and each node's mapped view of them.
- `mapped_view`, `indexed_view`, `mask`: the two-level oriented map, the
  masked walk over a node's states, and bit masks (`bitvec`).
- `collapse`: the backtracking search itself.
- `sorting`: the stable sort that orders nodes during the search.
- `random`: the seeded generator (`rand_chacha`) that randomizes a collapse.
- `model`, `abstractions`: a small record type and the error types of the
  graph abstractions.

`app/` is a web service (`tide`) that receives a wave function as JSON at
`/collapse` and answers with the collapsed states.

Not included: choosing states by per-state probabilities, saving and loading a
wave function, other collapse strategies (accommodating, accommodating
sequential, entropic), and the proximity-graph and priority-web abstractions,
of which only the error types are here.
