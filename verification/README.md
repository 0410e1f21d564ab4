# Onus

A real-time strategy game whose rules are proved. Two sides gather Alloy, place
buildings, train units and fight until one loses its headquarters. The rules run
at a fixed rate and are a function of the state and the commands alone, so a
match can be replayed from its log and played in lockstep over a network.

The library under `src/` holds the rules, each function with a contract that
Verus proves:

- `sim/content`: what content is playable, lookups, the fingerprint
- `sim/orders`, `sim/command`: who may order what, what an order does, the queue
- `sim/economy`, `sim/combat`, `sim/movement`, `sim/victory`: one tick of each
- `sim/ai`: the scripted commanders
- `sim/pathfind`, `sim/spatial`, `sim/near`, `sim/turns`: searching and ordering
- `sim/replay`, `replay_io`: the command log and its file's name
- `net`: frames, the wire form of orders, the lockstep link
- `batch`, `metrics`, `pentagon`, `balance`: playing and reading a balance batch
- `setup`, `headless`, `netpeer`: the openings of a match
- `input`, `client`, `ui`: what a click means, what the panel says
- `float`, `ratio`, `big`, `text`, `counting`: arithmetic and texts underneath

Floating-point numbers are held as their bits. The library compares them and
carries them; sums, products and roots are taken by the caller, who hands over
the distances and points that a rule asks for. The public `proof` functions are
the laws: what holds of every match, whatever the numbers are.

`app/` is the game around the library: the window, the data files, the socket,
the batch runner. `tests/` runs the library on concrete matches.
