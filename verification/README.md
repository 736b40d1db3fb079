# eqfold

The verified core of an engine that folds EverQuest logs. `src/` is a Verus library: its functions
state what they return or change, and Verus proves it. Of what is read off the machine, the clock and
the platform's zone, nothing is claimed, and which separators the host parts a path by is left open; the
functions that take such a reading say what follows from it.

| Module | What it holds |
| --- | --- |
| `buffs_instances`, `buffs_instance_rules` | the buff instances: landings, fades, deaths, zones, absences, the hygiene sweep |
| `buffs_stats`, `spell_facts` | the duration learner and the catalog it stands on |
| `buffs_shapes`, `buff_rounds`, `buffs_entities`, `buffs_view` | keys, ranks, quartiles, rounds of landings, pets and projected rows |
| `timestamp`, `calendar`, `clock` | stamps, zones, the order zones are resolved in, and the skew of a live tail |
| `world`, `wire`, `views`, `translate` | the generations, the connections, the subscriptions, and what each is sent |
| `foldsink` | what an attach folds into, and the instants it is entitled to |
| `jsmap`, `sorted`, `text` | the maps and the strings under all of them |

`tests/` runs the library with its outside crates. `app/` is the process around it: the handle that
threads share, the records on the wire, and the readings of the machine.

Outside crates are called behind small items whose contracts are believed without proof; each says in
its comment what it calls and what it claims. They stand in `calendar`, `timestamp`, `text` and
`foldsink`.
