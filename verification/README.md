# ternary_chronicle

Historical record and narrative generation for ternary state systems, written in
Verus: timestamped events over ternary states, timelines, a chronicle that keeps
one timeline per agent beside the global one, narrative text, an index for
searching, pattern-based forecasting and conservation checks.

Every function in `src/` carries a contract over a mathematical model (events as
`EventView`, timelines and chronicles as `Seq<EventView>`, text as `Seq<char>`),
and Verus proves it. Modules:

- `ternary`: the ternary value and sums of states.
- `event`: events, tags, net delta, reversal, Hamming distance.
- `text`: decimal and list notation used by the narratives and reports.
- `timeline`: ordered events and filters over them.
- `chronicle`: the multi-agent record; its per-agent timelines are, by type
  invariant, the global timeline split by agent.
- `narrative`: summaries, agent stories and blow-by-blow text.
- `index`: positions by tag and by agent, and searches through them.
- `prophet`: cycle detection and the integer part of a forecast.
- `conservation`: sum, continuity and energy checks.

`app/` holds the floating-point confidence of a prediction, which the verified
library does not compute.
