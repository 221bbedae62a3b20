# zj-agents

Coding-agent awareness for Zellij: an engine plugin that finds agent panes, classifies
their viewports with per-agent manifests and batches desktop notifications, and a
sidebar plugin that lists the agents. The logic lives in a library verified with Verus;
the plugins around it are thin.

## Layout

- `src/` — the verified library.
  - `model`, `protocol`: agent states, observations, the engine/sidebar messages.
  - `text`, `sanitize`: string helpers and the sanitizer for untrusted display text.
  - `state`: the per-pane state machine (baselines, attention, sticky `Done`).
  - `notification`: diagnostic slots, notification templates, the batching queue.
  - `manifest`, `overrides`: agent manifests, detection, classification, and the
    framed override read with its reload coalescing.
  - `idmap`, `strmap`: small ordered maps keyed by ids and by strings.
  - `inventory`: the pane inventory and the host's pane listing.
  - `engine`: the engine as a state machine from events to effects.
  - `view`, `sidebar`: the sidebar's rows, selection, keys and screen.
- `app/` — the two plugins: host events in, effects out; JSON and TOML readers on
  serde copies of the library's types. Built for a wasm target; the sidebar plugin is
  the one registered under `--cfg zj_agents_sidebar`. The engine embeds its bundled
  agent manifests (`<agent>.toml`) from `extras/manifests/`; that directory is not part
  of this tree and has to be supplied for a wasm build.
- `tests/` — tests of the library.

Public proof functions named `lemma_*` state the library's laws: what every transition
keeps, what one call undoes, and what the sidebars and notifications may carry.
