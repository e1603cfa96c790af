# ss13-map-mcp

Spatial intelligence over Space Station 13 maps, verified with Verus.

The library answers questions about a map (what stands on a tile, where the instances of a type
are, how a cable network runs), edits it without touching what it was not asked to, checks it
against rules written in JavaScript, helps to assemble prefabs step by step, and analyses
`update_overlays` procs to tell which sprites an object can show.

## Layout

- `src/` is the library. Its functions are verified against their contracts, but for the calls into
  other crates that are named under "What is trusted".
  - Texts and tables: `text`, `names`, `counting`, `tables`.
  - Maps: `prefab`, `dmm`, `index`, `layers`, `state`, `saving`, with what holds of them in
    `index_laws` and `state_laws`.
  - The environment: `objtree`, `constants`, `json`, `display`.
  - The prefab builder: `builder`, `builder_tools`.
  - Rules: `rules`, `scripts`, `evaluate`, `js`, `engine`.
  - Tools and rendering: `tools`, `render`, `cli`.
  - Sprites: `syntax`, `analysis`, `patterns`, `brackets`, `overlays`, `overlay_laws`, `walker`,
    `sprites`, `extraction`.
- `tests/` runs the library on concrete values.
- `app/` is the program around it: the MCP server, file access, rendering, and the sprite
  extractor. It needs the `dreammaker` and `dmm-tools` crates.

## What is trusted

The calls into other crates stand behind small functions whose contracts are believed:
`ndarray` holds the grid of a map (`dmm`), `serde_json` writes JSON (`json`), `base64` encodes
images (`render`), and `rquickjs` runs rules (`js`). Three functions of the standard library that
have no specification are treated the same way (`text`). Each says above it what is claimed.
