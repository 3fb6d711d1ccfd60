# rs_voxie

The logic of a small voxel engine with client/server networking, written in Verus and
proved against its contracts.

## Layout

- `src/` — the verified library
  - `octree/` — the sparse octree that stores voxel chunks: boxes on the integer grid
    (`bbs`), child origins (`iter_commons`), nodes (`node`), the tree (`tree`) and the laws
    that relate insertion, lookup and growth (`laws`)
  - `network/` — the client registry and message decisions of the server (`clients`),
    the id map between network entities and ECS entities (`world`), snapshot buffering and
    render-time selection (`snapshot`), clock estimation (`time_sync`), traffic metering
    (`meter`) and the tick schedule of the headless server (`headless`)
  - `meshes/` — OBJ text: words and lines (`obj_text`) and the records read from them,
    with face references resolved to positions (`objmesh`)
  - `cli` — the command line, `command_queue`, `time` (clock access), `ivec3`, `config`
- `app/` — the runtime around the library: sockets and threads, the ECS world, serde
  forms of the messages, and the floating-point parts (boxes, meshes, interpolation)
- `tests/` — tests of the library
