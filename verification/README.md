# smoke_voxel

A verified decoder for the voxel journals of smoke grenades, written in Verus.

A journal is a byte blob of frames, `[u16 seq][u16 len][payload]`. A payload may
carry a seed section (a coarse ground footprint) and an extended section
(updates of 64-bit words of a 32 x 32 x 32 occupancy bitset in Morton order).

| Module      | What it holds                                                      |
|-------------|--------------------------------------------------------------------|
| `bytes`     | little-endian integers                                             |
| `frame`     | splitting a journal into frames                                    |
| `seed`      | the seed footprint                                                 |
| `record`    | the occupancy updates of a frame                                   |
| `morton`    | Morton codes of voxels                                             |
| `occupancy` | the live occupancy: applying updates, counting and listing voxels  |
| `column`    | 15-bit column codes of voxels                                      |
| `delta`     | per-frame changes of the occupancy                                 |
| `smoke`     | decoding a whole journal                                           |
| `world`     | offsets of voxels from the detonation position                     |
| `listing`   | ascending listings, used by the contracts                          |

Every public function has an exact contract. The proof functions whose names
start with `law_` state what holds across functions, such as that accumulating
the deltas of a journal reproduces the occupancy after every frame.

`app/` adds the floating-point step from voxels to world positions.
