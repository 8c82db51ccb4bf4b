# glue

A video wall for GPU textures: several videos are decoded on the GPU, converted
to RGBA and handed to the host's textures in step, one frame of every video at
the same presentation time, paced by the audio clock of the first video that
has sound.

## Layout

- `src/` is the library, written in Verus and verified. It holds the decisions
  of the pipeline, each with a contract:
  - `sync` and `align`: which decoded frames are due on the looping timeline,
    how complete sets (one frame per stream, one time) are formed, which audio
    packets are released, when collection is forced and when the timeline
    restarts;
  - `audio`: cutting converted audio into device packets, interleaving planar
    samples, and the playback buffer of the output stream;
  - `color`, `nv12` and `picture`: BT.601 conversion as an integer model of
    the single-precision arithmetic, NV12 layout, and the pixels uploaded for
    picture files (Verus proves the code against the integer model; that the
    model agrees with `f32` evaluation is argued in `color`'s comments and
    checked by the tests against real `f32` arithmetic, not proved);
  - `player`, `state`, `decode`, `layout`, `logs`: the player's queue and
    status codes, the playback state, packet routing and hardware format
    choice, the demo window's grid and keys, and log retention.
  Calls into the `image` and `bytes` crates go through small trusted wrappers
  whose contracts are stated next to them.
- `app/` is ordinary Rust around the library: the C interface for hosts such as
  Unity, CUDA and FFmpeg calls, threads and channels, the audio device, and the
  demo windows.
- `tests/` exercises the library on concrete values.
