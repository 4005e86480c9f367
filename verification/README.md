# giftorio

Turns animated images (GIF, WebP) into Factorio blueprints: a grid of lamps
driven by combinators that hold the pixel data of every frame, with a timer
that steps through the frames.

The library in `src/` is verified with Verus:

- `image_utils` — frame count and duration of GIF and WebP data, by scanning
  their blocks and chunks.
- `image_processing` — decoding GIF, WebP and raw RGBA input into frames
  (the GIF and WebP decoders of the `image` crate are called behind trusted
  wrappers), which decoded frame becomes which output frame at the target
  frame rate, the number of output frames, rotated sizes.
- `blueprint` — the column layout (timer, substation grid, data combinators
  in columns, lamps) and, in its submodules, the streaming generator:
  signals, substations, lamps, timer, helper combinator layouts, and the
  packing of frames into data combinators with temporal or delta
  compression. The laws that the packing loses nothing (temporal windows and
  delta chunks give back every frame, packed grayscale frames unpack to each
  frame) are proved there.
- `streaming_writer` — the queue of output chunks.

`app/` is the WebAssembly front: option parsing, image scaling,
JSON writing, zlib and base64 encoding, and the entry point `run_blueprint`.
