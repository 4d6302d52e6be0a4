# osf_ort

A face tracker: pictures in, faces with pose, gaze and expression out, as UDP packets and as VMC
messages.

* `src/` is the library, verified with Verus. It holds what the tracker computes and decides:
  preparing pictures for the networks, decoding their outputs, following faces from frame to frame,
  pose, gaze, expression features, smoothing, and the bytes that are sent. Its numbers are IEEE words
  with a proved arithmetic (`src/ieee/`), so contracts speak of exact results. Cosines, sines, arc
  tangents, logarithms and exponentials come in as arguments.
* `app/` is the program around it: arguments, cameras, files, sockets, windows, the networks' runtime
  and the linear solver.
* `tests/` runs the library on concrete values.

Three things are taken from other crates inside the library and believed as stated: how `image`
decodes a picture (`src/picture.rs`), how `rosc` reads a packet (`src/ext.rs`), and that a pushed
character ends a `String` (`src/text.rs`).
