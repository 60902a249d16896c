# egorec

A Verus-verified library for `.egorec` v2 recordings (synchronized RGB + depth
video with a frame index and footer) and the tools around them.

`src/` is the verified library:

- `byte_order`, `text`: little/big-endian fields and decimal/hex renderings.
- `format`: the header, frame block header, index entry and footer, with
  read/write round-trip lemmas.
- `writer`, `scanner`, `reader`: writing recordings (frame by frame or by
  copying a span), scanning and validating them, opening them and stepping
  through their frames; lemmas relate what is written to what is read back.
- `h264_annex_b`, `mp4_mux`, `convert`, `video_server`, `proxy`: H.264
  Annex-B parsing, MP4 / fragmented MP4 muxing, and the conversions built on
  them.
- `tfrecord`, `rlds`: protobuf `tf.train.Example`, TFRecord framing and RLDS
  steps.
- `clip`, `pipeline`, `curation`, `recent`, `config`, `video`, `viewer`,
  `cli`: the decision functions of the command-line tools, the curation
  pipeline and the dataset viewer.

Calls into outside crates (`crc32c`, `sha1`, `hex`, `image`, `urlencoding`)
go through small trusted wrappers whose contracts are stated in their doc
comments.

`app/` is the unverified program around the library: file and process I/O,
JSON files, and the floating-point activity analysis. `tests/` exercises
the library from outside.
