# cursorforge

A verified library for turning pictures into Windows cursors and back, and
for the decisions around the pointer scheme, written in Verus.

- `src/` is the library. Its functions are verified: each contract is
  proved, and the laws the library keeps are public proof functions
  (`law_*`). The exceptions are the few trusted wrappers through which it
  calls outside code, marked `#[verifier::external_body]`: `String::push`
  (`text::push_char`), the `image` crate's PNG decoding of an icon entry
  (`icon_reader::decode_png`), and its decoders for an imported picture
  (eight small functions in `pipeline`). Each names what the outside code
  returns and claims nothing more; what the library does with it is
  proved. The modules cover the bitmap and its edits (`bitmap`), the
  `.cur`, `.ani` and `.ico` writers (`cur_writer`, `ani_writer`,
  `ico_writer`), the readers
  (`icon_reader`, `ani_reader`) and the proofs that what is written reads
  back (`round_trip`, `ani_round_trip`), the background cut (`matte`,
  `keying`, `crumbs`, `despill`, `regions`, `board`, `keyability`), the
  import pipeline (`pipeline`, `rescale`, `hotspot`), the tools for
  judging and redrawing artwork (`sheet`, `trace`), the pointer roles and
  scheme (`roles`, `scheme`, `cursor`, `restore`, `crosschannel`, `engine`,
  `watchdog`), and the app's commands, backups and report (`commands`,
  `backup`, `diagnostics`, `autostart`, `channel`, `settings`).
- `tests/` runs the library on concrete inputs.
- `app/` is the ordinary Rust around it: resampling and rendering through
  the image crates, the floating-point colour and geometry work, file and
  archive I/O, the decode thread and its timeout, and the serialisable
  copies of the library's types. Decoding an import is the library's
  (`pipeline::decode`, over the `image` crate).
