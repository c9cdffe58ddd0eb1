# macos_media_toolkit

Camera and screen capture plus hardware HEVC encode and decode for macOS, with the
logic verified by Verus.

- `src/` is the verified library. It calls no macOS framework.
  - `hevc` — Annex B framing, parameter-set extraction, and HEVC slice-header parsing
    and rewriting. `bits` holds the bit-level reader and writer, `emulation` the
    emulation-prevention bytes, `rps` the reference picture sets, `headers` the SPS and
    PPS, `slice` the slice headers; `header_laws` and `slice_laws` say what holds of
    parameter sets and of rewritten slices.
  - `videotoolbox` — the state of a decoder and of an encoder: what is handed to the
    hardware session, and what its answers change. `conceal` decides which references
    stand in for missing ones.
  - `camera`, `screen`, `permission` — the decisions behind opening a capture.
  - `slot` — copying pixel rows, and the latest-frame slot.
- `app/` makes the calls into AVFoundation, ScreenCaptureKit and VideoToolbox.
- `tests/` runs the library on concrete inputs.

Parsers are specified over `bits::Cursor`, a position in a bit sequence that either
stands or has failed; a parser's specification reads like the syntax table it follows.
What holds of every reader, writer and decoder is a type invariant, which no caller can
break.

Public proof functions named `law_...` state what holds across several functions, such
as that a rewritten slice parses back to the references it was given, with its payload
intact.
