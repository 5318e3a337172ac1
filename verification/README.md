# offset_caption

Timestamps and caption blocks of VTT caption files, verified with Verus.

- `src/time.rs`: `SimpleTime` (hours, minutes, seconds, milliseconds), conversion to and
  from milliseconds, and `offset`.
- `src/caption.rs`: `CaptionBlock`, a speaker, start and end times, and text.
- `src/error.rs`: `VttParserError` and its messages.
- `src/grammar.rs`: what reading a timestamp, a header and a block gives, for every text,
  and the laws of that reading.
- `src/text.rs`: characters, UTF-8 widths, splitting, lines and decimal numbers.
- `src/vtt.rs`: `VttParser`, the readers themselves.
