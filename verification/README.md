# pocket-tts

Word-level timestamps for synthesised speech, with the alignment verified in Verus.

The text of the speech is known, so no recognition is needed. An acoustic model gives, for every
frame of audio, the log-probability of every character. The library finds the best way to lay the
characters of the text over the frames and reads off when each word starts and ends. The words
come back as they stand in the text, with their case and punctuation. A word without letters, such
as a number, cannot be laid over frames: it comes back with no duration, at the end of the word
before it. A text of such words alone has no timestamps.

A second way goes from the attention weights of a decoder by dynamic time warping to the same kind
of result.

- `src/alignment/` is the verified library. Modules whose names end in `_laws` state what holds of
  several functions together.
- `app/` runs the models, reads files and converts between floating point numbers and the whole
  units that the library computes with.
- `tests/` runs the library on concrete values.

The library computes with whole numbers: log-probabilities and attention weights are counts of a
unit of the caller's choice, and times are milliseconds. Sums are therefore exact.
