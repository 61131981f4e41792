# timecloud

Animated word-cloud videos: words of dated articles pass through a sliding
window, and the most frequent words of the window are drawn, growing,
shrinking and fading as the window moves.

The library under `src/` is verified with Verus:

- `cloud` — the sliding window (`TimeCloud`), its word counts and the
  snapshots (`CloudState`) of what is shown, including the ramp that locks
  words in one by one; `model` gives the abstract state and each operation's
  effect, `ranking` the counts and the order in which words are shown, and
  `laws` what holds over any sequence of operations.
- `single` — single-precision arithmetic modelled exactly with integers
  (conversion, quotient, product and ceiling, rounding to nearest, ties to
  even), with which the number of words shown follows the fill of the window.
- `tokenizer` and `text` — splitting text into words (contraction stripping,
  stopwords, optional stemming), stopword files, article file names, dates
  and titles.
- `schedule` — when frames are rendered while words are fed to the cloud:
  preloading, warm-up frames, a frame every few words and a last frame for
  the words left over.
- `layout`, `color`, `render`, `report` — the integer rules of the layout
  engine and of frame rendering, and the run report's markers.

`app/` is the command-line program: file and process I/O, fonts, images and
the floating-point physics of the layout.
