# chandelier

Candlestick, volume and line charts for terminal user interfaces.

- `src/` is the verified core, written in Verus: the integer geometry of
  every glyph family (eighth blocks, quadrants, braille dots, box drawing),
  wicks, Bresenham polylines, plot layout, the visible window of candles,
  and label, annotation and value-line placement. Each routine writes into a
  `Canvas`, an ordered record of plot-relative cell writes, and its contract
  states what every cell holds afterwards. Laws that span several routines
  (a hollow body shares its filled twin's footprint, a wick never enters its
  body, time labels never collide, a `None` point breaks a line, ...) are
  public proof functions beside the code they speak of.
- `app/` is the Ratatui front end: the widgets and their builders, the
  floating-point scales that round chart geometry onto each glyph grid, axis
  tick formatting, and the replay of a canvas onto a terminal buffer.
- `tests/` runs the library on concrete inputs.
