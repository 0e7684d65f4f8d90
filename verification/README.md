# vaumototool

A real-time oscilloscope for 16 analog and 32 digital channels received over
UDP. The library under `src/` holds the logic, with its contracts proved by
Verus; `app/` is the window, the files, the socket and the threads around it.

Library modules:

- `rtmap`: samples and the time-ordered map that holds them.
- `udp`: the packet format, its parser and the receiving state machine
  (clock resynchronisation, demonstration mode, stop).
- `compressor`: the decimating compressor that reduces the samples to what a
  chart can show, run in parallel parts.
- `app_plot`: which samples a view of the time axis covers, keeping the
  compressed view up to date as the view moves, and the points drawn per channel.
- `app`: shared state of the interface, time-axis spans, default colours,
  the framing of scope files and the selection of samples for CSV export.
- `settings`, `settings_write`: the text format of settings files, read one
  line at a time (each value taken into the settings as it is read) and
  written whole; a written file is read back into the settings it came from.

Floating-point work (unit conversion, plot coordinates, demonstration
waveforms, number formatting) stays in `app/`.
