# ant_monitor

Host-side driver logic for ANT Esports IceStorm AIO LCD coolers (and the Vevor / HT
coolers with the same USB HID protocol, and the Antec iUnity coolers), verified with
Verus.

- `src/` is the verified library:
  - `float_bits`: the whole-number byte encodings of `f32` readings, computed from
    their IEEE-754 bit patterns (`b`, floor, hundreds, last two digits, times 100);
  - `frame`: the classic 65-byte frames (value array layout, refresh and shutdown
    frames, year and date bytes) and the 12-byte iUnity packet with its checksum;
  - `text`: whitespace, trimming, words, lines and decimal numbers as the kernel's
    text files need them;
  - `sensors`: choice of the hwmon / powercap / DRM sensor files, parsing of
    `/proc/stat` and `/proc/meminfo`, the CPU-usage and RAPL energy counters;
  - `device`: protocol identification, frame choice per protocol, the meaning of a
    HID write outcome, and the daemon's decision after each refresh.
- `app/` is the program around it: reading `/sys` and `/proc`, the floating-point
  arithmetic, the HID device, signals, the daemon loop and the terminal monitor
  (`--gui`).
- `tests/` runs the library on concrete values.
