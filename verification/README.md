# win_global_gpu

The verified core of Win Global GPU, a Windows tool that sets the preferred
GPU of every program: the integrated GPU on battery and the dedicated GPU on
wall power.

- `src/` is the library, proved with Verus: wide strings (`wide`,
  `hstring_utils`), the master file table enumeration buffers (`usn`), the
  directory table that rebuilds each `.exe` path (`volume_scan`), the
  collection of a volume's `.exe` paths (`exe_paths`), the volume checks
  (`volume`), the registry write (`registry`), the single-instance takeover
  (`instance`), power messages (`power`), drive strings (`drives`) and the
  command line (`commands`). The registry write, the takeover and the path
  collection are state machines: the library decides the next action, the
  program performs it and reports how it went.
- `app/` is the Windows program around it: system calls, the message loop
  and toasts.
- `tests/` runs the library on concrete values.
