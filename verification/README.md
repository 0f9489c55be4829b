# NetMeter

A local bandwidth meter for Linux. A daemon reads the kernel's interface counters,
estimates how much of the traffic was local, and stores samples; the commands show usage by
hour, day, week and month, rank interfaces and programs, watch budgets, and export or import
history.

- `src/` is the library: everything that is decided or computed. Each function states what it
  returns, and Verus proves it. What other crates compute (`jiff`, `pnet`, `serde_json`,
  `toml`) is called through small wrappers, marked `external_body`: what they state of those
  crates is believed, not proved, and each says in its comment what that is.
- `app/` is the program around it: arguments, files, sockets, the database, the terminal.
- `tests/` runs the library on concrete values.

## Modules

| Module | What it holds |
| --- | --- |
| `text`, `double`, `sort`, `tree` | characters and numbers in text, double-precision arithmetic on integers, stable order, JSON and TOML values |
| `calendar` | dates, time zones, the starts of hours, days, weeks and months |
| `capture` | interface counters, local counters, the accounting rules |
| `daemon` | counter differences, samples, budgets, retention |
| `db` | usage rows, buckets, rollups, budget windows, queries |
| `proc_cap` | socket tables, frames, bytes by program |
| `config` | keys and defaults, layers, interface patterns |
| `show`, `report`, `import`, `service` | the commands |
| `live`, `top_proc`, `user_agent`, `fmtx` | the dashboard, the viewer of programs, the notifier, byte counts and dates in text |

Budgets, shares and rates are double-precision numbers. The library computes them on
integers, bit for bit, so that what is shown is defined and proved.
