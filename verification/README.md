# procpulse

The verified core of a lightweight Windows process telemetry agent, and the agent
around it.

- `src/` is a Verus library. It decides everything that can be decided from plain
  values: the configuration, which processes are tracked, what a sample adds to a
  window, what a CSV row looks like, when and how the files are rotated, and which
  network events count. Every function has a contract, and the laws that span several
  functions are proof functions whose names begin with `law_`. Which way of writing
  paths the system has rests on the system: `path::is_system_style` stands for its
  answer.
- `app/` is the agent. It calls Windows, reads and writes files, computes percentages,
  and carries out what the library decides.
- `tests/` runs the library on concrete values.

| module | content |
|---|---|
| `text`, `utf16` | characters, trimming, splitting, numbers, UTF-16 |
| `wildcard` | matching with `*` and `?` |
| `config` | defaults, INI file, command line |
| `path`, `literal` | final components of paths, backup paths, literal paths of Windows |
| `output`, `rotation` | CSV fields, rows, file sizes, rolling rotation |
| `win32`, `net` | what Windows reports: times, memory, command lines, network events |
| `metrics`, `monitor` | samples, windows, tracked processes |
| `schedule`, `session` | the main loop's sleep, starting a trace session |
