# cpumon

A monitor for Linux CPU frequency policies. The program reads the cpufreq
policies under `/sys/devices/system/cpu/cpufreq` and prints them (`--read`),
or prints its version (`--version`). It also holds a terminal view, not yet
started from the command line, that lists the policies and, for the CPU of the
selected one, the tree of the processes that last ran on it together with
their ancestors.

- `src/` is the library, verified with Verus: reading decimal numbers and
  trimming and splitting text as std does (`numeric`, `text`), the policy
  model (`cpu`), the process table and the parsing of `/proc/<pid>/stat`
  (`process`), the process tree and its drawing as text (`tree`), the view's
  selection, key handling and table sizes (`tui`), and the version line.
- `app/` is the program: command-line parsing, reading sysfs and `/proc`,
  writing policy files, and the terminal loop and drawing.
- `tests/` runs the library on concrete inputs.
