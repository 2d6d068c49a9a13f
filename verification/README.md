# jeprofl

jeprofl profiles the functions of a running process or of a program with eBPF probes. It
counts calls, or measures how long they take, per stack trace, and shows the result as
histograms with power-of-two buckets, as a CSV file and as flame graphs.

The library is verified with Verus: what each function does is stated in its contract and
proved. The application around it does the input and output.

## Library

- `common`, `merge`: keys and histograms.
- `probe`: what the probes in the kernel decide.
- `model`, `session`: metrics, limits, patterns and names of files.
- `symbols`: the functions of an object file, and which of them match.
- `resolver`: stack traces with symbols.
- `aggregator`: per-CPU snapshots added up per stack.
- `collector`: the polling loop as a state machine. `step` takes the result of a piece of
  outside work and gives the next one.
- `report`: `pretty`, `csv` and `flame`.
- `text`: numbers and table cells.
- `fx`: the hash tables of `rustc_hash`.

Proof functions named `law_..` state what holds across functions. Percentages and bar
lengths are floating-point numbers; the reports take them from a function that the caller
passes in.

## Application

`app/` holds the command line, the loading of the probes, the thread that reads the kernel's
maps, the symbolizer and the pager. `app/ebpf.rs` holds the probes; a build for the target of
the kernel takes them from there.

## Options

- `--pid <PID>`, `--program <PATH>`: what to profile; one of them is needed.
- `--function <PATTERN>`: functions to probe, `malloc` by default.
- `--match <contains|exact|regex>`: how patterns are compared with function names.
- `--metric <count|duration>`: what to measure; may be given more than once.
- `--order-by <count|traffic>`: order of the stack traces, `traffic` by default.
- `--sample-every <N>`: take every Nth event.
- `--skip-value <VALUE>`, `--skip-count <COUNT>`: skip stack traces whose total value, or
  total count, over all CPUs is below.
- `--min-time`, `--max-time`: which durations are recorded.
- `--min-count`, `--max-count`: limits of the count metric. They have to leave a value, but
  every call has the value one, and its probe does not look at them.
- `--csv <PATH>`: write a CSV file.
- `--flame <PATH>`: write flame graphs to `<PATH>_by_size.svg` and `<PATH>_by_count.svg`.
