# skillbench

A token and accuracy benchmark for one question: holding model, effort, task and answer
format fixed, does adding the caveman `SKILL.md` to the system prompt change the billed
output footprint, and does accuracy survive? Two arms, `baseline` and `caveman`, differ
only in the system prompt.

The library (`src/`) is written in Verus and verified; the program around it (`app/`)
does the I/O.

## Library

| module | what it holds |
|---|---|
| `text` | character-level text operations (trim by a character set, replace, split into lines, join, decimal numerals) and their specifications |
| `model` | tasks, samples, requests and responses |
| `grade` | answer normalization and grading: numbers, choice letters, math strings, fenced code, program output; `grade` decides the verdict or the program to run |
| `json` | the JSON values the library reads, member lookup on them, and the calls into `serde_json` that parse and write them |
| `records` | tasks and samples out of JSON documents and their text, saved sample documents, request bodies, responses out of API replies |
| `stdio` | the input/output cases of a stdin/stdout task, from its JSON text, and the pass decision |
| `bench` | arm prompts, the skill body, the stand-in model, and `BenchRun`, the run over tasks × arms × reps |
| `stats` | selections of samples by task, arm and suite, and first-appearance listings |
| `report` | the Markdown report |

Figures that rest on medians (the medians themselves and the percentage changes) are
floating point; the program computes and formats them and hands them to `build_report`.

## Program

```sh
SKILLBENCH_MODEL=<model id> skillbench run     # both arms, fresh; needs rageveil and curl
skillbench mock                                # stand-in model, no API
SKILLBENCH_MODEL=<model id> skillbench report  # regenerate REPORT.md from data/samples.json
```

`SKILLBENCH_ROOT` names the benchmark directory (default `.`), `REPS` the reps per cell
(default 2). Code answers run under `python3`.
