# hep-ci

Continuous integration for the hep ecosystem. It reads the pipeline file
`.hep-ci.yml` of a repository, runs its jobs by hand or when a push is
announced, and keeps a log of every run.

The library under `src/` holds the rules and is verified with Verus; the program
under `app/` reads and writes the files, starts and stops the commands and holds
the connections.

| module | what it holds |
|---|---|
| `text`, `number` | trimming, splitting, searching; decimal numbers |
| `yaml` | the reader for the subset of YAML that pipeline files use |
| `layout` | how documents are laid out: what is written is read back, comments and empty lines say nothing |
| `pipeline`, `file` | jobs and steps, how a document describes them, how they are written down |
| `runner` | what is to be done next in a run: jobs begin when what they need has passed |
| `journal` | what the log of a run says, how a step is set up and judged |
| `run` | records of runs and the log that keeps them |
| `commands`, `report` | what the commands decide and print |
| `webhook` | requests that announce a push |
| `paths`, `clock` | where files lie; times of the calendar |

## Commands

| command | what it does |
|---|---|
| `init` | create a starter `.hep-ci.yml` |
| `run [file]` | run the pipeline now |
| `status [n]` | show the last N runs (default 10) |
| `logs [run-id]` | print the output of a run (default: the last one) |
| `watch` | tail the output of the run that goes on |
| `history` | all runs, with totals |
| `cancel <run-id>` | cancel a run: no further step of it begins |
| `clean [keep]` | delete old logs, keep the N most recent (default 20) |
| `serve [-p port] [-d dir]` | run pipelines when pushes are announced (port 7071) |

## Storage

```
.hep-ci/
  runs.log           one line for each change of a run's status
  logs/<run-id>.log  what the run printed
```

A run id is the local time at which the run began, as `YYYYMMDD-HHMMSS`.

## Time limits

A job may have a `timeout` in seconds. The step that is running when the time of
its job is up is stopped, counts with the exit code 124, and the job has failed.
