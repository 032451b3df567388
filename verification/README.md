# skyhook-core

The decisions of an agent harness, verified with Verus: when an agent's command loop
works, answers, completes or stops; what a compaction keeps; how large a context is; which
questions are asked together and where answers go; which of a queued submission's
holders claims or cancels it; how a history is paged; what observers of a session see.

`src/` holds the library. Its functions take plain values and are proved against their
contracts. The laws that span several functions are public proof functions next to the
definitions that they speak of.

| Module | What it decides |
| --- | --- |
| `driver` | the command loop of an agent |
| `agents`, `session`, `builder`, `profile`, `profiles` | launches, limits, settings and submissions |
| `compaction`, `compact` | estimates, summaries, retained messages and checkpoints |
| `context`, `history`, `prompt` | what a model sees of an agent's past and present |
| `questions`, `interaction` | batches of questions, and the ways of their answers |
| `queue` | queued submissions, their tokens and their recovery |
| `observation`, `response` | the snapshot that events lead to |
| `recovery` | waits between attempts, and what failed attempts leave behind |
| `instructions` | which instruction files count |
| `json`, `text`, `identity`, `job`, `journal`, `protocol`, `table`, `todo`, `error`, `model` | the values that the others speak of |

`app/` runs the library: channels, timers, files, provider streams and serialized forms.
`tests/` runs it on examples.
