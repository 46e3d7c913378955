# pragmatic

Durable execution for agents that do not run deterministically: every step an
agent takes is journaled, so that a run survives any crash and replays exactly,
nondeterministic model behaviour included. An agent may go on after a step that
failed; one that tries the very same request again is replayed as if the first
try had succeeded, so retries belong into the oracle (`RetryOracle`), before
anything is journaled.

The library under `src/` is written in Verus. Its functions carry contracts that
the verifier proves, and the guarantees that span several steps are stated as
laws (public proof functions):

- `journal_laws`: a journal reads back from storage what was appended to it, a
  torn tail is cut off, tampering and foreign keys are found out, and the head
  of the chain commits to every event.
- `replay_laws`: a recorded run replays exactly without a model, failures that
  the agent went on after included; a resumed run never samples its journaled
  prefix again; budgets bound draws; changed programs and dangling intents are
  refused.
- `recovery_laws`: recovery leaves no intent dangling, and an intent that has
  reached storage survives a crash.
- `resume_laws`: a run that was cut anywhere and resumed to its end draws afresh
  exactly what the crash has lost, and leaves nothing dangling.
- `names`: no two runs share a journal file.
- `memory`, `supervisor`, `oracle`, `event`, `value`, `export`, `serve`, `abi`
  and `durable` state their own laws beside their functions.

Nothing in `src/` reads a file, opens a socket or sleeps. `app/` is the ordinary
Rust around it: the `pragmatic` command, journal files, model clients over HTTP,
the runtime for async agents, and the C and Python bindings.

| Module | What it holds |
| --- | --- |
| `value`, `fault`, `text`, `table` | Values, faults, text and keyed tables |
| `sha256` | SHA-256, HMAC-SHA-256 and their hexadecimal form |
| `event`, `journal`, `journal_laws` | Events, the hash-chained log and its file format |
| `oracle` | Model calls, retries and the test oracles |
| `ctx`, `storage`, `replay_laws` | The durable execution context, step by step |
| `store`, `names`, `recovery_laws`, `runtime`, `resume_laws` | Journals by run and their files; record, resume and replay |
| `supervisor` | Fault policies, restarts and compensation |
| `memory` | Labelled memory with information-flow control |
| `json`, `http`, `anthropic`, `openai` | Model APIs: requests and replies |
| `cli`, `export`, `serve` | The command, the HTML page and the web console |
| `durable`, `abi`, `bindings` | The `durable` attribute and the language bindings |
