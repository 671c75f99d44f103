# AgentGit Selfhost

A small, headless, single-owner AgentGit Hub: it keeps agent conversation history as private Git
repositories, stores attachments by their hash, and serves session search and bounded transcript
reads to its owner.

- `src/` holds the rules of the Hub, verified with Verus: tokens and sessions, storage policy and
  upload budgets, what a push may do, indexing, search, reading, and which request is answered how.
- `app/` is the program around them: command line, files, SQLite, Git processes and HTTP.
- `tests/` runs the library.

| Module | Subject |
| --- | --- |
| `state` | tokens, sessions, repositories, set-up |
| `space` | storage policy, usage, upload budget, cleanup |
| `git` | calls of Git, push commands, reference updates, snapshots |
| `receive` | the order in which a push is checked |
| `index`, `search`, `read` | saved events, search results, bounded reads |
| `http`, `lfs`, `smart` | requests and replies, attachments, Git over HTTP |
| `json`, `outside` | values and functions of other crates, with what is relied on of them |
| `text`, `params`, `seqs` | texts, query parameters, sequences |

Each public function states in its contract what it returns for every input. Public proof functions
named `law_*` state what holds across functions.
