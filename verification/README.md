# DeepSeek Harness desktop client

A Windows desktop client that embeds a WebView2 browser control and loads the DeepSeek Harness Web
GUI at <http://127.0.0.1:3080/>. It looks after the service behind that GUI: on startup it stops
whatever listens on port 3080, starts `npx @deepseek-ai/dsh web` and waits for it; on exit it stops
the service again. Whoever listened on the port just before the start, and has not gone since, is not
taken for the service.

- `src/` is the library: what a `netstat` listing says, which commands are run, when the worker
  waits, tells and cleans up, what the status page holds, which frame of the icon is taken. All of it
  is verified with Verus.
- `tests/` runs it.
- `app/` is the program: it runs the commands, reads the clock, and drives the window. It embeds
  `assets/fallback.html` (the template of the status page, with the slots `__INDICATOR__` and
  `__STATUS__`) and `assets/dsh-whale.ico`, which are kept apart from the sources.

Times are in nanoseconds throughout.
