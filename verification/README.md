# shush

Supervised command execution in tmux sessions. A command submitted to a session waits
for a human to approve it; once approved it is typed into the session's tmux pane,
wrapped in APC markers (`ESC _ BEGIN_<nonce> ESC \` … `ESC _ END_<nonce>_<status> ESC \`)
so that its output and exit status can be read back from the terminal stream. Viewers
watch each session through a read-only, filtered stream.

## Layout

- `src/` — the library, verified with Verus: the tmux control-mode grammar, nonces and
  the marker detector, the viewer stream's filters and replay buffer, the session
  registry and the lifecycle of its commands, the tmux and ssh command lines, and the
  command-line grammar. Each public function states its behaviour in `requires` /
  `ensures`; the `*_laws` modules prove what holds across calls (chunking, round trips,
  what each request keeps).
- `app/` — the server around the library: HTTP and WebSocket routes, PTY-attached tmux
  clients, process spawning, and the serde and clap copies of the library's types.
- `tests/` — tests of the library on concrete values.
