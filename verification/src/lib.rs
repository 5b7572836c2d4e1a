//! shush: supervised command execution in tmux sessions.
//!
//! Commands submitted to a session wait for approval, then run in its tmux pane wrapped
//! in APC markers so that their output and exit status can be told apart in the
//! terminal stream; viewers watch the pane through a filtered, read-only stream.
//!
//! This crate holds the logic, each function with its contract:
//! - `tmux_event`: the control-mode line grammar, parsed and written
//!   (`tmux_event_laws`: which written lines parse back to their events);
//! - `marker`: nonces, command wrapping and the streaming marker detector
//!   (`marker_laws`: the detector reports every complete marker of the stream, however
//!   it is cut into chunks, and nothing else);
//! - `fe_master`: the viewer stream's output filters, the pump that carries the stream
//!   to viewers and its replay buffer, the viewer count, and snapshot sanitising
//!   (`sequence_filter_laws`, `echo_filter_laws`: what the filters emit over any number
//!   of calls; `snapshot_laws`: an echo shows as its command);
//! - `session`, `session_manager`: sessions and the lifecycle of their commands
//!   (`session_laws`: what every sequence of requests keeps, and what reads back);
//! - `command_executor`: reading a command's output and exit status from the stream, and
//!   recording how an execution ended (`command_executor_laws`: what a command prints
//!   between its markers reads back);
//! - `remote_tmux`, `tmux_control`: the commands sent to tmux, locally or over ssh
//!   (`remote_tmux_laws`: the quoted command line reads back word for word);
//! - `cli`: the command-line grammar;
//! - `text`, `bytes`: character and byte sequence helpers.

pub mod bytes;
pub mod cli;
pub mod echo_filter_laws;
pub mod command_executor;
pub mod command_executor_laws;
pub mod fe_master;
pub mod sequence_filter_laws;
pub mod marker;
pub mod marker_laws;
pub mod remote_tmux;
pub mod remote_tmux_laws;
pub mod session;
pub mod session_laws;
pub mod session_manager;
pub mod snapshot_laws;
pub mod text;
pub mod tmux_control;
pub mod tmux_event;
pub mod tmux_event_laws;
