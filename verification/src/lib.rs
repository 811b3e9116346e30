//! Core of a terminal output sniffer that releases "floating bugs".
//!
//! The program wraps the user's shell in a pseudo-terminal. Every byte the
//! shell writes goes to the real terminal unchanged, and also into a
//! [`screen::ScreenBuffer`], which tracks the character shown in every cell.
//! When the output holds an error keyword ([`watcher::Watcher`]), bug emoji
//! are drawn over the text ([`animation::BugManager`]); when a bug moves on
//! or dies, the two cells it covered are written back from the screen
//! buffer, which never learns about the bugs. [`terminal`] formats the bytes
//! that draw, [`daemon`] holds the decisions of the main loop, and
//! [`snooper`] those of the commands that stop the sniffer and report on it.
//!
//! Integer arithmetic follows release builds: where an operation of the
//! sniffer can exceed its type (cursor counts, CSI parameters, ids), it
//! wraps around.
//!
//! The laws of the library are proved in [`control_laws`] and [`csi_laws`]
//! (what text, control codes, cursor moves and erases do to the cells and
//! the cursor), [`screen_laws`] (how the screen
//! model reads what the sniffer writes, and that how the shell's output is
//! cut into reads does not change the tracked screen), [`animation_laws`]
//! (where and how long bugs live) and [`display_laws`]: a tick, a drawing of
//! new bugs, or the exit keeps a terminal that showed the buffer but under
//! the bugs showing it so, and on exit it shows exactly the buffer. Those
//! laws start from a terminal that already showed the buffer; that shell
//! output keeps the two in step follows from the terminal reading the same
//! bytes as the buffer, as one piece, which `law_output_split` makes no
//! different from reading them as the sniffer receives them.

pub mod screen;
pub mod screen_laws;
pub mod terminal;
pub mod animation;
pub mod animation_laws;
pub mod watcher;
pub mod config;
pub mod daemon;
pub mod display_laws;
pub mod snooper;
pub mod control_laws;
pub mod csi_laws;
