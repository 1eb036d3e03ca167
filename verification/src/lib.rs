//! The logic of a monitor for Linux CPU frequency policies: turning the text
//! of the cpufreq files into policies, the text of a value to write back, the
//! reading of `/proc/<pid>/stat` lines, the tree of the processes that last
//! ran on a CPU drawn as lines of text, and the state and decisions of a
//! terminal view over the policies.
//!
//! Nothing here reads or writes files or draws: the program that uses the
//! library does the I/O and hands the texts it read to these functions.

pub mod numeric;
pub mod text;
pub mod process;
pub mod tree;
pub mod cpu;
pub mod tui;
pub mod version;
