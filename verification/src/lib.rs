//! Global hotkey registration and dispatch: the key-token table, the
//! accelerator parser, the registry that maps logical ids to armed
//! hotkeys, the dispatch lookup that resolves fired events, and the
//! key-combo synthesis planner — everything the OS boundary around them
//! needs decided, with the boundary calls themselves left to the caller.
pub mod keys;
pub mod accel;
pub mod registry;
pub mod synth;
pub mod display;
