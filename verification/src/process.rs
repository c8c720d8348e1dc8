pub mod loader;
pub mod pcb;
