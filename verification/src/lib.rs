//! Display-device lifecycle and frame scheduling for a compositing display server.
//!
//! The library keeps the books of the display pipeline: which devices are known, which
//! connectors drive a monitor, which output surfaces exist and what each has in flight,
//! which GPU renders for which device, and what happens to all of that when the session
//! is paused and resumed. The program around it opens devices, talks to the driver and
//! renders; it reports what happened as plain values and carries out what the library
//! decides.

pub mod backend;
pub mod cursor;
pub mod grabs;
pub mod input;
pub mod output;
pub mod state;
