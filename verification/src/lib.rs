//! A thin hypervisor for the Raspberry Pi.
//!
//! The kernel runs at EL2. It brings the board up, loads Linux from the SD card and
//! starts it at EL1 on another core, where Linux drives the USB hardware and hands
//! key strokes back through shared memory. A shell takes commands.
//!
//! Nothing here touches the hardware. A procedure that works with it is a value that
//! says what it wants done next and is told what came back (see [`session`]); what
//! it does as a whole is stated by a *script* that its contract names. Everything
//! else works on plain values: page tables, device trees, pixels, text.

pub mod session;
pub mod text;
pub mod board;
pub mod gpio;
pub mod uart;
pub mod mailbox;
pub mod devices;
pub mod glyph;
pub mod framebuffer;
pub mod terminal;
pub mod hv_console;
pub mod fault_reading;
pub mod emmc;
pub mod sd_model;
pub mod fat32;
pub mod volume;
pub mod card_image;
pub mod loader;
pub mod linux_vm;
pub mod usb_hid;
pub mod ipc;
pub mod device_tree;
pub mod tree_image;
pub mod trampoline;
pub mod kernel;
pub mod reading;
pub mod shell;
pub mod commands;
pub mod cat;
