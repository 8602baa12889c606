//! Verified core of a small x86_64 kernel: the heap allocators, the plan that
//! maps the heap's pages, the text-mode screen writer, and what a key does to
//! the screen.

pub mod allocator;
pub mod interrupts;
pub mod vga_buffer;
