//! A minimal user-space loader for static, self-relocating position-independent
//! ELF executables: segment layout, initial process stack, auxiliary vector.
pub mod page;
pub mod stack;
pub mod loader;

