pub mod cpu;
pub mod disk;
pub mod mem;
pub mod order;
