pub mod bits;
pub mod waker_page;
pub mod scheduler;
pub mod echo;
