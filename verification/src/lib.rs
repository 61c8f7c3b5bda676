pub mod bigint;
pub mod concurrent;
pub mod counter;
pub mod expected;
pub mod memo;
pub mod moves;
pub mod perms;
