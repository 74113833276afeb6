//! A fixed-capacity FIFO queue on a ring buffer: all storage is set up once
//! at construction and never grows.
//!
//! The container addresses its contents two ways: by *queue order* (live
//! elements only, holes skipped) and by *slot order* (every slot of the
//! currently used window, holes included, with negative offsets counting
//! backward from the end of the ring). Elements can be removed from the middle of
//! the queue in O(1), leaving a hole; holes are reclaimed by an O(N)
//! compaction pass that runs only when an insertion finds the backing
//! array physically full.

mod window;
mod render;
mod ring;
mod laws;

pub use ring::FrodoRing;
pub use ring::FrodoRingIterator;
pub use render::decimal_digits;
pub use render::digit_char;
pub use render::render_usize;
pub use window::as_slots;
pub use window::live_of;
pub use window::trim;
pub use window::trim_front;
pub use window::trim_back;
pub use window::wrap_index;
