//! Fixed-capacity structures that hand out queue indices in round-robin order.
//!
//! Both structures keep their whole state in a byte buffer that the caller
//! owns: a small header followed by a flat array of slots. A handle holds
//! nothing but the address the buffer was announced under, so several handles
//! used with one buffer see the same table or stack.
//!
//! Nothing here locks the buffer. Whoever shares it between threads or
//! processes has to let one operation finish before the next one starts.

pub mod config;
pub mod error;
pub mod fixed_dict;
pub mod fixed_list;
pub mod iterator;
pub mod mask;
pub mod word;

pub use error::Error;
pub use fixed_dict::FixedDict;
pub use fixed_list::FixedList;
pub use iterator::IndexGenerator;
