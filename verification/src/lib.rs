//! A free-space manager for a heap built from page-aligned regions.
//!
//! The crate keeps the books of a first-fit allocator: the regions handed
//! over by the platform, the blocks carved out of them, and the index of free
//! blocks. Every structure is addressed by plain machine addresses, so the
//! manager can be driven by any code that owns the memory itself.
//!
//! ```text
//!                     Next free block                Next free block
//!                +----------------------+  +--------------------------------------+
//!                |                      |  |                                      |
//! +--------------|----------------------|--|----+      +--------------------------|-----+
//! |        | +---|--+    +-------+    +-|--|-+  |      |        | +-------+    +--|---+ |
//! | Region | | Free | -> | Block | -> | Free |  | ---> | Region | | Block | -> | Free | |
//! |        | +------+    +-------+    +------+  |      |        | +-------+    +------+ |
//! +---------------------------------------------+      +--------------------------------+
//! ```
//!
//! The allocator keeps track of several regions, each with the blocks that
//! hold what callers asked for, and of the free blocks among them. Two
//! things keep memory from going to waste:
//! - **Block splitting**: a free block larger than a request is cut in two.
//! - **Block merging**: a block that is given back is merged with the free
//!   blocks beside it.
//!
//! [`mmap::MmapAllocator`] is the way in. [`kernel::Kernel`] holds the state
//! and the steps of a request, [`region`], [`block`], [`freelist`] and
//! [`list`] the structures, [`layout`] how they lie in the address space,
//! and [`guarantees`] what holds of the allocator whatever was asked of it.

pub mod block;
pub mod freelist;
pub mod guarantees;
pub mod kernel;
pub mod layout;
pub mod list;
pub mod mmap;
pub mod region;
pub mod utils;
