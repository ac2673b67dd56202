//! A segmented FIFO queue: fixed-capacity segments chained through `next`
//! links, each coordinated by three cursors (allocate, commit, consume).
//!
//! The queue is modelled sequentially: every cursor step that the segment
//! protocol performs atomically is an explicit state transition here, and the
//! protocol's ordering invariants (contiguous committed prefix, consume never
//! passing commit, head never passing tail) are proved rather than assumed.

pub mod queue;
pub mod segment;

pub use queue::Queue;
pub use segment::Entry;
pub use segment::Node;
