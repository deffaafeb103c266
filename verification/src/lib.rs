//! A declarative-to-imperative reconciliation engine.
//!
//! Callers describe a node tree as an immutable [`view::View`] value and the
//! engine incrementally patches a live graph [`store::Store`] to match that
//! description, reusing nodes where possible and destroying or creating them
//! only when the shape changes. Per-subtree state lives in
//! [`view_handle::ViewHandle`] attributes inside the store; the
//! [`driver::update_views`] cycle finds dirty subtrees, detaches their
//! handles, rebuilds them and reattaches.

pub mod driver;
pub mod node_span;
pub mod store;
pub mod view;
pub mod view_handle;

pub use driver::update_views;
pub use node_span::NodeSpan;
pub use store::Store;
pub use view::Cx;
pub use view::ElementContext;
pub use view::View;
pub use view_handle::ViewHandle;
pub use view_handle::ViewState;
