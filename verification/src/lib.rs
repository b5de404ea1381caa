//! An index-based left-leaning 2-3 red-black tree.
//!
//! The tree threads left/right links through an arena of caller-visible
//! elements, uses a sentinel element in place of null children, packs each
//! right-child link together with the node's color into one machine word,
//! and rebalances bottom-up over an explicit root-to-leaf path, without
//! parent links and without recursion.

pub mod aligned_ptr_pun;
pub mod model;
pub mod red_black;
