//! Head elements declared from inside a component tree.
//!
//! A component declares elements such as `<title>`, `<link>`, `<style>` or
//! `<meta>` in its own subtree; while the component is mounted, they live in
//! the document's `<head>`. This crate is the engine behind that: it projects
//! a virtual subtree into head declarations, identifies each declaration by a
//! content fingerprint, and counts per fingerprint how many mounted components
//! declare it, so that equal declarations share one head node which stays
//! until the last of them unmounts.
//!
//! The engine never touches a document. It tells its caller which nodes to
//! append to the head and which to take out again.
//!
//! - [`extract`]: from a virtual subtree to head declarations.
//! - [`declaration`]: a head declaration, its fingerprint and its node.
//! - [`attributes`]: the attributes of one element.
//! - [`fingerprint`]: the hash behind the fingerprints.
//! - [`registry`]: the declarations that are in the head, with their counts.
//! - [`lifecycle`]: what a mount and an unmount do.
//! - [`laws`]: what holds of all of this, proved.
//! - [`text`]: the order of names, numbers in decimal.
//!
//! The body of an element is meant to be set as `innerHTML`, so that the
//! bodies of `<style>` and `<script>` work as written. A body must not be
//! built from text that is not trusted.
pub mod attributes;
pub mod declaration;
pub mod extract;
pub mod fingerprint;
pub mod laws;
pub mod lifecycle;
pub mod registry;
pub mod text;
