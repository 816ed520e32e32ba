//! Reconstructs a PCI Express topology from textual hardware enumeration
//! dumps and renders it as a graph description.

pub mod link;
pub mod machine;
pub mod pci_device;
pub mod pci_addr;
pub mod render;
pub mod text;

use vstd::prelude::*;

verus! {

} // verus!
