//! An engine for editing the Windows `PATH` value: the codec between registry
//! bytes, text and entry lists, token expansion, duplicate detection, the
//! choice of registry string subtype, the editable store of one scope, and the
//! decisions of the save and elevation protocols.

pub mod codec;
pub mod elevation;
pub mod encoding;
pub mod expand;
pub mod normalize;
pub mod registry;
pub mod session;
pub mod store;
pub mod text;
pub mod utf16;
