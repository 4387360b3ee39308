//! Guest-side agent library for provisioning ephemeral containers and
//! driving staged execution pipelines inside them.
//!
//! The crate is organised around the components of the agent:
//! - [`io_bin`]: the binary framing codec (variable-length integers and
//!   length-prefixed byte strings) used for all host/agent traffic;
//! - [`container`]: the transactional container provisioner and the
//!   per-case container handle;
//! - [`inst`]: the instance/mode state machine that owns the case
//!   containers of one logical run;
//! - [`staging`]: the directive tree and the staging engine that
//!   interprets it;
//! - [`dispatch`]: command parsing and response framing for the host
//!   channel, and the live-instance registry;
//! - [`oci`]: construction of the per-container runtime configuration.

pub mod container;
pub mod dispatch;
pub mod inst;
pub mod io_bin;
pub mod oci;
pub mod staging;
