//! Narrow routing state for saving screenshots.
//!
//! Receiving is temporary. Once a finish has been forwarded, contact loss is
//! unknown. Deadlines live with the routes, one generation per transition. No
//! bytes of a picture enter an observation.

pub mod base64;
pub mod ingress;
pub mod laws;
pub mod manifest;
pub mod model;
pub mod promises;
pub mod router;
