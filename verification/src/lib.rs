//! Verified core of a demo-recording studio: the project model, scene
//! timing analysis, frame-composition helpers, capture decisions and
//! export planning.
pub mod binary64;
pub mod export;
pub mod external;
pub mod project;
pub mod pixels;
pub mod renderer;
pub mod analysis;
pub mod capture;
