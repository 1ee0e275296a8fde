pub mod rounding;
pub mod magnitude;
pub mod scalar;
pub mod vector;
pub mod scene;
pub mod orbit;
pub mod pick;
pub mod frame;
pub mod state;
pub mod viewer;
pub mod laws;
pub mod errors;
pub mod moves;
pub mod pan;
pub mod exact;
pub mod constants;
pub mod spatial;
pub mod framing;
pub mod crop;
pub mod sight;
pub mod settings;
