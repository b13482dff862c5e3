pub mod extract;
pub mod pipeline;
pub mod record;
pub mod text;

pub use record::{MittyAntennaError, MittyUpdate, UpdateView};
