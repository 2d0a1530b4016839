//! Decoding of the layer and mask information section of a Photoshop document.

pub mod bytes;
pub mod channel;
pub mod error;
pub mod layer;
pub mod section;
pub mod truncation;

pub use channel::{PsdLayerChannel, PsdLayerChannelError};
pub use error::{DecodeError, DocumentFormat};
pub use layer::{read_layer_record, LayerRecord};
pub use section::{LayerAndMaskInformationSection, PsdLayer};
