//! Picture header (PIH), tool header (TON) and rendering information (RDI).

pub mod parsed;
pub mod picture;
pub mod prefix;
pub mod rendering;
pub mod tools;

pub use picture::{
    ColourTransform, ComponentHeader, OperatingPoint, PictureHeader, QualityMapHeader, Regions,
    SynthesisTiling, LATENT_CHANNELS,
};
pub use rendering::{Cicp, Clli, Mdcv, RenderingInfo};
pub use tools::{
    EfeLinearHeader, EfeLinearSet, EfeNonlinearHeader, EfeNonlinearTiles, IcciHeader, IcciTile,
    ToolHeader, EFE_LINEAR_SPLITS, ICCI_MODELS, ICCI_SHORT_LIST,
};
