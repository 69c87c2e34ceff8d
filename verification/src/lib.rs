//! The logic behind the receiver's faces: waterfall history, colour ramps,
//! locators, decoder text, protocol choices and recording uploads.
pub mod history;
pub mod text;
pub mod order;
pub mod locator;
pub mod library;
pub mod colormap;
pub mod targets;
pub mod satellite;
pub mod protocols;
pub mod ring;
pub mod traces;
pub mod bands;
pub mod radio;
pub mod patch;
pub mod df;
pub mod triangulation;
pub mod pick;
pub mod export;
pub mod time_machine;
pub mod video;
pub mod propagation;
pub mod scanner;
pub mod texture;
pub mod playback;
pub mod readout;
pub mod status;
pub mod stitch;
pub mod survey;
