pub mod text;
pub mod decimal;
pub mod scaled;
pub mod binary;
pub mod monotone;
pub mod ratio;
pub mod reading;
pub mod duration;
pub mod size;
pub mod trash;
pub mod pattern;
pub mod nav;
pub mod installer;
pub mod paths;
pub mod gitignore;
pub mod copy;
pub mod removal;
