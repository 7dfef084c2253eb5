//! Reading and writing Factorio `mod-settings.dat` files, and converting their
//! property trees to and from a JSON-shaped value.

pub mod canonical;
pub mod document;
pub mod endian;
pub mod error;
pub mod immutable_string;
pub mod json;
pub mod json_key_order;
pub mod json_laws;
pub mod json_numbers;
pub mod laws;
pub mod mod_settings;
pub mod property_tree;
pub mod version_order;
