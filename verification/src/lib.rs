pub mod combine;
pub mod errors;
pub mod events;
pub mod pcrs;
pub mod tree;
