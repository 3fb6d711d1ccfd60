pub mod clients;
pub mod headless;
pub mod meter;
pub mod snapshot;
pub mod time_sync;
pub mod world;
