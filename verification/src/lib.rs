pub mod benchmark;
pub mod cameras;
pub mod cli;
pub mod command_queue;
pub mod config;
pub mod ecs;
pub mod ivec3;
pub mod meshes;
pub mod network;
pub mod octree;
pub mod time;
