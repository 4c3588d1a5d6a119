//! Plank: a Dockerfile out of many packages.
//!
//! The packages of a monorepo describe their dependencies in `package.xml`
//! files. From these descriptions the library plans one build layer and one
//! run-time layer per package, puts the dependencies that many packages share
//! into two common base layers, orders the layers so that each comes after
//! those that it copies from, and writes the Dockerfile.

pub mod arguments;
pub mod config;
pub mod dockerfile;
pub mod graph;
pub mod layers;
pub mod names;
pub mod paths;
pub mod patterns;
pub mod plan;
pub mod planner;
pub mod popularity;
pub mod template;
pub mod text;
