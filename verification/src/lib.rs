//! The tiling rules of `cleave`, an auto-tiler for the niri compositor.
//!
//! The library decides; the program around it talks to the compositor. It reads events and replies,
//! hands them to [`cleave::Cleave`], and performs the effects that come back.
#![allow(unused_imports)]

pub mod fraction;
pub mod niri;
pub mod window;
pub mod effect;
pub mod rules;
pub mod cleave;
pub mod settle;
pub mod args;
pub mod laws;
pub mod pattern;
pub mod basics;
pub mod screen;
