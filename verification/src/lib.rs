pub mod input;
pub mod level_parsing;
pub mod levels;
pub mod raw_level;
pub mod text_utils;
pub mod demo;
pub mod demo_laws;
pub mod wasm;
pub mod pico_args;
pub mod launch;
pub mod game_rules;
