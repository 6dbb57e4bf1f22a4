//! Synced lyrics and the audio-seeded reaction-diffusion canvas behind them.

pub mod app_id;
pub mod audio_seed;
pub mod cues;
pub mod lrc;
pub mod lyrics;
pub mod lyrics_panel;
pub mod mask;
pub mod pattern;
pub mod reaction_diffusion_view;
pub mod renderer;
pub mod text;
