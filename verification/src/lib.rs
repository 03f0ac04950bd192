pub mod oscillator;
pub mod pcm;
pub mod sequencer;
