//! A verified core for a small algorithmic-composition pipeline: a Standard
//! MIDI File codec (variable-length quantities, an event-stream scanner, a
//! chunk-level decoder and a file encoder), an order-N Markov chain over
//! pitches, and the composer that trains the chain on a decoded melody and
//! samples a new one from it.

pub mod composer;
pub mod markov;
pub mod midi;
mod rng;
