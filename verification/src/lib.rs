//! Verified core of a real-time guitar distortion pedal: the routing of
//! audio samples from the capture callback to the playback callback through
//! a bounded FIFO ring buffer, the framing of output samples for spectrum
//! analysis, the choice of analyser bins per display bar, and the monitor's
//! throughput figures.

pub mod frame_buffer;
pub mod sample_queue;
pub mod spectrum_view;
pub mod stats;
