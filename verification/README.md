# distortion_pedal

The verified core of a real-time guitar distortion pedal with a spectrum
analyser.

- `src/sample_queue.rs`: the bounded FIFO (a `ringbuf` heap ring buffer of
  sample bit patterns) between the capture and playback callbacks: capturing
  the first channel of each input frame, serving one input per output frame
  with silence on underrun, and writing each output sample to every channel.
- `src/frame_buffer.rs`: framing of output samples into analysis frames.
- `src/spectrum_view.rs`: which analyser bins each display bar averages.
- `src/stats.rs`: the monitor's throughput figures.
- `app/`: the audio devices (cpal), the floating-point signal processing and
  FFT (rustfft), and the window and widgets (eframe/egui).

Samples cross the library as `u32` bit patterns of their `f32` values, so the
library carries them without computing on them.
