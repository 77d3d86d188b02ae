# pitch_detection

Real-time pitch and chord detection from microphone input.

- `src/` is the verified library (Verus):
  - `midi`: MIDI note names in scientific pitch notation, sorting notes
    without repeats, and chord identification by matching the intervals of
    the sounding pitch classes above a root against ten chord shapes, with
    laws on what the chord depends on (pitch classes and bass only; not the
    order, octave or repetition of notes) and how it follows transposition.
  - `dsp`: the buffer that groups incoming samples into analysis windows
    (nothing is lost, repeated or reordered) and the greedy choice of
    spectral peaks (at most six, at least two bins apart, strongest first).
- `app/` is the program around it: audio capture (`cpal`), the ring buffer
  between the capture and processing threads (`ringbuf`), the
  floating-point signal path (Hann window, FFT with `rustfft`, magnitudes,
  noise floor, parabolic interpolation, frequency to MIDI) and the CSV log.
