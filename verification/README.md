# audio_scripting

A small audio scripting engine. Commands typed at a prompt start playbacks of WAV tracks; each
playback feeds a ring of samples, and the engine mixes the rings into the output stream.

    play <track> [as <buffer>] [<start frame> [<frame count>]]
    quit

`src/` is the library, verified with Verus:

- `text`, `command`: reading command lines, words and numbers.
- `wav`, `track`: decoding WAV files with `hound`, and the table of loaded tracks.
- `resample`: taking tracks apart into channels and chunks for a rate conversion, and putting the
  result together again.
- `ring`: the ring of samples between a playback and the mixer, on top of `ringbuf`.
- `playback`, `buffer`, `engine`: selecting samples, feeding a ring, mixing rings into the output.
- `frames`: where the values of a frame lie among interleaved values.

Samples are held as the bit patterns of 32-bit floats. What is done to them as floats (scaling
integers, adding a sample to the output, the rate conversion) is left to the caller.

`app/` is the program around the library: the output device, files, threads, the prompt, and the
floating-point arithmetic.
