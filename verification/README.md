# Meeting Transcriber

A local-only app that records a meeting and turns audio into timestamped,
Vietnamese-first transcripts.

`src/` is the library: everything the app decides, with its behaviour stated in
contracts and proved by Verus. It performs no I/O and holds no floating-point
number: times are nanoseconds, samples are 16-bit, and what a device, the disk,
the network or a decoder answered is handed to it as a plain value.

| Module | What it decides |
| --- | --- |
| `chunking` | how a recording is cut, transcribed chunk by chunk and resumed |
| `chunking::recovery` | what a crash can cost: the proof that a resumed transcript is the one an uninterrupted run writes |
| `transcribe` | canned phrases, repeats and silences; the models and their download; how the decoder is driven |
| `audio` | devices, rates, resampling windows, where a block lands in a track, what a recording leaves |
| `merge` | reading transcripts and weaving two of them into one conversation |
| `engine`, `commands`, `recording`, `sidecar` | jobs, batches, recordings, and what the window is told |
| `settings`, `state`, `paths`, `places`, `patterns`, `text` | what they are made of |

`app/` is the program around it: the window and the headless commands, files,
ffmpeg, devices, the network, JSON, and the floating-point signal work.

`tests/` runs the library.
