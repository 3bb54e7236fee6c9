# voxtype

The decisions and computations of a dictation and meeting transcription daemon, verified
with Verus.

## Layout

- `src/` is the library. Verus proves every function in it against its contract.
  - `rounding`, `float32`: single precision arithmetic on bit patterns. Each
    operation is proved to be the exact result, rounded once to the nearest number. The
    rest of the library computes energies, similarities and confidences with it, and its
    contracts can speak of them exactly.
  - `text`, `text_laws`: white space, words, sentences.
  - `meeting::speech`, `meeting::chunk`: voice activity detection, and the way from speech
    regions to transcript segments.
  - `meeting::diarization`: who said what. `simple` goes by the audio source; `embedding`
    by speaker embeddings, with windows (`plan`, `windows`), known speakers (`vectors`,
    `clusters`), speaker runs (`runs`) and splitting (`split`).
  - `meeting::state`, `meeting::record`, `meeting::daemon`, `meeting::persist`,
    `meeting::lookup`: the state of a meeting, its transcript, the daemon, storing meetings and
    looking them up.
  - `tray`: what the system tray icon shows.
  - The modules whose names end in `laws` state what holds across functions.
- `tests/` runs the library. The arithmetic is compared with that of the machine.
- `app/` is what surrounds the library: the tray icon on the desktop, the embedding model
  in ONNX Runtime, the store and the events of meetings.

## What is trusted

- The monotonic clock and lengths of time (`clock`, `since`, `whole_millis` in
  `meeting::chunk`); nothing is claimed of them.
- The number of processors (`cpus` in `meeting::diarization::embedding`): at least one.

Transcribers and diarizers are traits without promises: what the library proves holds
whatever they return.
