# rust_ort_vad

A low-resource WebSocket service for voice activity detection with the Silero
model, and a benchmark of its chunk processing. The logic is a verified Verus
library; the network, the model runtime and floating point stay outside it.

## Layout

- `src/` is the library.
  - `single` compares and rounds single-precision numbers held as bit patterns.
  - `double` rounds double-precision numbers held as bit patterns.
  - `threshold` derives the threshold below which speech may end.
  - `pcm` decodes chunks and builds the window that the model reads.
  - `detector` says when speech starts and ends, and proves what follows over a
    whole stream.
  - `tensor` holds the `ndarray` arrays that the model is handed.
  - `stream` ties window, model state and detector together.
  - `history` proves what holds over the calls of a stream, and `replay` that
    its settings and its audio alone decide what it reports.
  - `session` decides what a connection is told and when it ends.
  - `gate` caps the connections.
  - `text`, `args`, `flags` and `config` read the command line.
  - `bench` is the benchmark.
- `tests/` runs the library.
- `app/` is the program: command line, HTTP and WebSocket, JSON, ONNX Runtime.

## Protocol

`GET /health` answers with the state of the service. `GET /vad` expects binary
WebSocket messages of `pcm_s16le_mono` audio, 512 samples (1024 bytes) at 16 kHz
or 256 samples at 8 kHz, that is 32 ms each. The server sends JSON events:

```json
{"type":"ready","sample_rate":16000,"chunk_samples":512,"format":"pcm_s16le_mono"}
{"type":"speech_start","audio_time_ms":44870,"probability":0.62}
{"type":"speech_end","audio_time_ms":45050,"probability":0.019}
```

A model reply reaches the library as bit patterns, through the function that the
caller passes to `VadStream::handle_pcm_chunk`.
