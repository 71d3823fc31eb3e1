# avxs

An AV1 encoding service. Videos that lie next to an `encode.toml` are cut into
scenes, the scenes are encoded in parallel with SVT-AV1, and the chunks are joined
with the audio, subtitles and chapters of the source into a finished MKV.

## Layout

`src/` is the library. Everything the service decides or computes stands there, with
contracts that Verus proves:

| Module | What it is about |
|---|---|
| `config`, `validate` | profiles, their defaults and rules, languages |
| `pipeline` | the steps of a job and their order |
| `plan`, `job`, `fingerprint` | what follows from a profile and a source, cached work, waiting |
| `scanner`, `paths` | which files are queued |
| `scene` | chunks: cutting, splitting, clamping |
| `ffms2`, `y4m` | pixel formats, crop rectangles, the frames that reach the encoder |
| `encode` | command lines of the encoder and of ffmpeg |
| `target_quality`, `measure`, `vmaf` | the search for a CRF, and measuring |
| `crop`, `hdr` | black bars, colours |
| `audio`, `subtitle`, `mux` | tracks, and putting the output together |
| `resume` | what lets a later run go on |
| `workers` | how many chunks are encoded at once |
| `text`, `number`, `order`, `strmap`, `ieee` | text, decimal numbers, sorting, maps, floating-point patterns |

The laws of the library are its public proof functions; each says in words what it
proves.

`app/` is the program around the library: files, processes, the decoder, the scene
detector, and floating-point arithmetic.

`tests/` runs the library.

## Conventions

A search counts CRFs in quarter steps, the grid of the encoder; the record of solved
CRFs keeps them as decimal numbers. Floating-point numbers
appear in the library by their bit patterns (`ieee::Real`), which is enough to compare
and to round them.
