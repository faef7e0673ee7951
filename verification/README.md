# mkvhdr10plus

Generates HDR10+ dynamic metadata (Profile B) from an HDR10 source and injects
it into the original HEVC stream without re-encoding.

- `src/` is the verified library:
  - `scene`: cut admission, per-frame scene labels, the scene summary, and the
    laws that relate them;
  - `measure`: 10-bit sample reads, bilinear chroma taps, the `maxRGB`
    histogram accumulator (with its merge laws) and nearest-rank percentiles;
  - `json`: the HDR10+ document model and its assembly, proved to meet the
    validation rules of `hdr10plus_tool`;
  - `pipeline`: the per-frame analysis decisions (sampling, repeated
    measurements and scene cuts), analysis resolution, frame rate, file names,
    the remux tool and its frame-rate arguments, and the document of a run;
  - `external`: which required tools are missing, the tool path in a
    locator's output, and the check of the metadata extracted back from the
    injected stream (parsed with serde_json behind one trusted wrapper).
- `app/` is the command-line program: argument parsing, decoding with FFmpeg,
  the floating-point colour conversion and PQ EOTF, JSON serialization, and the
  external `ffmpeg` / `hdr10plus_tool` / `mkvmerge` invocations.
- `tests/` exercises the library on concrete values.
