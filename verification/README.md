# braincut_blur

Face and number-plate anonymisation for videos, as a verified library with a
small HTTP service around it.

- `src/` is the library, written in Verus and verified: region blur and
  pixelation on BGR frame buffers, resizing, the live preview, detection
  tracking, the frame-by-frame blur run, FFmpeg command lines, the job batch,
  the service status with its one-job-at-a-time rule, path and URL rules,
  model ids and model selection, and the render job's command line and
  reporting.
- `app/` is the service: the axum HTTP server, FFmpeg processes, the ONNX
  detectors (floating point), file and network I/O.
- `tests/` runs the library on concrete inputs.

Verify with Verus on `src/lib.rs`; the contracts of the public functions
state what each computes, and the `law_*` proof functions state the
properties that hold across calls.
