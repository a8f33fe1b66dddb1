# MSS — Multi-Screen Stream

Direct peer-to-peer sharing of several screens. A sharer captures each of its displays and sends
them over one TCP connection; a viewer shows every remote display on a local one, fullscreen.

The project has two parts.

- `src/` is the library. It goes from values to values and is verified with Verus: the wire format
  and session codes, packing and skipping of captured frames, latest-frame-wins slots, placing of
  windows and scaling of pictures, traffic reports and reading them back, and the decisions of the
  launchers. What each function does stands in its `requires` and `ensures`; what holds of several
  functions together stands in the proof functions whose names begin with `law_`.
- `app/` is everything that touches the outside: the command line, sockets, threads, screen
  capture, windows, the launcher's pages, files and child processes.

The library calls `jpeg-encoder`, `zune-jpeg`, `xxhash-rust` and `regex` through small functions
whose contracts are taken on trust; each says in its comment what is claimed of the outside
function.

Build `zune-jpeg` without overflow checks, as a release build does. It adds and multiplies the
coefficients of a file as they come and relies on wrapping where a file is damaged; with overflow
checks `decode_picture` may panic on such a file.

## Command line

```
share
  --bind <host:port>          default 0.0.0.0:9000
  --fps <1..=120>             default 60
  --quality <1..=100>         JPEG quality, default 70
  --skip-unchanged <bool>     skip frames equal to the one before, default true

view
  --connect <host:port>       required
```

## Wire format

```
handshake:  magic u32 LE = 0x5350_3250 ("P2PS")   version u8 = 1   monitors u8
frame:      monitor_id u8   width u32 LE   height u32 LE   data_len u32 LE   data [u8; data_len]
```
