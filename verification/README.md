# oxideav-ape

A verified codec for Monkey's Audio (`.ape`), a lossless audio format:
decoder and encoder, from interleaved PCM to whole files and back. The
library is written in Verus; every function of `src/` carries a contract
that is proved, and no item is trusted.

The central theorem is `file_laws::law_file_round_trip`: a file that was
encoded from samples parses, has the parameters it was encoded with, and
decodes to exactly those samples. It is stated for files that the 32-bit
seek table can address.

## Layout

| path | contents |
|------|----------|
| `src/range_coder.rs`, `src/range_laws.rs` | bit input, range decoder and encoder, and why they fit |
| `src/freq_model.rs`, `src/scalars.rs` | frequency tables, scalar constants, the table text |
| `src/entropy.rs`, `src/entropy_laws.rs` | residual coding on all version paths |
| `src/nn_filter.rs`, `src/predict.rs` | adaptive filters and the predictors of one array |
| `src/decorrelate.rs`, `src/pcm.rs`, `src/bounds.rs` | channels, samples and bytes; bounds on residuals |
| `src/predictor.rs`, `src/cascade.rs`, `src/filter_config.rs`, `src/pipeline.rs`, `src/config.rs` | the generic predictor step, filter cascades, and the frame walk |
| `src/frame.rs`, `src/frame_laws.rs` | frames: prologue, checksum, payload |
| `src/header.rs`, `src/file_header.rs` | header prefix and both header layouts |
| `src/md5.rs`, `src/writer.rs` | digest and file layout |
| `src/decoder.rs`, `src/encoder.rs`, `src/file_laws.rs` | whole files |
| `src/registry.rs` | decoding and encoding as packet streams |
| `app/` | registration with the `oxideav-core` framework |

Functions named `law_*` state what holds of several operations together,
such as that decoding undoes encoding at every layer.

## Example

```rust
use oxideav_ape::{encode_wav, ApeDecoder, CompressionLevel};

let ape = encode_wav(&wav, CompressionLevel::High)?;
let pcm = ApeDecoder::new(&ape)?.decode_all_bytes()?;
```
