# qoi_img

A small encoder and decoder for a QOI-style image format, verified with Verus.

- `src/datas.rs`: pixels, the raw-image reader, big-endian conversion, the
  table position of a pixel and the helpers for small and luma differences.
- `src/encode.rs`: the encoder and its model as a state machine over pixels.
- `src/decode.rs`: the decoder and its model as a walk over chunks.
- `src/roundtrip.rs`: decoding what the encoder wrote gives the image back,
  for every image whose chunks the decoder reads as written.
- `src/dbgout.rs`: a readable listing of an encoded stream or a decoded image.
- `app/main.rs`: the command line (`encode` / `decode`), file reading and writing.
