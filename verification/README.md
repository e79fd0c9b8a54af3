# png_decoder

Decodes PNG images and writes them as plain-text graymaps (`P2`) and pixmaps (`P3`).
The library under `src/` is verified with Verus; the program under `app/` reads the
files that `tests.txt` lists and writes the results under `out/`.

- `reader`, `chunk`, `crc`: bytes, big-endian integers, chunks and their CRC-32
- `header`, `palette`, `sbit`: the contents of the IHDR, PLTE and sBIT chunks
- `stream`, `stream_laws`: the sequence of chunks that makes up a file
- `bits`, `huffman`, `inflate`, `zlib`: decompression of the image data
- `scanline`, `filter`: the lines of an image and the filters that are undone
- `png`: the decoded image
- `samples`, `ppm`, `ppm_laws`: the text that an image is written as
- `batch`: the lines of the list of images
- `arith`: facts about products that positions in an image rest on

Not handled are interlaced images, chunks other than IHDR, gAMA, sBIT, PLTE, IDAT and
IEND, and the writing of images with an alpha channel.
