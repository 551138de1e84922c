# ppm_steg

Hides a text in the lowest bit of the pixel bytes of PPM images and reads it
back, one image or a whole directory of them.

- `src/` is the verified library: the PPM header (`header`), the bit packing
  of a message (`stego`), spreading a message over many images (`plan`),
  reading the texts back and putting them together in file-name order
  (`decode`), the names of the output images (`names`), what decoding gives
  back of a directory that encoding wrote (`directory`), the single-image
  tool's header scan (`single`), and small byte helpers (`bytes`, `slices`).
- `app/` holds the programs around it: the directory tool (`main.rs`,
  `steg.rs`), the single-image tool (`single`), the line-numbering program on
  a thread pool (`number-lines`), and the functions a web page calls.
- `tests/` runs the library on concrete images.
