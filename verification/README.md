# rent

A plaintext presentation tool: one paragraph of the slide file is one slide,
text is scaled to fit the window, `@file` paragraphs show an image, and the
deck can be exported as a rasterized PDF (`rent -o out.pdf slides`).

## Layout

- `src/` — the verified library:
  - `slide.rs` — the slide-file grammar (`load`), with its laws (comments are
    ignored, no slide is empty, `\` escapes).
  - `img.rs` — farbfeld decoding, other formats through the `image` crate,
    blending over the background, fitting, nearest-neighbour scaling and
    centered drawing.
  - `draw.rs` — channel arithmetic, alpha blending and glyph compositing.
  - `pdf.rs` — frame to RGB, zlib compression through `flate2`, and the PDF
    object/cross-reference layout, with the law that every xref offset points
    at its object.
  - `deck.rs` — the presentation state and what each action does to it.
  - `config.rs` — colors, export size, key and mouse bindings.
- `app/` — the program: arguments, file I/O, the winit/softbuffer window,
  text rendering with fontdb/fontdue (floating point), and writing the PDF.
- `tests/` — tests of the library.
