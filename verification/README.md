# compress_pdf

A command line tool and library that makes PDF files smaller. The logic is a
Verus library: its functions state what they do, and Verus proves it. What an
outside crate computes is stated where that crate is called and believed there;
the few functions that only turn values into those of such a crate and back
state nothing.

- `src/` is the library. `compress` is the entry point; `pipeline` runs the
  stages `usage`, `images`, `font`, `strip` and `structure`; `verify` looks at
  the output with a second reader. `object` and `document` hold a PDF as plain
  values, and `backend` holds the calls into the `lopdf` crate.
- `tests/` runs the library.
- `app/` is the command line around it, with what needs files or floating
  point: rendering, color math, image codecs and the font subsetter.
