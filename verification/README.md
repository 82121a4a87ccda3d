# seam_carving

Content-aware image resizing by seam carving, with the w2 algorithm of Huang,
Fu, Rosin et al., "Real-time content-aware image resizing" (2009), written in
Verus and proved against its contracts.

- `src/image.rs`: the image buffer (`Image<T>`, its view `ImageView<T>`) and
  the pixel conversions (luma, RGBA), which call the `image` crate.
- `src/energy.rs`: intensities, pixel energies and the bottom-up cumulative
  energies, with the proof that the latter are least path energies.
- `src/seams.rs`: finding all vertical seams (the row-to-row matching), reading
  them back, and choosing the lowest-energy ones.
- `src/carve.rs`: removing seams, one or many, and shrinking an image.
- `src/draw.rs`: drawing seams onto an image.
- `app/main.rs`: a command-line program that loads an image, carves it, and
  writes the results.
- `tests/`: tests of the library on concrete images.
