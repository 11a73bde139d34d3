# impro

An image processor and plotting tool whose logic carries proved contracts.

- `src/ops`: operations on RGBA byte buffers — `crop`, `brighten`, `conv`
  (convolution, blur and pixelation) and `overlay` — each with a contract over
  the bytes of the image, and the comparisons with the `image` crate's own
  operations (`test_brighten`, `test_crop`, `test_overlay`).
- `src/plot`: shapes (`Rect`, `Circ`, `Curve`) and the `Node` trait they implement,
  layers and canvases generic over their node type, a canvas that renders its
  layers one over another, and `Plot2D`, which frames a canvas and draws axes and
  a sampled curve.
- `src/arith.rs`: the arithmetic of pixel grids shared by the proofs.
- `app/`: the program — reading `pfp.jpg`, writing PNG files to `tmp/`, timing,
  and the floating-point parts: the alpha blend and circle-rim blend handed to the
  library as closures, the sampling of an equation, and the `image` crate's blur.
