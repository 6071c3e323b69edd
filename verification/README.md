# reco

The decision logic of a panoramic sports camera, verified with Verus: lens
calibration, automatic panning, detector set-up, and the bookkeeping of a
stitching session.

- `src/` is the library. Floating-point numbers are held as their bit patterns
  (`single`, `double`), and their arithmetic is proved to round correctly
  (`rounding`, `arith`), so that contracts and laws can speak of every result to
  the last bit. Files that end in `_laws` hold what follows from the contracts of
  several functions together.
- `tests/` runs the library, among other things against the floating-point
  arithmetic of the machine.
- `app/` is the program around it: command line, files, videos, the graphics
  processor, and the trigonometry and searches whose results the library takes as
  numbers.

What needs a device, a file, a sine or a matrix is done by the caller: a function
of the library takes the outcome as an argument, or says what it wants done next
and takes the outcome as its reply.
