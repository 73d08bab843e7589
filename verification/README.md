# zenjpegai

A JPEG AI codec whose codestream layer is verified with Verus: containers and headers, the me-tANS
entropy coder, the geometry of regions and tiles, resource limits, and the decisions of the
encoder's searches.

- `src/` is the library. Contracts state what each function returns over spec functions on
  sequences and integers; public proof functions named `law_..` state what holds across functions,
  such as that a decoder reads back what an encoder wrote.
- `tests/` runs the library.
- `app/` is the command line program and the `zencodec` bridge: input and output, the samples in
  floating point, and the trait behind which the trained networks run. It is linked without a
  runtime for them.
