# tohdr

HDR gain-map HEICs: reading what a source says, and writing files that render as HDR.

A HEIC can carry a gain map and still render washed out. Whether it works depends on
container details that no error message reports: which items exist, how they refer to each
other, and whether the declared headroom agrees with what the gain map encodes. This library
holds those rules as Verus contracts, and proves that its code keeps them.

- `iso21496`, `meta`, `binary32`: gain-map metadata and its ISO 21496-1 form
- `heif`: the container -- boxes, reader, muxer, and the engine that ties a codec to them
- `xmp`, `jpeg`, `orient`, `opaque`, `colour`: what travels alongside the pixels
- `encode`, `size`: encoding options, the search for a quality that fits a size
- `par`: how rows are split among workers
- `portable`: the `hpvca` codec, and the readers of TIFF, JPEG and HEIF sources

What a file gives back of what was written is stated in `heif::roundtrip`, `portable::carried`,
`portable::block` and `portable::exif::laws`. Rebuilding a rebuilt Exif block loses no tag, and
where the source lists its tags in ascending order, as TIFF requires, it changes no byte; from
the second pass on it changes none whatever the order. That is in `portable::exif::again`; and
what a rebuilt block says when it is read again, in `portable::exif::again::reread`.

`app/` is ordinary Rust around the library: files, threads, and the arithmetic on pixels, which
is floating point. Every copy of the headroom in a file has to agree; the one that XMP states is
an exponential of the one in the metadata. For a whole number of stops the library writes it; for
any other, whoever encodes hands it over as text, and no file for Apple's readers is written
without.
