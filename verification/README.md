# geodot

`geodot` downloads satellite map tiles and prepares metadata-only datasets for visual place
recognition. This crate is the library behind the program, verified with Verus: every function of
`src/` carries a contract, and the laws that tie the functions together are proved next to them.

## Layout

| Directory | Contents |
| --- | --- |
| `src/` | The verified library. It decides and computes on plain values. |
| `app/` | The program: arguments, files, the network, and floating point arithmetic. |
| `tests/` | Tests of the library with the crates it calls. |

## The library

| Module | What it is about |
| --- | --- |
| `tile`, `polygon`, `options` | Which tiles a download selects: a grid, a rectangle or a polygon. |
| `geojson` | The polygon of a GeoJSON document. |
| `download`, `ids` | Where tiles come from, where they are written, and how things are named. |
| `demo`, `server` | The page that shows downloaded tiles, and the server that shows the page. |
| `image_header`, `discover` | The source images of a dataset. |
| `patches`, `places` | The mosaics and the places that the images make. |
| `manifest`, `dataset` | The documents of a prepared dataset. |
| `validate`, `render` | What is wrong with a dataset, and which image shows a mosaic. |
| `prepared` | A prepared dataset passes validation once it is read back. |
| `cli` | What the arguments of the program mean. |
| `text`, `order`, `double`, `json` | The values that the rest is written in. |

A prepared dataset passes validation where its documents read back as they were written, or at least
with bounds that still lie on the globe; where no two images are of one tile of a capture, every
image is still there and none states an empty size; and where no rotation is asked for twice.

Coordinates are double precision numbers. The library holds them as bit patterns, compares them and
asks whether they are finite; it never adds or multiplies them. Trigonometry, averages and the
reading of decimal fractions are the program's part.

## What is trusted

The library calls `serde_json` to read documents and `rand` to choose a user agent. What it believes
of these calls, and of the few functions of the standard library that `vstd` does not specify, is
stated in the contracts of the functions marked `external_body` and in `assume_specification`.
