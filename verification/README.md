# mc_renderer

Renders the block models of a folder of Minecraft assets to WebP images. The library is written
in Verus: what each function does is stated in its contract and proved.

| module      | what it holds                                                             |
|-------------|---------------------------------------------------------------------------|
| `single`    | single-precision numbers as bit patterns: order, truncation, rounding     |
| `arith`     | the operations that round, supplied by the caller                         |
| `ieee`      | what these operations give by IEEE 754, and what follows for drawing      |
| `text`      | text as a sequence of characters                                          |
| `name_map`  | a map from names to values that keeps its order                           |
| `chain`     | chains of names, and when they end                                        |
| `json`      | the JSON values that textures and frames are written with                 |
| `model`     | models, what they inherit, and how textures are looked up                 |
| `pixels`    | images                                                                    |
| `animation` | animated textures                                                         |
| `raster`    | drawing triangles                                                         |
| `render`    | drawing faces and boxes, and turning a canvas into an image               |
| `order`     | where the order in which boxes are drawn does not matter                  |
| `view`      | where a model stands, and the window that shows it                        |
| `webp`      | encoding an animation                                                     |
| `options`   | the options of a run                                                      |
| `assets`    | where assets are found, which models are drawn, which textures are needed |

`app/` is the program round the library: it reads and writes files, parses JSON, and computes
with floating-point numbers. `tests/` runs the library.

## Numbers with a fraction

The library holds them as `Single`, the bit pattern of a single-precision number, whose exact
value is a whole number of units. Comparing, truncating and rounding to a byte are done and
proved on the bits. Adding, subtracting, multiplying, dividing and converting round, so the
caller hands in a function that does them. A contract then speaks of every meaning that this
function can have: if its results are those of `sem`, the result of the call is the stated
formula over `sem`. One of these meanings is `ieee::ieee`, the arithmetic of IEEE 754 with a single
bit pattern for all that is not a number; that of the machine is handed in by `app/`. Laws that
rest on how numbers are rounded are proved of it. Projections of points are handed in the same way.
