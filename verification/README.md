# watershed_editor

The logic of a terrain editor, verified with Verus: documents made of fields that GPU shaders
compute, the order those fields bake in, the water that runs over the result, the brush that
paints masks, the recipe a document is saved as, and the decisions its panels make.

A number a document holds is a single-precision pattern (`single::Single`), compared and
stepped exactly. Arithmetic on such numbers is the application's: it hands the library plain
tables of results, and the library decides what is done with them.

## Layout

- `src/` is the library. Its contracts say what each function returns or changes; the modules
  whose names end in `_laws` hold what is promised of the library as a whole.
  - numbers and text: `single`, `number`, `text`, `values`
  - grids: `raster`, `grid`, `heap`
  - water: `flood`, `drain`, `transfer`, `lakes`, `water`, `solve`
  - shader files: `params`, `annotation`, `declaration`, `layout`, `shader`
  - documents: `names`, `layer`, `graph`, `graph_edit`, `graph_remove`, `graph_history`, `field`,
    `recipe`
  - baking: `order`, `topology`, `circles`, `faults`, `terrain`, `evaluate`, `bake`, `quantize`,
    `pack`
  - painting and noise: `brush`, `noise`
  - panels and maps: `toolbar`, `log`, `scroll`, `view`, `maps`, `bind`, `panel`, `form`, `edit`
- `app/` is the arithmetic on floating point, running shaders, and reading and writing recipes on
  disk.
- `tests/` run the library.
