# gloomy

The integer, text and state logic of Gloomy, a declarative UI toolkit, as a
library verified with Verus, and a thin application crate around it.

## Layout

- `src/` — the verified library:
  - `scissor`, `draw_list`: clip rectangles, draw batching, capture and replay;
  - `grid_flow`, `layout`, `widget`, `style`, `datagrid`, `kpi`: grid placement
    of children and the layout and widget settings;
  - `rich_text`, `text_util`, `text_input`: the markup parser, hex colours,
    keyboard editing and tab selection;
  - `data_source`, `validation`: tables of typed cells with stable sorting,
    and input validation rules (patterns through the `regex` crate);
  - `diff`, `cluster`, `pixels`, `grid_math`, `snapshot`: image comparison with
    regions of differences, diff overlays and snapshot paths;
  - `interaction`, `tree`, `theme`, `widget_state`, `designer`: focus and
    pointer state, tree rows, themes, parse caches and the editor's model.
- `app/` — image files and the snapshot workflow on disk, floating-point
  colours and numbers, theme presets and RON theme files.
- `tests/` — tests of the library.

Floating-point geometry (layout sizes, hit testing) and GPU rendering are not
part of the library.
