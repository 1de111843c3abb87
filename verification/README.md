# xiangxue

An HTML + CSS front end for game-UI layout: it parses a page, computes the
style of every element from the page's style sheets, lays the boxes out, and
converts the page into a tree of engine widgets.

## Layout

- `src/` — the verified library (Verus):
  - `dom`, `tree_builder`, `attrs`, `traversal`: the node arena, the steps of
    HTML5 tree construction, sorted attribute lists, document-order walks;
  - `selectors`: compilation of parsed selectors and matching against the
    document;
  - `cascade`, `css_values`, `style`: the cascade of the layout-independent
    properties (display, position, overflow, colors, visibility, z-index,
    font family/weight/style, text alignment), with inheritance and the
    cascade order of origin and importance (rule declarations, inline
    declarations, `!important` rule declarations, inline `!important`
    declarations), rules ordered by specificity and source order;
  - `grid`, `metric`: grid template areas and grid-line values; which
    metric (length, track, transform) values are supported. The template
    areas are gathered by name in a sorted list of attributes rather than a
    `BTreeMap<String, _>`: vstd's contracts for `BTreeMap` hold only for
    key types whose `Ord` is known to obey its model (`obeys_cmp`), which
    nothing establishes for `String`, so no lookup or order through the map
    could be proved; the sorted list carries both as proved facts;
  - `property`: the decisions that turn parsed values into declarations
    (colour resolution, the first font family, metric or ignored);
  - `widget`: the widget tree (`data-widget`, tag classes, inline flex
    direction and scrolling) and its text listing;
  - `text`, `error`, `font`, `box_model`: strings, errors, font keys, sides.
- `app/` — the rest: html5ever and lightningcss parsing, the floating-point
  (metric) half of computed style, layout with Taffy (of the document, and of
  the widget tree for engine back ends), and the command line.
- `tests/` — tests of the library.
