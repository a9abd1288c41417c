# rich-typography-rs

Large decorative text for the terminal, drawn with Unicode box-drawing
glyphs, on top of [rich-rs](https://crates.io/crates/rich-rs). The library is
written in Verus: its fonts, glyph maps, layout, wrapping and rendering carry
`requires`/`ensures` contracts that Verus proves.

## Layout

- `src/` — the verified library.
  - `glyph`, `layout`, `sheet`: glyph maps, merging glyph rows with letter
    spacing and kerning, cutting glyph sheets into glyphs.
  - `ini`, `toff`, `font`, `builtin`, `line`: the `.toff` font format, fonts
    and their line decorations, the bundled fonts.
  - `typography`, `style`, `styling`: styled text, spans and style borders.
  - `ligature`, `measure`: glyph splitting with ligatures, widths.
  - `fit`, `wrapping`, `justify`, `render`, `page`: truncation, word
    division, wrapping, full justification and rendering to segments.
  - `richtext`: rich's markup reading and its line splitting, tab expansion
    and division, behind trusted wrappers whose results are named.
  - `laws`: properties of the library as a whole, stated and proved.
- `tests/` — tests on concrete values.
- `app/` — glue to rich-rs: conversions to and from rich's types, font
  files, the shared built-in fonts, and the `Renderable` implementation.

Layout arithmetic is proved free of overflow. Widths are summed in `i32`
cells: a text can be measured (`Typography::measurable`) when the widest
it could render to fits an `i32`, and laid out (`Typography::renderable`)
when its widest possible row stays within `ROW_LIMIT`, half that range;
rendering also needs every glyph to have at least `line_height` rows. The
`try_*` functions check these conditions.
