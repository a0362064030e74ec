# quill

The document model of Quill, a layout tool for tabletop and small-press books, with its rules
proved by Verus.

- `src/` is the verified library: page numbering and folios, page parity and master-page choice,
  index collation, block identities and footnote order, the authoring import grammar, component
  and pack validation, version gates, pack resolution, book composition, container entry rules,
  style-name precedence, the ink limit on CMYK pixels, and the wording of every error. Each public
  function states its result in its contract; the laws that relate several functions are public
  proof functions (`lemma_*`).
- `tests/` runs the library on concrete inputs.
- `app/` is the unverified shell: the serializable document tree (everything in it that holds a
  measurement or a colour), the bundled styles, templates and component definitions, JSON
  migration, the `.tpub`/`.qpack`/book files on disk, the installed-pack directory, and the
  floating-point colour arithmetic.
