//! The authoring on-ramp: a small line-oriented syntax that becomes a document's blocks.
//!
//! - `#` … `######` — a heading of that level.
//! - Blank-line-separated runs of text — a body paragraph. Newlines inside one are soft.
//! - `![](asset-id)` — an image block referencing a linked asset by id.
//! - `:::panel` … `:::` — a panel, one `key: value` per line (`:::statblock` is the same fence
//!   under its older name).
//! - `:::table` … `:::` — a table, as pipe-delimited rows; the first row is the header.
//! - `:::toc` … `:::` — a generated table of contents.
//!
//! Nothing is silently dropped: an unknown fence is an error, and anything else the subset does
//! not cover is kept as body text with a warning naming its line.

use vstd::prelude::*;
use crate::components::Panel;
use crate::numbering::{decimal_digits, push_decimal};
use crate::resolve::{parse_u64_chars, parse_u64_spec, string_views};
use crate::text::{
    chars_equal, copy_range, count_leading, first_position, has_prefix, leading_count,
    lemma_first_position, lines_of, push_all, split_chars, split_on, split_lines, split_once,
    split_once_spec, starts_with, str_chars, string_from_chars, trim_char, trim_char_spec,
    trim_chars, trim_spec, views,
};

verus! {

/// Something the importer could not honour, with the line it was on (one-based).
#[derive(Debug, Clone, PartialEq)]
pub struct Diagnostic {
    pub line: usize,
    pub message: String,
}

/// A fatal import problem, with the line it was on (one-based).
#[derive(Debug, Clone, PartialEq)]
pub struct ImportError {
    pub line: usize,
    pub message: String,
}

/// One block the syntax produced.
#[derive(Debug, Clone, PartialEq)]
pub enum ImportedBlock {
    Heading { level: u8, text: String },
    Body { text: String },
    Image { asset: String },
    Panel { panel: Panel },
    Table { header: Vec<String>, rows: Vec<Vec<String>> },
    Toc { title: String, max_level: u8 },
}

/// A panel's fields as character sequences.
pub struct PanelView {
    pub name: Seq<char>,
    pub overview: Seq<Seq<char>>,
    pub attributes: Seq<(Seq<char>, Seq<char>)>,
    pub details: Seq<Seq<char>>,
    pub actions: Seq<Seq<char>>,
    pub reactions: Seq<Seq<char>>,
}

/// An imported block as character sequences.
pub enum BlockView {
    Heading { level: u8, text: Seq<char> },
    Body { text: Seq<char> },
    Image { asset: Seq<char> },
    Panel { panel: PanelView },
    Table { header: Seq<Seq<char>>, rows: Seq<Seq<Seq<char>>> },
    Toc { title: Seq<char>, max_level: u8 },
}

/// A diagnostic as (line, message).
pub type Note = (int, Seq<char>);

pub open spec fn pair_views(v: Seq<(String, String)>) -> Seq<(Seq<char>, Seq<char>)> {
    v.map_values(|p: (String, String)| (p.0@, p.1@))
}

pub open spec fn panel_view(p: Panel) -> PanelView {
    PanelView {
        name: p.name@,
        overview: string_views(p.overview@),
        attributes: pair_views(p.attributes@),
        details: string_views(p.details@),
        actions: string_views(p.actions@),
        reactions: string_views(p.reactions@),
    }
}

pub open spec fn rows_view(rows: Seq<Vec<String>>) -> Seq<Seq<Seq<char>>> {
    rows.map_values(|r: Vec<String>| string_views(r@))
}

pub open spec fn block_view(b: ImportedBlock) -> BlockView {
    match b {
        ImportedBlock::Heading { level, text } => BlockView::Heading { level, text: text@ },
        ImportedBlock::Body { text } => BlockView::Body { text: text@ },
        ImportedBlock::Image { asset } => BlockView::Image { asset: asset@ },
        ImportedBlock::Panel { panel } => BlockView::Panel { panel: panel_view(panel) },
        ImportedBlock::Table { header, rows } => BlockView::Table { header: string_views(header@), rows: rows_view(rows@) },
        ImportedBlock::Toc { title, max_level } => BlockView::Toc { title: title@, max_level },
    }
}

pub open spec fn blocks_view(v: Seq<ImportedBlock>) -> Seq<BlockView> {
    v.map_values(|b: ImportedBlock| block_view(b))
}

pub open spec fn notes_view(v: Seq<Diagnostic>) -> Seq<Note> {
    v.map_values(|d: Diagnostic| (d.line as int, d.message@))
}

// ---- the messages ----

pub open spec fn msg_empty_heading() -> Seq<char> {
    "empty heading; kept as an empty heading rather than dropped"@
}

pub open spec fn msg_pipe_row() -> Seq<char> {
    "a pipe row outside a `:::table` block is kept as text; wrap it in `:::table` to lay it out as a table"@
}

pub open spec fn msg_list() -> Seq<char> {
    "lists are not supported; kept as body text"@
}

pub open spec fn msg_quote() -> Seq<char> {
    "block quotes are not supported; kept as body text"@
}

pub open spec fn msg_unknown_fence(kind: Seq<char>) -> Seq<char> {
    "unknown block `:::"@ + kind + "`; supported: panel, table, toc"@
}

pub open spec fn msg_not_key_value() -> Seq<char> {
    "expected `key: value` in a panel; kept as an overview line"@
}

pub open spec fn msg_bad_attr() -> Seq<char> {
    "an `attr` needs `name = value`; skipped"@
}

pub open spec fn msg_unknown_field(key: Seq<char>) -> Seq<char> {
    "unknown panel field `"@ + key + "`; kept as a detail"@
}

pub open spec fn msg_no_name() -> Seq<char> {
    "panel has no `name:`"@
}

pub open spec fn msg_row_without_pipe() -> Seq<char> {
    "a table row must start with `|`; skipped"@
}

pub open spec fn msg_no_rows() -> Seq<char> {
    "a `:::table` block has no rows"@
}

pub open spec fn msg_bad_level(value: Seq<char>, kept: u8) -> Seq<char> {
    "`max_level` must be 1-6, got `"@ + value + "`; using "@ + decimal_digits(kept as nat)
}

pub open spec fn msg_toc_keys() -> Seq<char> {
    "a `:::toc` block takes `title:` and `max_level:` only; ignored"@
}

// ---- single lines ----

/// `key: value`, split at the first colon and both sides trimmed.
pub open spec fn key_value_spec(t: Seq<char>) -> Option<(Seq<char>, Seq<char>)> {
    match split_once_spec(t, ':') {
        Some((k, v)) => Some((trim_spec(k), trim_spec(v))),
        None => None,
    }
}

/// The level of a heading line: one to six `#` followed by a space.
pub open spec fn heading_level_spec(t: Seq<char>) -> Option<u8> {
    let hashes = leading_count(t, '#');
    if 1 <= hashes <= 6 && hashes < t.len() && t[hashes as int] == ' ' {
        Some(hashes as u8)
    } else {
        None
    }
}

/// The first position among the first `n` where `a` is immediately followed by `b`.
pub open spec fn first_pair(s: Seq<char>, a: char, b: char, n: int) -> Option<int>
    decreases n,
{
    if n <= 0 {
        None
    } else {
        match first_pair(s, a, b, n - 1) {
            Some(i) => Some(i),
            None => if n < s.len() && s[n - 1] == a && s[n] == b { Some(n - 1) } else { None },
        }
    }
}

/// The asset id in `![](id)` or `![alt](id)`: non-empty, after the first `](`, before a final `)`.
pub open spec fn image_asset_spec(t: Seq<char>) -> Option<Seq<char>> {
    if !has_prefix(t, seq!['!', '[']) {
        None
    } else {
        let rest = t.subrange(2, t.len() as int);
        match first_pair(rest, ']', '(', rest.len() as int) {
            Some(close) => {
                let after = rest.subrange(close + 2, rest.len() as int);
                if after.len() > 1 && after.last() == ')' {
                    Some(after.drop_last())
                } else {
                    None
                }
            },
            None => None,
        }
    }
}

/// The warning owed for a line of prose that looks like a construct the subset does not cover.
pub open spec fn prose_notes(t: Seq<char>, line_no: int) -> Seq<Note> {
    if has_prefix(t, seq!['|']) {
        seq![(line_no, msg_pipe_row())]
    } else if has_prefix(t, seq!['-', ' ']) || has_prefix(t, seq!['*', ' ']) {
        seq![(line_no, msg_list())]
    } else if has_prefix(t, seq!['>', ' ']) {
        seq![(line_no, msg_quote())]
    } else {
        Seq::empty()
    }
}

/// `parts` joined with single spaces.
pub open spec fn join_spaced(parts: Seq<Seq<char>>) -> Seq<char>
    decreases parts.len(),
{
    if parts.len() == 0 {
        Seq::empty()
    } else if parts.len() == 1 {
        parts[0]
    } else {
        join_spaced(parts.drop_last()) + seq![' '] + parts.last()
    }
}

/// The blocks so far, with the pending paragraph (if any) closed as a body block.
pub open spec fn flush(blocks: Seq<BlockView>, para: Seq<Seq<char>>) -> Seq<BlockView> {
    if para.len() == 0 { blocks } else { blocks.push(BlockView::Body { text: join_spaced(para) }) }
}

// ---- fences ----

/// The index of the line closing the fence whose body starts at `start`, or the line count if it
/// is never closed (an unterminated fence runs to the end).
pub open spec fn fence_end(lines: Seq<Seq<char>>, start: int) -> int
    decreases lines.len() - start,
{
    if start < 0 || start >= lines.len() {
        lines.len() as int
    } else if trim_spec(lines[start]) == seq![':', ':', ':'] {
        start
    } else {
        fence_end(lines, start + 1)
    }
}

pub proof fn lemma_fence_end(lines: Seq<Seq<char>>, start: int)
    requires
        0 <= start <= lines.len(),
    ensures
        start <= fence_end(lines, start) <= lines.len(),
        forall|k: int| start <= k < fence_end(lines, start) ==> trim_spec(#[trigger] lines[k]) != seq![':', ':', ':'],
        fence_end(lines, start) < lines.len() ==> trim_spec(lines[fence_end(lines, start)]) == seq![':', ':', ':'],
    decreases lines.len() - start,
{
    if start < lines.len() && trim_spec(lines[start]) != seq![':', ':', ':'] {
        lemma_fence_end(lines, start + 1);
    }
}

pub open spec fn empty_panel() -> PanelView {
    PanelView {
        name: Seq::empty(),
        overview: Seq::empty(),
        attributes: Seq::empty(),
        details: Seq::empty(),
        actions: Seq::empty(),
        reactions: Seq::empty(),
    }
}

/// One line of a panel body.
pub open spec fn panel_line(p: PanelView, w: Seq<Note>, line: Seq<char>, line_no: int) -> (PanelView, Seq<Note>) {
    let t = trim_spec(line);
    if t.len() == 0 {
        (p, w)
    } else {
        match key_value_spec(t) {
            None => (PanelView { overview: p.overview.push(t), ..p }, w.push((line_no, msg_not_key_value()))),
            Some((key, value)) => if key == "name"@ {
                (PanelView { name: value, ..p }, w)
            } else if key == "overview"@ {
                (PanelView { overview: p.overview.push(value), ..p }, w)
            } else if key == "detail"@ || key == "details"@ {
                (PanelView { details: p.details.push(value), ..p }, w)
            } else if key == "action"@ || key == "actions"@ {
                (PanelView { actions: p.actions.push(value), ..p }, w)
            } else if key == "reaction"@ || key == "reactions"@ {
                (PanelView { reactions: p.reactions.push(value), ..p }, w)
            } else if key == "attr"@ {
                match split_once_spec(value, '=') {
                    Some((k, v)) => (PanelView { attributes: p.attributes.push((trim_spec(k), trim_spec(v))), ..p }, w),
                    None => (p, w.push((line_no, msg_bad_attr()))),
                }
            } else {
                (PanelView { details: p.details.push(t), ..p }, w.push((line_no, msg_unknown_field(key))))
            },
        }
    }
}

/// The first `n` lines of a panel body, read in order.
pub open spec fn panel_upto(body: Seq<Seq<char>>, first_line: int, n: int) -> (PanelView, Seq<Note>)
    decreases n,
{
    if n <= 0 {
        (empty_panel(), Seq::empty())
    } else {
        let (p, w) = panel_upto(body, first_line, n - 1);
        panel_line(p, w, body[n - 1], first_line + n - 1)
    }
}

/// A panel fence's body: its fields, and the warnings owed (a panel with no name among them).
pub open spec fn panel_spec(body: Seq<Seq<char>>, first_line: int) -> (PanelView, Seq<Note>) {
    let (p, w) = panel_upto(body, first_line, body.len() as int);
    if p.name.len() == 0 { (p, w.push((first_line, msg_no_name()))) } else { (p, w) }
}

/// The trimmed cells of a pipe row.
pub open spec fn cells_of(t: Seq<char>) -> Seq<Seq<char>> {
    split_on(trim_char_spec(t, '|'), '|').map_values(|c: Seq<char>| trim_spec(c))
}

/// A row of markdown furniture (`|---|:--:|`): every cell non-empty and all dashes and colons.
pub open spec fn is_separator_row(cells: Seq<Seq<char>>) -> bool {
    forall|i: int| 0 <= i < cells.len() ==> #[trigger] separator_cell(cells[i])
}

/// A cell of dashes and colons, at least one.
pub open spec fn separator_cell(c: Seq<char>) -> bool {
    c.len() > 0 && forall|j: int| 0 <= j < c.len() ==> (c[j] == '-' || c[j] == ':')
}

/// The first `n` lines of a table body: its rows, and the warnings owed.
pub open spec fn table_upto(body: Seq<Seq<char>>, first_line: int, n: int) -> (Seq<Seq<Seq<char>>>, Seq<Note>)
    decreases n,
{
    if n <= 0 {
        (Seq::empty(), Seq::empty())
    } else {
        let (rows, w) = table_upto(body, first_line, n - 1);
        let t = trim_spec(body[n - 1]);
        if t.len() == 0 {
            (rows, w)
        } else if !has_prefix(t, seq!['|']) {
            (rows, w.push((first_line + n - 1, msg_row_without_pipe())))
        } else if is_separator_row(cells_of(t)) {
            (rows, w)
        } else {
            (rows.push(cells_of(t)), w)
        }
    }
}

/// A table fence's body: header and rows with the warnings owed, or a refusal if it has no rows.
pub open spec fn table_spec(body: Seq<Seq<char>>, first_line: int) -> Result<(BlockView, Seq<Note>), Note> {
    let (rows, w) = table_upto(body, first_line, body.len() as int);
    if rows.len() == 0 {
        Err((first_line, msg_no_rows()))
    } else {
        Ok((BlockView::Table { header: rows[0], rows: rows.drop_first() }, w))
    }
}

/// A `u8` as std's `str::parse::<u8>` reads it.
pub open spec fn parse_u8_chars_spec(s: Seq<char>) -> Option<u8> {
    match parse_u64_spec(s) {
        Some(n) => if n <= 255 { Some(n as u8) } else { None },
        None => None,
    }
}

/// The first `n` lines of a contents fence: its title, its depth, and the warnings owed.
pub open spec fn toc_upto(body: Seq<Seq<char>>, first_line: int, n: int) -> (Seq<char>, u8, Seq<Note>)
    decreases n,
{
    if n <= 0 {
        ("Contents"@, 2, Seq::empty())
    } else {
        let (title, level, w) = toc_upto(body, first_line, n - 1);
        let t = trim_spec(body[n - 1]);
        let line_no = first_line + n - 1;
        if t.len() == 0 {
            (title, level, w)
        } else {
            match key_value_spec(t) {
                Some((k, v)) => if k == "title"@ {
                    (v, level, w)
                } else if k == "max_level"@ {
                    match parse_u8_chars_spec(v) {
                        Some(m) => if 1 <= m <= 6 {
                            (title, m, w)
                        } else {
                            (title, level, w.push((line_no, msg_bad_level(v, level))))
                        },
                        None => (title, level, w.push((line_no, msg_bad_level(v, level)))),
                    }
                } else {
                    (title, level, w.push((line_no, msg_toc_keys())))
                },
                None => (title, level, w.push((line_no, msg_toc_keys()))),
            }
        }
    }
}

// ---- the whole document ----

/// What importing `lines` from line index `i` on gives, with `blocks` and `warnings` so far and
/// `para` the prose lines of the paragraph still open.
pub open spec fn import_from(
    lines: Seq<Seq<char>>,
    i: int,
    blocks: Seq<BlockView>,
    warnings: Seq<Note>,
    para: Seq<Seq<char>>,
) -> Result<(Seq<BlockView>, Seq<Note>), Note>
    decreases lines.len() - i,
{
    if i < 0 || i >= lines.len() {
        Ok((flush(blocks, para), warnings))
    } else {
        let t = trim_spec(lines[i]);
        let line_no = i + 1;
        if t.len() == 0 {
            import_from(lines, i + 1, flush(blocks, para), warnings, Seq::empty())
        } else if has_prefix(t, seq![':', ':', ':']) {
            proof {
                lemma_fence_end(lines, i + 1);
            }
            let b = flush(blocks, para);
            let kind = trim_spec(t.subrange(3, t.len() as int));
            let end = fence_end(lines, i + 1);
            let body = lines.subrange(i + 1, end);
            let next = if end < lines.len() { end + 1 } else { end };
            if kind == "panel"@ || kind == "statblock"@ {
                let (p, w) = panel_spec(body, i + 2);
                import_from(lines, next, b.push(BlockView::Panel { panel: p }), warnings + w, Seq::empty())
            } else if kind == "table"@ {
                match table_spec(body, i + 2) {
                    Ok((table, w)) => import_from(lines, next, b.push(table), warnings + w, Seq::empty()),
                    Err(e) => Err(e),
                }
            } else if kind == "toc"@ {
                let (title, level, w) = toc_upto(body, i + 2, body.len() as int);
                import_from(lines, next, b.push(BlockView::Toc { title, max_level: level }), warnings + w, Seq::empty())
            } else {
                Err((line_no, msg_unknown_fence(kind)))
            }
        } else {
            match heading_level_spec(t) {
                Some(level) => {
                    let text = trim_spec(t.subrange(level as int, t.len() as int));
                    let w = if text.len() == 0 { warnings.push((line_no, msg_empty_heading())) } else { warnings };
                    import_from(lines, i + 1, flush(blocks, para).push(BlockView::Heading { level, text }), w, Seq::empty())
                },
                None => match image_asset_spec(t) {
                    Some(asset) => import_from(
                        lines,
                        i + 1,
                        flush(blocks, para).push(BlockView::Image { asset }),
                        warnings,
                        Seq::empty(),
                    ),
                    None => import_from(lines, i + 1, blocks, warnings + prose_notes(t, line_no), para.push(t)),
                },
            }
        }
    }
}

/// What importing `source` gives: its blocks with the warnings owed, or the fatal problem.
pub open spec fn import_spec(source: Seq<char>) -> Result<(Seq<BlockView>, Seq<Note>), Note> {
    import_from(lines_of(source), 0, Seq::empty(), Seq::empty(), Seq::empty())
}


// ---- nothing is dropped ----

/// Where the top-level scan goes after line `i`: past a fence's closing line (or to the end, for
/// an unterminated fence), else to the next line.
pub open spec fn next_line(lines: Seq<Seq<char>>, i: int) -> int {
    let t = trim_spec(lines[i]);
    if t.len() > 0 && has_prefix(t, seq![':', ':', ':']) {
        let end = fence_end(lines, i + 1);
        if end < lines.len() { end + 1 } else { end }
    } else {
        i + 1
    }
}

/// What the top-level scan does with line `i`, given the blocks, warnings and open paragraph so
/// far: the state it moves on with, or the fatal problem.
pub open spec fn scan_step(
    lines: Seq<Seq<char>>,
    i: int,
    blocks: Seq<BlockView>,
    warnings: Seq<Note>,
    para: Seq<Seq<char>>,
) -> Result<(Seq<BlockView>, Seq<Note>, Seq<Seq<char>>), Note> {
    let t = trim_spec(lines[i]);
    let line_no = i + 1;
    if t.len() == 0 {
        Ok((flush(blocks, para), warnings, Seq::empty()))
    } else if has_prefix(t, seq![':', ':', ':']) {
        let b = flush(blocks, para);
        let kind = trim_spec(t.subrange(3, t.len() as int));
        let end = fence_end(lines, i + 1);
        let body = lines.subrange(i + 1, end);
        if kind == "panel"@ || kind == "statblock"@ {
            let (p, w) = panel_spec(body, i + 2);
            Ok((b.push(BlockView::Panel { panel: p }), warnings + w, Seq::empty()))
        } else if kind == "table"@ {
            match table_spec(body, i + 2) {
                Ok((table, w)) => Ok((b.push(table), warnings + w, Seq::empty())),
                Err(e) => Err(e),
            }
        } else if kind == "toc"@ {
            let (title, level, w) = toc_upto(body, i + 2, body.len() as int);
            Ok((b.push(BlockView::Toc { title, max_level: level }), warnings + w, Seq::empty()))
        } else {
            Err((line_no, msg_unknown_fence(kind)))
        }
    } else {
        match heading_level_spec(t) {
            Some(level) => {
                let text = trim_spec(t.subrange(level as int, t.len() as int));
                let w = if text.len() == 0 { warnings.push((line_no, msg_empty_heading())) } else { warnings };
                Ok((flush(blocks, para).push(BlockView::Heading { level, text }), w, Seq::empty()))
            },
            None => match image_asset_spec(t) {
                Some(asset) => Ok((flush(blocks, para).push(BlockView::Image { asset }), warnings, Seq::empty())),
                None => Ok((blocks, warnings + prose_notes(t, line_no), para.push(t))),
            },
        }
    }
}

/// The import, one line at a time: a line the scan reaches is one step, and the scan carries on
/// from where that step leaves it.
proof fn lemma_import_unfolds(
    lines: Seq<Seq<char>>,
    i: int,
    blocks: Seq<BlockView>,
    warnings: Seq<Note>,
    para: Seq<Seq<char>>,
)
    requires
        0 <= i < lines.len(),
    ensures
        i < next_line(lines, i) <= lines.len(),
        import_from(lines, i, blocks, warnings, para) == match scan_step(lines, i, blocks, warnings, para) {
            Err(e) => Err(e),
            Ok((b, w, p)) => import_from(lines, next_line(lines, i), b, w, p),
        },
{
    lemma_fence_end(lines, i + 1);
}

/// Whether `prefix` starts `s`.
pub open spec fn starts_seq<A>(s: Seq<A>, prefix: Seq<A>) -> bool {
    prefix.len() <= s.len() && s.subrange(0, prefix.len() as int) == prefix
}

/// Whether `t` is set, verbatim, at offset `k` of `b`'s text, `b` being a body block.
pub open spec fn body_text_at(b: BlockView, k: int, t: Seq<char>) -> bool {
    match b {
        BlockView::Body { text } => occurs_at(text, k, t),
        _ => false,
    }
}

/// Whether `t` is set, verbatim, inside some body block of `blocks`.
pub open spec fn kept_in_body(blocks: Seq<BlockView>, t: Seq<char>) -> bool {
    exists|j: int, k: int| 0 <= j < blocks.len() && #[trigger] body_text_at(blocks[j], k, t)
}

/// A line of prose: not blank, and not a fence, a heading or an image.
pub open spec fn prose_line(t: Seq<char>) -> bool {
    &&& t.len() > 0
    &&& !has_prefix(t, seq![':', ':', ':'])
    &&& heading_level_spec(t) is None
    &&& image_asset_spec(t) is None
}

/// Whether the top-level scan, from line `p`, reaches line `i` rather than passing over it inside
/// a fence.
pub open spec fn scan_reaches(lines: Seq<Seq<char>>, p: int, i: int) -> bool
    decreases i - p,
{
    if p < 0 || p > i || p >= lines.len() {
        false
    } else if p == i {
        true
    } else if next_line(lines, p) > i {
        false
    } else {
        proof {
            lemma_fence_end(lines, p + 1);
        }
        scan_reaches(lines, next_line(lines, p), i)
    }
}

/// Whether `t` stands, verbatim, at offset `k` of `s`.
pub open spec fn occurs_at(s: Seq<char>, k: int, t: Seq<char>) -> bool {
    0 <= k && k + t.len() <= s.len() && s.subrange(k, k + t.len()) == t
}

/// Each part of `parts` stands, verbatim, somewhere in their space-joined text.
proof fn lemma_join_keeps_parts(parts: Seq<Seq<char>>, q: int)
    requires
        0 <= q < parts.len(),
    ensures
        exists|k: int| #[trigger] occurs_at(join_spaced(parts), k, parts[q]),
    decreases parts.len(),
{
    let j = join_spaced(parts);
    if parts.len() == 1 {
        assert(j == parts[0]);
        assert(j.subrange(0, parts[q].len() as int) =~= parts[q]);
        assert(occurs_at(j, 0, parts[q]));
    } else if q == parts.len() - 1 {
        let head = join_spaced(parts.drop_last());
        let k = (head.len() + 1) as int;
        assert(j == head + seq![' '] + parts.last());
        assert(j.subrange(k, k + parts[q].len()) =~= parts[q]);
        assert(occurs_at(j, k, parts[q]));
    } else {
        let head = join_spaced(parts.drop_last());
        lemma_join_keeps_parts(parts.drop_last(), q);
        let k = choose|k: int| #[trigger] occurs_at(head, k, parts.drop_last()[q]);
        assert(parts.drop_last()[q] == parts[q]);
        assert(j == head + seq![' '] + parts.last());
        assert(j.subrange(k, k + parts[q].len()) =~= head.subrange(k, k + parts[q].len()));
        assert(occurs_at(j, k, parts[q]));
    }
}

/// A body block keeps what it kept once more blocks follow it.
proof fn lemma_kept_extends(blocks: Seq<BlockView>, more: Seq<BlockView>, t: Seq<char>)
    requires
        kept_in_body(blocks, t),
        starts_seq(more, blocks),
    ensures
        kept_in_body(more, t),
{
    let (j, k) = choose|j: int, k: int| 0 <= j < blocks.len() && #[trigger] body_text_at(blocks[j], k, t);
    assert(more[j] == blocks[j]) by {
        assert(more.subrange(0, blocks.len() as int)[j] == more[j]);
    }
    assert(body_text_at(more[j], k, t));
}

/// What one step keeps: the blocks and warnings so far stay as they were, and an open paragraph
/// either grows by the step's prose line or is closed as the next block.
proof fn lemma_step_keeps(
    lines: Seq<Seq<char>>,
    i: int,
    blocks: Seq<BlockView>,
    warnings: Seq<Note>,
    para: Seq<Seq<char>>,
)
    requires
        0 <= i < lines.len(),
        scan_step(lines, i, blocks, warnings, para) is Ok,
    ensures
        ({
            let (b, w, p) = scan_step(lines, i, blocks, warnings, para)->Ok_0;
            &&& starts_seq(b, blocks)
            &&& starts_seq(w, warnings)
            &&& prose_line(trim_spec(lines[i])) ==> b == blocks && p == para.push(trim_spec(lines[i]))
                && w == warnings + prose_notes(trim_spec(lines[i]), i + 1)
            &&& !prose_line(trim_spec(lines[i])) ==> p.len() == 0 && (para.len() > 0 ==> blocks.len() < b.len()
                && b[blocks.len() as int] == (BlockView::Body { text: join_spaced(para) }))
        }),
{
    let (b, w, p) = scan_step(lines, i, blocks, warnings, para)->Ok_0;
    let f = flush(blocks, para);
    assert(starts_seq(f, blocks)) by {
        assert(f.subrange(0, blocks.len() as int) =~= blocks);
    }
    assert(starts_seq(b, blocks)) by {
        assert(b.subrange(0, blocks.len() as int) =~= blocks);
    }
    assert(starts_seq(w, warnings)) by {
        assert(w.subrange(0, warnings.len() as int) =~= warnings);
    }
}

/// The blocks and warnings so far are where the whole import's start.
proof fn lemma_import_extends(
    lines: Seq<Seq<char>>,
    i: int,
    blocks: Seq<BlockView>,
    warnings: Seq<Note>,
    para: Seq<Seq<char>>,
)
    requires
        import_from(lines, i, blocks, warnings, para) is Ok,
    ensures
        starts_seq(import_from(lines, i, blocks, warnings, para)->Ok_0.0, blocks),
        starts_seq(import_from(lines, i, blocks, warnings, para)->Ok_0.1, warnings),
    decreases lines.len() - i,
{
    if i < 0 || i >= lines.len() {
        let f = flush(blocks, para);
        assert(f.subrange(0, blocks.len() as int) =~= blocks);
        assert(warnings.subrange(0, warnings.len() as int) =~= warnings);
    } else {
        lemma_import_unfolds(lines, i, blocks, warnings, para);
        lemma_step_keeps(lines, i, blocks, warnings, para);
        let (b, w, p) = scan_step(lines, i, blocks, warnings, para)->Ok_0;
        lemma_import_extends(lines, next_line(lines, i), b, w, p);
        let (bb, ww) = import_from(lines, i, blocks, warnings, para)->Ok_0;
        assert(bb.subrange(0, blocks.len() as int) =~= b.subrange(0, blocks.len() as int));
        assert(ww.subrange(0, warnings.len() as int) =~= w.subrange(0, warnings.len() as int));
    }
}

/// Every line of the open paragraph ends up in a body block.
proof fn lemma_open_paragraph_is_kept(
    lines: Seq<Seq<char>>,
    i: int,
    blocks: Seq<BlockView>,
    warnings: Seq<Note>,
    para: Seq<Seq<char>>,
    q: int,
)
    requires
        import_from(lines, i, blocks, warnings, para) is Ok,
        0 <= q < para.len(),
    ensures
        kept_in_body(import_from(lines, i, blocks, warnings, para)->Ok_0.0, para[q]),
    decreases lines.len() - i,
{
    let out = import_from(lines, i, blocks, warnings, para)->Ok_0.0;
    if i < 0 || i >= lines.len() {
        lemma_join_keeps_parts(para, q);
        let k = choose|k: int| #[trigger] occurs_at(join_spaced(para), k, para[q]);
        assert(out[blocks.len() as int] == (BlockView::Body { text: join_spaced(para) }));
        assert(body_text_at(out[blocks.len() as int], k, para[q]));
    } else {
        lemma_import_unfolds(lines, i, blocks, warnings, para);
        lemma_step_keeps(lines, i, blocks, warnings, para);
        let (b, w, p) = scan_step(lines, i, blocks, warnings, para)->Ok_0;
        if prose_line(trim_spec(lines[i])) {
            assert(p[q] == para[q]);
            lemma_open_paragraph_is_kept(lines, next_line(lines, i), b, w, p, q);
        } else {
            lemma_join_keeps_parts(para, q);
            let k = choose|k: int| #[trigger] occurs_at(join_spaced(para), k, para[q]);
            assert(body_text_at(b[blocks.len() as int], k, para[q]));
            assert(kept_in_body(b, para[q]));
            lemma_import_extends(lines, next_line(lines, i), b, w, p);
            lemma_kept_extends(b, out, para[q]);
        }
    }
}

proof fn lemma_reached_prose_is_kept(
    lines: Seq<Seq<char>>,
    p: int,
    blocks: Seq<BlockView>,
    warnings: Seq<Note>,
    para: Seq<Seq<char>>,
    i: int,
)
    requires
        import_from(lines, p, blocks, warnings, para) is Ok,
        scan_reaches(lines, p, i),
        0 <= i < lines.len(),
        prose_line(trim_spec(lines[i])),
    ensures
        ({
            let (out, notes) = import_from(lines, p, blocks, warnings, para)->Ok_0;
            let t = trim_spec(lines[i]);
            &&& kept_in_body(out, t)
            &&& forall|k: int| 0 <= k < prose_notes(t, i + 1).len() ==> notes.contains(#[trigger] prose_notes(t, i + 1)[k])
        }),
    decreases i - p,
{
    let (out, notes) = import_from(lines, p, blocks, warnings, para)->Ok_0;
    let t = trim_spec(lines[i]);
    lemma_import_unfolds(lines, p, blocks, warnings, para);
    lemma_step_keeps(lines, p, blocks, warnings, para);
    let (b, w, q) = scan_step(lines, p, blocks, warnings, para)->Ok_0;
    if p == i {
        lemma_open_paragraph_is_kept(lines, next_line(lines, p), b, w, q, para.len() as int);
        lemma_import_extends(lines, next_line(lines, p), b, w, q);
        assert forall|k: int| 0 <= k < prose_notes(t, i + 1).len() implies notes.contains(#[trigger] prose_notes(t, i + 1)[k]) by {
            let at = warnings.len() + k;
            assert(w[at] == prose_notes(t, i + 1)[k]);
            assert(notes.subrange(0, w.len() as int)[at] == notes[at]);
        }
    } else {
        lemma_fence_end(lines, p + 1);
        assert(next_line(lines, p) <= i);
        lemma_reached_prose_is_kept(lines, next_line(lines, p), b, w, q, i);
    }
}

/// **Nothing the subset does not cover is dropped**: every line of prose the import reaches — not
/// blank, not a fence, a heading or an image, and not inside a fence — is set, verbatim, inside a
/// body block, and one that looks like a list item, a quote or a table row is also warned about,
/// naming its line.
pub proof fn lemma_prose_is_never_dropped(source: Seq<char>, i: int)
    requires
        import_spec(source) is Ok,
        0 <= i < lines_of(source).len(),
        scan_reaches(lines_of(source), 0, i),
        prose_line(trim_spec(lines_of(source)[i])),
    ensures
        ({
            let (blocks, warnings) = import_spec(source)->Ok_0;
            let t = trim_spec(lines_of(source)[i]);
            &&& kept_in_body(blocks, t)
            &&& forall|k: int| 0 <= k < prose_notes(t, i + 1).len() ==> warnings.contains(#[trigger] prose_notes(t, i + 1)[k])
        }),
{
    lemma_reached_prose_is_kept(lines_of(source), 0, Seq::empty(), Seq::empty(), Seq::empty(), i);
}

// ---- executable parts ----

fn text_of(chars: &[char]) -> (s: String)
    ensures
        s@ == chars@,
{
    string_from_chars(chars)
}

fn is_word(chars: &[char], word: &str) -> (b: bool)
    ensures
        b == (chars@ == word@),
{
    let w = str_chars(word);
    chars_equal(chars, &w)
}

/// `a`, then `middle`, then `b`, as one string.
fn spliced(a: &str, middle: &[char], b: &str) -> (s: String)
    ensures
        s@ == a@ + middle@ + b@,
{
    let mut out = str_chars(a);
    push_all(&mut out, middle);
    let tail = str_chars(b);
    push_all(&mut out, &tail);
    string_from_chars(&out)
}

fn note(line: usize, message: String) -> (d: Diagnostic)
    ensures
        d.line == line,
        d.message@ == message@,
{
    Diagnostic { line, message }
}

fn push_note(warnings: &mut Vec<Diagnostic>, line: usize, message: String)
    ensures
        notes_view(final(warnings)@) == notes_view(old(warnings)@).push((line as int, message@)),
{
    let ghost before = notes_view(warnings@);
    warnings.push(Diagnostic { line, message });
    assert(notes_view(warnings@) =~= before.push((line as int, message@)));
}

fn push_string(v: &mut Vec<String>, chars: &[char])
    ensures
        string_views(final(v)@) == string_views(old(v)@).push(chars@),
{
    let ghost before = string_views(v@);
    v.push(text_of(chars));
    assert(string_views(v@) =~= before.push(chars@));
}

fn empty_panel_exec() -> (p: Panel)
    ensures
        panel_view(p) == empty_panel(),
{
    let p = Panel {
        name: String::new(),
        overview: Vec::new(),
        attributes: Vec::new(),
        details: Vec::new(),
        actions: Vec::new(),
        reactions: Vec::new(),
    };
    assert(panel_view(p).overview =~= Seq::<Seq<char>>::empty());
    assert(panel_view(p).attributes =~= Seq::<(Seq<char>, Seq<char>)>::empty());
    assert(panel_view(p).details =~= Seq::<Seq<char>>::empty());
    assert(panel_view(p).actions =~= Seq::<Seq<char>>::empty());
    assert(panel_view(p).reactions =~= Seq::<Seq<char>>::empty());
    p
}

/// One line of a panel body, read into `panel`.
fn panel_line_exec(panel: &mut Panel, warnings: &mut Vec<Diagnostic>, line: &[char], line_no: usize)
    ensures
        (panel_view(*final(panel)), notes_view(final(warnings)@))
            == panel_line(panel_view(*old(panel)), notes_view(old(warnings)@), line@, line_no as int),
{
    let t = trim_chars(line);
    if t.len() == 0 {
        return;
    }
    match split_once(&t, ':') {
        None => {
            push_string(&mut panel.overview, &t);
            push_note(warnings, line_no, "expected `key: value` in a panel; kept as an overview line".to_owned());
        },
        Some((raw_key, raw_value)) => {
            let key = trim_chars(&raw_key);
            let value = trim_chars(&raw_value);
            if is_word(&key, "name") {
                panel.name = text_of(&value);
            } else if is_word(&key, "overview") {
                push_string(&mut panel.overview, &value);
            } else if is_word(&key, "detail") || is_word(&key, "details") {
                push_string(&mut panel.details, &value);
            } else if is_word(&key, "action") || is_word(&key, "actions") {
                push_string(&mut panel.actions, &value);
            } else if is_word(&key, "reaction") || is_word(&key, "reactions") {
                push_string(&mut panel.reactions, &value);
            } else if is_word(&key, "attr") {
                match split_once(&value, '=') {
                    Some((k, v)) => {
                        let ghost before = pair_views(panel.attributes@);
                        let kt = trim_chars(&k);
                        let vt = trim_chars(&v);
                        panel.attributes.push((text_of(&kt), text_of(&vt)));
                        assert(pair_views(panel.attributes@) =~= before.push((kt@, vt@)));
                    },
                    None => {
                        push_note(warnings, line_no, "an `attr` needs `name = value`; skipped".to_owned());
                    },
                }
            } else {
                push_string(&mut panel.details, &t);
                push_note(warnings, line_no, spliced("unknown panel field `", &key, "`; kept as a detail"));
            }
        },
    }
}

/// A panel fence's body, read in order.
fn parse_panel(body: &[Vec<char>], first_line: usize) -> (r: (Panel, Vec<Diagnostic>))
    requires
        first_line + body@.len() <= usize::MAX,
    ensures
        (panel_view(r.0), notes_view(r.1@)) == panel_spec(views(body@), first_line as int),
{
    let mut panel = empty_panel_exec();
    let mut warnings: Vec<Diagnostic> = Vec::new();
    let mut k: usize = 0;
    assert(notes_view(warnings@) =~= Seq::<Note>::empty());
    assert(views(body@).len() == body@.len());
    while k < body.len()
        invariant
            0 <= k <= body@.len(),
            first_line + body@.len() <= usize::MAX,
            views(body@).len() == body@.len(),
            (panel_view(panel), notes_view(warnings@)) == panel_upto(views(body@), first_line as int, k as int),
        decreases body.len() - k,
    {
        assert(views(body@)[k as int] == body@[k as int]@);
        panel_line_exec(&mut panel, &mut warnings, &body[k], first_line + k);
        k = k + 1;
    }
    if panel.name.as_str().is_empty() {
        push_note(&mut warnings, first_line, "panel has no `name:`".to_owned());
    }
    (panel, warnings)
}


/// The trimmed cells of a pipe row.
fn cells_exec(t: &[char]) -> (cells: Vec<String>)
    ensures
        string_views(cells@) == cells_of(t@),
{
    let inner = trim_char(t, '|');
    let parts = split_chars(&inner, '|');
    let ghost all = split_on(trim_char_spec(t@, '|'), '|');
    assert(views(parts@).len() == parts@.len());
    let mut cells: Vec<String> = Vec::new();
    let mut k: usize = 0;
    while k < parts.len()
        invariant
            0 <= k <= parts@.len(),
            views(parts@) == all,
            all == split_on(trim_char_spec(t@, '|'), '|'),
            string_views(cells@) == all.subrange(0, k as int).map_values(|c: Seq<char>| trim_spec(c)),
        decreases parts.len() - k,
    {
        assert(all[k as int] == parts@[k as int]@);
        let trimmed = trim_chars(&parts[k]);
        let ghost before = string_views(cells@);
        cells.push(text_of(&trimmed));
        assert(string_views(cells@) =~= before.push(trimmed@));
        k = k + 1;
        assert forall|q: int| 0 <= q < k implies #[trigger] string_views(cells@)[q] == trim_spec(all[q]) by {
            if q < k - 1 {
                assert(string_views(cells@)[q] == before[q]);
            }
        }
        assert(string_views(cells@) =~= all.subrange(0, k as int).map_values(|c: Seq<char>| trim_spec(c)));
    }
    assert(all.subrange(0, all.len() as int) =~= all);
    cells
}

/// Whether every cell is non-empty and all dashes and colons.
fn is_separator_exec(cells: &Vec<String>) -> (b: bool)
    ensures
        b == is_separator_row(string_views(cells@)),
{
    let ghost v = string_views(cells@);
    let mut i: usize = 0;
    while i < cells.len()
        invariant
            0 <= i <= cells@.len(),
            v == string_views(cells@),
            forall|q: int| 0 <= q < i ==> #[trigger] separator_cell(v[q]),
        decreases cells.len() - i,
    {
        let c = str_chars(cells[i].as_str());
        assert(c@ == v[i as int]);
        if c.len() == 0 {
            assert(!separator_cell(v[i as int]));
            return false;
        }
        let mut j: usize = 0;
        while j < c.len()
            invariant
                0 <= j <= c@.len(),
                0 <= i < cells@.len(),
                v == string_views(cells@),
                c@ == v[i as int],
                forall|q: int| 0 <= q < j ==> (c@[q] == '-' || c@[q] == ':'),
            decreases c.len() - j,
        {
            if c[j] != '-' && c[j] != ':' {
                assert(!(c@[j as int] == '-' || c@[j as int] == ':'));
                assert(!separator_cell(v[i as int]));
                return false;
            }
            j = j + 1;
        }
        assert(separator_cell(v[i as int]));
        i = i + 1;
    }
    true
}

/// A table fence's body: its header, its rows and the warnings owed, or a refusal if it has no
/// rows.
fn parse_table(body: &[Vec<char>], first_line: usize) -> (r: Result<(Vec<String>, Vec<Vec<String>>, Vec<Diagnostic>), ImportError>)
    requires
        first_line + body@.len() <= usize::MAX,
    ensures
        match r {
            Ok((header, rows, w)) => table_spec(views(body@), first_line as int)
                == Ok::<(BlockView, Seq<Note>), Note>((BlockView::Table { header: string_views(header@), rows: rows_view(rows@) }, notes_view(w@))),
            Err(e) => table_spec(views(body@), first_line as int) == Err::<(BlockView, Seq<Note>), Note>((e.line as int, e.message@)),
        },
{
    let mut rows: Vec<Vec<String>> = Vec::new();
    let mut warnings: Vec<Diagnostic> = Vec::new();
    let mut k: usize = 0;
    assert(notes_view(warnings@) =~= Seq::<Note>::empty());
    assert(rows_view(rows@) =~= Seq::<Seq<Seq<char>>>::empty());
    assert(views(body@).len() == body@.len());
    while k < body.len()
        invariant
            0 <= k <= body@.len(),
            first_line + body@.len() <= usize::MAX,
            views(body@).len() == body@.len(),
            (rows_view(rows@), notes_view(warnings@)) == table_upto(views(body@), first_line as int, k as int),
        decreases body.len() - k,
    {
        assert(views(body@)[k as int] == body@[k as int]@);
        let t = trim_chars(&body[k]);
        if t.len() > 0 {
            let pipe: Vec<char> = vec!['|'];
            assert(pipe@ =~= seq!['|']);
            if !starts_with(&t, &pipe) {
                push_note(&mut warnings, first_line + k, "a table row must start with `|`; skipped".to_owned());
            } else {
                let cells = cells_exec(&t);
                if !is_separator_exec(&cells) {
                    let ghost before = rows_view(rows@);
                    rows.push(cells);
                    assert(rows_view(rows@) =~= before.push(cells_of(t@)));
                }
            }
        }
        k = k + 1;
    }
    if rows.len() == 0 {
        return Err(ImportError { line: first_line, message: "a `:::table` block has no rows".to_owned() });
    }
    let ghost all = rows_view(rows@);
    let header = rows.remove(0);
    assert(rows_view(rows@) =~= all.drop_first());
    Ok((header, rows, warnings))
}

/// A contents fence's body: its title, its depth and the warnings owed.
fn parse_toc(body: &[Vec<char>], first_line: usize) -> (r: (String, u8, Vec<Diagnostic>))
    requires
        first_line + body@.len() <= usize::MAX,
    ensures
        (r.0@, r.1, notes_view(r.2@)) == toc_upto(views(body@), first_line as int, body@.len() as int),
{
    let mut title = "Contents".to_owned();
    let mut level: u8 = 2;
    let mut warnings: Vec<Diagnostic> = Vec::new();
    let mut k: usize = 0;
    assert(notes_view(warnings@) =~= Seq::<Note>::empty());
    assert(views(body@).len() == body@.len());
    while k < body.len()
        invariant
            0 <= k <= body@.len(),
            first_line + body@.len() <= usize::MAX,
            views(body@).len() == body@.len(),
            (title@, level, notes_view(warnings@)) == toc_upto(views(body@), first_line as int, k as int),
        decreases body.len() - k,
    {
        assert(views(body@)[k as int] == body@[k as int]@);
        let t = trim_chars(&body[k]);
        let line_no = first_line + k;
        if t.len() > 0 {
            match split_once(&t, ':') {
                Some((raw_key, raw_value)) => {
                    let key = trim_chars(&raw_key);
                    let value = trim_chars(&raw_value);
                    if is_word(&key, "title") {
                        title = text_of(&value);
                    } else if is_word(&key, "max_level") {
                        let parsed = parse_u64_chars(&value);
                        let ok = match parsed {
                            Some(m) => 1 <= m && m <= 6,
                            None => false,
                        };
                        if ok {
                            level = match parsed {
                                Some(m) => m as u8,
                                None => level,
                            };
                        } else {
                            let mut msg = str_chars("`max_level` must be 1-6, got `");
                            push_all(&mut msg, &value);
                            let middle = str_chars("`; using ");
                            push_all(&mut msg, &middle);
                            push_decimal(level as u32, &mut msg);
                            push_note(&mut warnings, line_no, string_from_chars(&msg));
                        }
                    } else {
                        push_note(&mut warnings, line_no, "a `:::toc` block takes `title:` and `max_level:` only; ignored".to_owned());
                    }
                },
                None => {
                    push_note(&mut warnings, line_no, "a `:::toc` block takes `title:` and `max_level:` only; ignored".to_owned());
                },
            }
        }
        k = k + 1;
    }
    (title, level, warnings)
}


/// The level of a heading line.
fn heading_level(t: &[char]) -> (r: Option<u8>)
    ensures
        r == heading_level_spec(t@),
{
    let hashes = count_leading(t, '#');
    if 1 <= hashes && hashes <= 6 && hashes < t.len() && t[hashes] == ' ' {
        Some(hashes as u8)
    } else {
        None
    }
}

proof fn lemma_first_pair_found(s: Seq<char>, a: char, b: char, m: int, n: int)
    requires
        0 <= m <= n,
        first_pair(s, a, b, m) is Some,
    ensures
        first_pair(s, a, b, n) == first_pair(s, a, b, m),
    decreases n - m,
{
    if n > m {
        lemma_first_pair_found(s, a, b, m, n - 1);
    }
}

proof fn lemma_first_pair(s: Seq<char>, a: char, b: char, n: int)
    requires
        0 <= n,
    ensures
        match first_pair(s, a, b, n) {
            Some(i) => 0 <= i < n && i + 1 < s.len(),
            None => true,
        },
    decreases n,
{
    if n > 0 {
        lemma_first_pair(s, a, b, n - 1);
    }
}

/// The asset id in `![](id)` or `![alt](id)`.
fn image_asset(t: &[char]) -> (r: Option<Vec<char>>)
    ensures
        match r {
            Some(id) => image_asset_spec(t@) == Some(id@),
            None => image_asset_spec(t@) is None,
        },
{
    let bang: Vec<char> = vec!['!', '['];
    assert(bang@ =~= seq!['!', '[']);
    if !starts_with(t, &bang) {
        return None;
    }
    let rest = copy_range(t, 2, t.len());
    let mut i: usize = 0;
    let mut close: Option<usize> = None;
    while i < rest.len()
        invariant
            0 <= i <= rest@.len(),
            match close {
                Some(c) => first_pair(rest@, ']', '(', rest@.len() as int) == Some(c as int),
                None => first_pair(rest@, ']', '(', i as int) is None,
            },
        decreases rest.len() - i,
    {
        if close.is_none() && i + 1 < rest.len() && rest[i] == ']' && rest[i + 1] == '(' {
            proof {
                reveal_with_fuel(first_pair, 2);
                assert(first_pair(rest@, ']', '(', i + 1) == Some(i as int));
                lemma_first_pair_found(rest@, ']', '(', i + 1, rest@.len() as int);
            }
            close = Some(i);
        } else if close.is_none() {
            proof {
                reveal_with_fuel(first_pair, 2);
            }
        }
        i = i + 1;
    }
    proof {
        lemma_first_pair(rest@, ']', '(', rest@.len() as int);
    }
    match close {
        None => None,
        Some(c) => {
            let n = rest.len();
            let after = copy_range(&rest, c + 2, n);
            if after.len() > 1 && after[after.len() - 1] == ')' {
                let id = copy_range(&after, 0, after.len() - 1);
                assert(id@ =~= after@.drop_last());
                Some(id)
            } else {
                None
            }
        },
    }
}

/// `parts` joined with single spaces.
fn join_spaced_exec(parts: &Vec<Vec<char>>) -> (out: Vec<char>)
    ensures
        out@ == join_spaced(views(parts@)),
{
    let mut out: Vec<char> = Vec::new();
    let mut k: usize = 0;
    assert(views(parts@).len() == parts@.len());
    while k < parts.len()
        invariant
            0 <= k <= parts@.len(),
            views(parts@).len() == parts@.len(),
            out@ == join_spaced(views(parts@).subrange(0, k as int)),
        decreases parts.len() - k,
    {
        let ghost sub = views(parts@).subrange(0, k + 1);
        assert(sub.drop_last() =~= views(parts@).subrange(0, k as int));
        assert(sub.last() == parts@[k as int]@);
        if k > 0 {
            out.push(' ');
        }
        push_all(&mut out, &parts[k]);
        k = k + 1;
        proof {
            if k == 1 {
                assert(sub.len() == 1);
            }
        }
    }
    assert(views(parts@).subrange(0, parts@.len() as int) =~= views(parts@));
    out
}

/// Close the pending paragraph, if any, as a body block.
fn flush_exec(content: &mut Vec<ImportedBlock>, para: &mut Vec<Vec<char>>)
    ensures
        blocks_view(final(content)@) == flush(blocks_view(old(content)@), views(old(para)@)),
        final(para)@.len() == 0,
{
    if para.len() > 0 {
        let text = join_spaced_exec(para);
        let ghost before = blocks_view(content@);
        content.push(ImportedBlock::Body { text: text_of(&text) });
        assert(blocks_view(content@) =~= before.push(BlockView::Body { text: text@ }));
        *para = Vec::new();
    }
}

/// What the syntax produced: the blocks, and every warning (each naming a line).
pub struct ImportedContent {
    pub blocks: Vec<ImportedBlock>,
    pub warnings: Vec<Diagnostic>,
}

/// Parse the on-ramp syntax into blocks.
///
/// An unknown fence is fatal; a construct the subset does not cover is kept as body text with a
/// warning naming its line; nothing is dropped.
pub fn import(source: &str) -> (r: Result<ImportedContent, ImportError>)
    requires
        lines_of(source@).len() + 2 <= usize::MAX,
    ensures
        match r {
            Ok(out) => import_spec(source@) == Ok::<(Seq<BlockView>, Seq<Note>), Note>(
                (blocks_view(out.blocks@), notes_view(out.warnings@)),
            ),
            Err(e) => import_spec(source@) == Err::<(Seq<BlockView>, Seq<Note>), Note>((e.line as int, e.message@)),
        },
{
    let chars = str_chars(source);
    let lines = split_lines(&chars);
    let ghost all = lines_of(source@);
    assert(views(lines@).len() == lines@.len());
    let mut content: Vec<ImportedBlock> = Vec::new();
    let mut warnings: Vec<Diagnostic> = Vec::new();
    let mut para: Vec<Vec<char>> = Vec::new();
    assert(blocks_view(content@) =~= Seq::<BlockView>::empty());
    assert(notes_view(warnings@) =~= Seq::<Note>::empty());
    assert(views(para@) =~= Seq::<Seq<char>>::empty());
    let mut i: usize = 0;
    while i < lines.len()
        invariant
            all == lines_of(source@),
            views(lines@) == all,
            views(lines@).len() == lines@.len(),
            all.len() + 2 <= usize::MAX,
            0 <= i <= lines@.len(),
            import_from(all, i as int, blocks_view(content@), notes_view(warnings@), views(para@)) == import_spec(source@),
        decreases lines.len() - i,
    {
        let line_no = i + 1;
        assert(all[i as int] == lines@[i as int]@);
        let t = trim_chars(&lines[i]);
        let fence: Vec<char> = vec![':', ':', ':'];
        assert(fence@ =~= seq![':', ':', ':']);
        if t.len() == 0 {
            flush_exec(&mut content, &mut para);
            assert(views(para@) =~= Seq::<Seq<char>>::empty());
            i = i + 1;
        } else if starts_with(&t, &fence) {
            flush_exec(&mut content, &mut para);
            assert(views(para@) =~= Seq::<Seq<char>>::empty());
            let after = copy_range(&t, 3, t.len());
            let kind = trim_chars(&after);
            // The fence's body runs to the closing `:::`, or to the end of the file.
            let mut end: usize = i + 1;
            proof {
                lemma_fence_end(all, i + 1);
            }
            while end < lines.len() && !chars_equal(&trim_chars(&lines[end]), &fence)
                invariant
                    i + 1 <= end <= lines@.len(),
                    views(lines@) == all,
                    views(lines@).len() == lines@.len(),
                    fence@ == seq![':', ':', ':'],
                    fence_end(all, i + 1) == fence_end(all, end as int),
                decreases lines.len() - end,
            {
                assert(all[end as int] == lines@[end as int]@);
                end = end + 1;
            }
            proof {
                if end < lines@.len() {
                    assert(all[end as int] == lines@[end as int]@);
                }
                assert(fence_end(all, end as int) == end);
            }
            let mut body: Vec<Vec<char>> = Vec::new();
            let mut j: usize = i + 1;
            while j < end
                invariant
                    i + 1 <= j <= end <= lines@.len(),
                    views(lines@) == all,
                    views(lines@).len() == lines@.len(),
                    views(body@) == all.subrange(i + 1, j as int),
                decreases end - j,
            {
                let ghost before = views(body@);
                let line = copy_range(&lines[j], 0, lines[j].len());
                assert(line@ =~= all[j as int]);
                body.push(line);
                assert(views(body@) =~= before.push(line@));
                j = j + 1;
                assert(views(body@) =~= all.subrange(i + 1, j as int));
            }
            let next = if end < lines.len() { end + 1 } else { end };
            let first_line = i + 2;
            assert(views(body@).len() == body@.len());
            if is_word(&kind, "panel") || is_word(&kind, "statblock") {
                let (panel, w) = parse_panel(&body, first_line);
                let ghost b0 = blocks_view(content@);
                let ghost w0 = notes_view(warnings@);
                content.push(ImportedBlock::Panel { panel });
                assert(blocks_view(content@) =~= b0.push(BlockView::Panel { panel: panel_view(panel) }));
                let mut w = w;
                warnings.append(&mut w);
                assert(notes_view(warnings@) =~= w0 + panel_spec(views(body@), first_line as int).1);
            } else if is_word(&kind, "table") {
                match parse_table(&body, first_line) {
                    Ok((header, rows, w)) => {
                        let ghost b0 = blocks_view(content@);
                        let ghost w0 = notes_view(warnings@);
                        let ghost tv = BlockView::Table { header: string_views(header@), rows: rows_view(rows@) };
                        content.push(ImportedBlock::Table { header, rows });
                        assert(blocks_view(content@) =~= b0.push(tv));
                        let mut w = w;
                        let ghost wv = notes_view(w@);
                        warnings.append(&mut w);
                        assert(notes_view(warnings@) =~= w0 + wv);
                    },
                    Err(e) => {
                        return Err(e);
                    },
                }
            } else if is_word(&kind, "toc") {
                let (title, level, w) = parse_toc(&body, first_line);
                let ghost b0 = blocks_view(content@);
                let ghost w0 = notes_view(warnings@);
                content.push(ImportedBlock::Toc { title, max_level: level });
                assert(blocks_view(content@) =~= b0.push(BlockView::Toc { title: title@, max_level: level }));
                let mut w = w;
                let ghost wv = notes_view(w@);
                warnings.append(&mut w);
                assert(notes_view(warnings@) =~= w0 + wv);
            } else {
                let message = spliced("unknown block `:::", &kind, "`; supported: panel, table, toc");
                return Err(ImportError { line: line_no, message });
            }
            i = next;
        } else {
            match heading_level(&t) {
                Some(level) => {
                    flush_exec(&mut content, &mut para);
                    assert(views(para@) =~= Seq::<Seq<char>>::empty());
                    let rest = copy_range(&t, level as usize, t.len());
                    let text = trim_chars(&rest);
                    if text.len() == 0 {
                        push_note(&mut warnings, line_no, "empty heading; kept as an empty heading rather than dropped".to_owned());
                    }
                    let ghost b0 = blocks_view(content@);
                    content.push(ImportedBlock::Heading { level, text: text_of(&text) });
                    assert(blocks_view(content@) =~= b0.push(BlockView::Heading { level, text: text@ }));
                },
                None => match image_asset(&t) {
                    Some(asset) => {
                        flush_exec(&mut content, &mut para);
                        assert(views(para@) =~= Seq::<Seq<char>>::empty());
                        let ghost b0 = blocks_view(content@);
                        content.push(ImportedBlock::Image { asset: text_of(&asset) });
                        assert(blocks_view(content@) =~= b0.push(BlockView::Image { asset: asset@ }));
                    },
                    None => {
                        let pipe: Vec<char> = vec!['|'];
                        let dash: Vec<char> = vec!['-', ' '];
                        let star: Vec<char> = vec!['*', ' '];
                        let quote: Vec<char> = vec!['>', ' '];
                        assert(pipe@ =~= seq!['|']);
                        assert(dash@ =~= seq!['-', ' ']);
                        assert(star@ =~= seq!['*', ' ']);
                        assert(quote@ =~= seq!['>', ' ']);
                        let ghost w0 = notes_view(warnings@);
                        if starts_with(&t, &pipe) {
                            push_note(&mut warnings, line_no, "a pipe row outside a `:::table` block is kept as text; wrap it in `:::table` to lay it out as a table".to_owned());
                        } else if starts_with(&t, &dash) || starts_with(&t, &star) {
                            push_note(&mut warnings, line_no, "lists are not supported; kept as body text".to_owned());
                        } else if starts_with(&t, &quote) {
                            push_note(&mut warnings, line_no, "block quotes are not supported; kept as body text".to_owned());
                        }
                        assert(notes_view(warnings@) =~= w0 + prose_notes(t@, line_no as int));
                        let ghost p0 = views(para@);
                        para.push(t);
                        assert(views(para@) =~= p0.push(t@));
                    },
                },
            }
            i = i + 1;
        }
    }
    flush_exec(&mut content, &mut para);
    Ok(ImportedContent { blocks: content, warnings })
}

/// **A field's singular and plural keys are one field, and a known field warns of nothing.** A
/// panel line that reads as `key: value` with key `action` or `actions` adds its value to the
/// panel's actions and nothing else; likewise `detail`/`details` to its details and
/// `reaction`/`reactions` to its reactions. Either spelling gives the same panel, and no warning
/// is added.
pub proof fn lemma_panel_field_keys(p: PanelView, w: Seq<Note>, line: Seq<char>, line_no: int, key: Seq<char>, value: Seq<char>)
    requires
        key_value_spec(trim_spec(line)) == Some((key, value)),
    ensures
        key == "action"@ || key == "actions"@ ==>
            panel_line(p, w, line, line_no) == (PanelView { actions: p.actions.push(value), ..p }, w),
        key == "detail"@ || key == "details"@ ==>
            panel_line(p, w, line, line_no) == (PanelView { details: p.details.push(value), ..p }, w),
        key == "reaction"@ || key == "reactions"@ ==>
            panel_line(p, w, line, line_no) == (PanelView { reactions: p.reactions.push(value), ..p }, w),
{
    let t = trim_spec(line);
    if t.len() == 0 {
        assert(first_position(t, ':', 0) is None);
    }
    reveal_strlit("action");
    reveal_strlit("actions");
    reveal_strlit("detail");
    reveal_strlit("details");
    reveal_strlit("reaction");
    reveal_strlit("reactions");
    reveal_strlit("name");
    reveal_strlit("overview");
    assert("action"@[0] != "detail"@[0] && "action"@ != "detail"@);
    assert("action"@[0] != "details"@[0] && "action"@ != "details"@);
    assert("actions"@[0] != "detail"@[0] && "actions"@ != "detail"@);
    assert("actions"@[0] != "details"@[0] && "actions"@ != "details"@);
    assert("action"@.len() != "name"@.len() && "action"@.len() != "overview"@.len());
    assert("actions"@.len() != "name"@.len() && "actions"@.len() != "overview"@.len());
    assert("reaction"@[0] != "detail"@[0] && "reaction"@ != "detail"@);
    assert("reaction"@[0] != "details"@[0] && "reaction"@ != "details"@);
    assert("reaction"@[0] != "action"@[0] && "reaction"@ != "action"@);
    assert("reaction"@[0] != "actions"@[0] && "reaction"@ != "actions"@);
    assert("reactions"@[0] != "detail"@[0] && "reactions"@ != "detail"@);
    assert("reactions"@[0] != "details"@[0] && "reactions"@ != "details"@);
    assert("reactions"@[0] != "action"@[0] && "reactions"@ != "action"@);
    assert("reactions"@[0] != "actions"@[0] && "reactions"@ != "actions"@);
    assert("reaction"@[0] != "overview"@[0] && "reaction"@ != "overview"@);
    assert("reactions"@[0] != "overview"@[0] && "reactions"@ != "overview"@);
    assert("reaction"@.len() != "name"@.len() && "reactions"@.len() != "name"@.len());
}

} // verus!
