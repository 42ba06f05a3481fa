//! The text map format: parsing a character grid into terrains or
//! resources, and exporting the terrain grid back to text.
//!
//! A map is split at newlines the way `str::lines` splits (one trailing
//! carriage return removed per line); blank lines are skipped; each
//! surviving line is trimmed of spaces, tabs, and carriage returns at both
//! ends. The width of a map is the length of its first surviving line, its
//! height the number of surviving lines.

use vstd::prelude::*;
use vstd::pervasive::VecAdditionalExecFns;
use vstd::string::StrSliceExecFns;

use crate::resource::Resource;
use crate::terrain::Terrain;

verus! {

/// Characters trimmed from the ends of a line.
pub open spec fn is_pad(c: char) -> bool {
    c == ' ' || c == '\t' || c == '\r'
}

/// Index of the first newline of `s`, or `s.len()` if there is none.
pub open spec fn first_newline(s: Seq<char>) -> int
    decreases s.len(),
{
    if s.len() == 0 {
        0
    } else if s[0] == '\n' {
        0
    } else {
        1 + first_newline(s.skip(1))
    }
}

pub proof fn lemma_first_newline(s: Seq<char>)
    ensures
        0 <= first_newline(s) <= s.len(),
        forall|j: int| 0 <= j < first_newline(s) ==> s[j] != '\n',
        first_newline(s) < s.len() ==> s[first_newline(s)] == '\n',
    decreases s.len(),
{
    if s.len() == 0 {
    } else if s[0] == '\n' {
    } else {
        lemma_first_newline(s.skip(1));
        assert forall|j: int| 0 <= j < first_newline(s) implies s[j] != '\n' by {
            if j > 0 {
                assert(s.skip(1)[j - 1] == s[j]);
            }
        }
        if first_newline(s) < s.len() {
            assert(s.skip(1)[first_newline(s) - 1] == s[first_newline(s)]);
        }
    }
}

pub proof fn lemma_first_newline_at(s: Seq<char>, n: int)
    requires
        0 <= n <= s.len(),
        forall|j: int| 0 <= j < n ==> s[j] != '\n',
        n < s.len() ==> s[n] == '\n',
    ensures
        first_newline(s) == n,
    decreases s.len(),
{
    if s.len() == 0 {
    } else if s[0] == '\n' {
        assert(n == 0);
    } else {
        assert(s[0] != '\n');
        assert(n >= 1);
        assert forall|j: int| 0 <= j < n - 1 implies s.skip(1)[j] != '\n' by {
            assert(s.skip(1)[j] == s[j + 1]);
        }
        if n - 1 < s.skip(1).len() {
            assert(s.skip(1)[n - 1] == s[n]);
        }
        lemma_first_newline_at(s.skip(1), n - 1);
    }
}

/// Everything of a line before leading padding is removed.
pub open spec fn trim_start(l: Seq<char>) -> Seq<char>
    decreases l.len(),
{
    if l.len() > 0 && is_pad(l[0]) {
        trim_start(l.skip(1))
    } else {
        l
    }
}

/// Everything of a line before trailing padding is removed.
pub open spec fn trim_end(l: Seq<char>) -> Seq<char>
    decreases l.len(),
{
    if l.len() > 0 && is_pad(l.last()) {
        trim_end(l.drop_last())
    } else {
        l
    }
}

/// A line with padding removed from both ends.
pub open spec fn trim(l: Seq<char>) -> Seq<char> {
    trim_end(trim_start(l))
}

proof fn lemma_trim_start_skip(l: Seq<char>, a: int)
    requires
        0 <= a <= l.len(),
        forall|j: int| 0 <= j < a ==> is_pad(l[j]),
        a == l.len() || !is_pad(l[a]),
    ensures
        trim_start(l) == l.skip(a),
    decreases a,
{
    if a == 0 {
        assert(l.skip(0) =~= l);
    } else {
        assert(is_pad(l[0]));
        assert forall|j: int| 0 <= j < a - 1 implies is_pad(l.skip(1)[j]) by {
            assert(l.skip(1)[j] == l[j + 1]);
        }
        if a - 1 < l.skip(1).len() {
            assert(l.skip(1)[a - 1] == l[a]);
        }
        lemma_trim_start_skip(l.skip(1), a - 1);
        assert(l.skip(1).skip(a - 1) =~= l.skip(a));
    }
}

proof fn lemma_trim_end_take(l: Seq<char>, b: int)
    requires
        0 <= b <= l.len(),
        forall|j: int| b <= j < l.len() ==> is_pad(l[j]),
        b == 0 || !is_pad(l[b - 1]),
    ensures
        trim_end(l) == l.take(b),
    decreases l.len() - b,
{
    if b == l.len() {
        assert(l.take(b) =~= l);
        if l.len() > 0 {
            assert(!is_pad(l.last()));
        }
    } else {
        assert(is_pad(l.last()));
        assert forall|j: int| b <= j < l.drop_last().len() implies is_pad(l.drop_last()[j]) by {
            assert(l.drop_last()[j] == l[j]);
        }
        if b > 0 {
            assert(l.drop_last()[b - 1] == l[b - 1]);
        }
        lemma_trim_end_take(l.drop_last(), b);
        assert(l.drop_last().take(b) =~= l.take(b));
    }
}

proof fn lemma_trim_all_pad(l: Seq<char>)
    requires
        forall|j: int| 0 <= j < l.len() ==> is_pad(l[j]),
    ensures
        trim(l) == Seq::<char>::empty(),
{
    lemma_trim_start_skip(l, l.len() as int);
    assert(l.skip(l.len() as int) =~= Seq::<char>::empty());
    assert(trim_end(Seq::<char>::empty()) =~= Seq::<char>::empty());
}

/// Characterizes `trim` by the bounds an implementation finds by scanning:
/// if everything before `a` and everything from `b` on is padding and the
/// range in between has none at its ends, the trim is that range.
pub proof fn lemma_trim_is_subrange(l: Seq<char>, a: int, b: int)
    requires
        0 <= a <= b <= l.len(),
        forall|j: int| 0 <= j < a ==> is_pad(l[j]),
        forall|j: int| b <= j < l.len() ==> is_pad(l[j]),
        a == b || (!is_pad(l[a]) && !is_pad(l[b - 1])),
    ensures
        trim(l) == l.subrange(a, b),
{
    if a == b {
        lemma_trim_all_pad(l);
        assert(l.subrange(a, b) =~= Seq::<char>::empty());
    } else {
        lemma_trim_start_skip(l, a);
        let m = l.skip(a);
        assert forall|j: int| b - a <= j < m.len() implies is_pad(m[j]) by {
            assert(m[j] == l[j + a]);
        }
        assert(m[b - a - 1] == l[b - 1]);
        lemma_trim_end_take(m, b - a);
        assert(l.skip(a).take(b - a) =~= l.subrange(a, b));
    }
}

/// One trailing carriage return removed, as `str::lines` does.
pub open spec fn strip_cr(seg: Seq<char>) -> Seq<char> {
    if seg.len() > 0 && seg.last() == '\r' {
        seg.drop_last()
    } else {
        seg
    }
}

/// The cleaned rows of a text map: split at newlines, blank lines skipped,
/// survivors trimmed.
pub open spec fn clean_rows(s: Seq<char>) -> Seq<Seq<char>>
    decreases s.len(),
    via clean_rows_decreases
{
    if s.len() == 0 {
        Seq::empty()
    } else {
        let i = first_newline(s);
        let seg = s.subrange(0, i);
        let rest = if i == s.len() {
            Seq::<char>::empty()
        } else {
            s.subrange(i + 1, s.len() as int)
        };
        let tail = clean_rows(rest);
        if strip_cr(seg).len() > 0 {
            seq![trim(seg)] + tail
        } else {
            tail
        }
    }
}

#[via_fn]
proof fn clean_rows_decreases(s: Seq<char>) {
    lemma_first_newline(s);
}

/// Number of rows of the map.
pub open spec fn parse_height(s: Seq<char>) -> int {
    clean_rows(s).len() as int
}

/// Length of the first row of the map, or zero if it has none.
pub open spec fn parse_width(s: Seq<char>) -> int {
    if clean_rows(s).len() == 0 {
        0
    } else {
        clean_rows(s)[0].len() as int
    }
}

/// Every row of the map has the width of the first one.
pub open spec fn rectangular(s: Seq<char>) -> bool {
    forall|r: int| 0 <= r < clean_rows(s).len() ==> (#[trigger] clean_rows(s)[r]).len() == parse_width(s)
}

/// The terrains of one row of characters.
pub open spec fn row_terrains(row: Seq<char>) -> Seq<Terrain> {
    row.map_values(|c: char| Terrain::spec_from_char(c))
}

/// The terrains of a sequence of rows, concatenated in row-major order.
pub open spec fn tiles_of_rows(rows: Seq<Seq<char>>) -> Seq<Terrain>
    decreases rows.len(),
{
    if rows.len() == 0 {
        Seq::empty()
    } else {
        row_terrains(rows[0]) + tiles_of_rows(rows.skip(1))
    }
}

/// The row-major terrain grid encoded by a text map.
pub open spec fn parse_terrains(s: Seq<char>) -> Seq<Terrain> {
    tiles_of_rows(clean_rows(s))
}

/// The resources of one row of characters.
pub open spec fn row_resources(row: Seq<char>) -> Seq<Resource> {
    row.map_values(|c: char| Resource::spec_from_char(c))
}

/// The resources of a sequence of rows, concatenated in row-major order.
pub open spec fn resources_of_rows(rows: Seq<Seq<char>>) -> Seq<Resource>
    decreases rows.len(),
{
    if rows.len() == 0 {
        Seq::empty()
    } else {
        row_resources(rows[0]) + resources_of_rows(rows.skip(1))
    }
}

/// The row-major resource grid encoded by a text map.
pub open spec fn parse_resource_cells(s: Seq<char>) -> Seq<Resource> {
    resources_of_rows(clean_rows(s))
}

/// The resource overlay a world of `size` tiles reads from a resource map:
/// the parsed cells if their dimensions match, otherwise `Empty` everywhere
/// (the silent fallback for a mismatched overlay).
pub open spec fn resource_overlay(s: Seq<char>, size: int) -> Seq<Resource> {
    if rectangular(s) && parse_width(s) * parse_height(s) == size {
        parse_resource_cells(s)
    } else {
        Seq::new(size as nat, |i: int| Resource::Empty)
    }
}

/// If every row has length `w`, the concatenated grid has `rows.len() * w`
/// cells.
pub proof fn lemma_tiles_of_rows_len(rows: Seq<Seq<char>>, w: int)
    requires
        forall|r: int| 0 <= r < rows.len() ==> (#[trigger] rows[r]).len() == w,
    ensures
        tiles_of_rows(rows).len() == rows.len() * w,
    decreases rows.len(),
{
    if rows.len() == 0 {
    } else {
        assert forall|r: int| 0 <= r < rows.skip(1).len() implies (#[trigger] rows.skip(1)[r]).len()
            == w by {
            assert(rows.skip(1)[r] == rows[r + 1]);
        }
        lemma_tiles_of_rows_len(rows.skip(1), w);
        assert(rows.len() * w == (rows.len() - 1) * w + w) by (nonlinear_arith);
    }
}

pub proof fn lemma_resources_of_rows_len(rows: Seq<Seq<char>>, w: int)
    requires
        forall|r: int| 0 <= r < rows.len() ==> (#[trigger] rows[r]).len() == w,
    ensures
        resources_of_rows(rows).len() == rows.len() * w,
    decreases rows.len(),
{
    if rows.len() == 0 {
    } else {
        assert forall|r: int| 0 <= r < rows.skip(1).len() implies (#[trigger] rows.skip(1)[r]).len()
            == w by {
            assert(rows.skip(1)[r] == rows[r + 1]);
        }
        lemma_resources_of_rows_len(rows.skip(1), w);
        assert(rows.len() * w == (rows.len() - 1) * w + w) by (nonlinear_arith);
    }
}

/// The characters of row `y` of an exported terrain grid.
pub open spec fn export_row(tiles: Seq<Terrain>, width: int, y: int) -> Seq<char> {
    Seq::new(width as nat, |x: int| tiles[y * width + x].spec_to_char())
}

/// The text of rows `y..height` of an exported terrain grid, each row
/// followed by a newline.
pub open spec fn export_from(tiles: Seq<Terrain>, width: int, y: int, height: int) -> Seq<char>
    decreases height - y,
{
    if y >= height {
        Seq::empty()
    } else {
        export_row(tiles, width, y) + seq!['\n'] + export_from(tiles, width, y + 1, height)
    }
}

/// The full text of an exported terrain grid.
pub open spec fn export_text(tiles: Seq<Terrain>, width: int, height: int) -> Seq<char> {
    export_from(tiles, width, 0, height)
}

proof fn lemma_terrain_char_shape(t: Terrain)
    ensures
        !is_pad(t.spec_to_char()),
        t.spec_to_char() != '\n',
{
}

proof fn lemma_clean_rows_of_export(tiles: Seq<Terrain>, w: int, h: int, y: int)
    requires
        0 <= y <= h,
        w >= 0,
    ensures
        w > 0 ==> clean_rows(export_from(tiles, w, y, h)) == Seq::new(
            (h - y) as nat,
            |r: int| export_row(tiles, w, y + r),
        ),
        w == 0 ==> clean_rows(export_from(tiles, w, y, h)) == Seq::<Seq<char>>::empty(),
    decreases h - y,
{
    if y >= h {
        if w > 0 {
            assert(clean_rows(export_from(tiles, w, y, h)) =~= Seq::new(
                (h - y) as nat,
                |r: int| export_row(tiles, w, y + r),
            ));
        }
    } else {
        let row = export_row(tiles, w, y);
        let rest = export_from(tiles, w, y + 1, h);
        let s = export_from(tiles, w, y, h);
        assert(s == row + seq!['\n'] + rest);
        assert forall|j: int| 0 <= j < w implies s[j] != '\n' && !is_pad(s[j]) by {
            assert(s[j] == row[j]);
            lemma_terrain_char_shape(tiles[y * w + j]);
        }
        assert(s[w] == '\n');
        lemma_first_newline_at(s, w);
        assert(s.subrange(0, w) =~= row);
        assert(s.subrange(w + 1, s.len() as int) =~= rest);
        lemma_clean_rows_of_export(tiles, w, h, y + 1);
        if w > 0 {
            lemma_terrain_char_shape(tiles[y * w + (w - 1)]);
            assert(row.last() != '\r');
            assert(strip_cr(row) == row);
            lemma_trim_is_subrange(row, 0, w);
            assert(row.subrange(0, w) =~= row);
            assert(clean_rows(s) == seq![row] + clean_rows(rest));
            assert(seq![row] + Seq::new((h - y - 1) as nat, |r: int| export_row(tiles, w, y + 1 + r))
                =~= Seq::new((h - y) as nat, |r: int| export_row(tiles, w, y + r)));
        } else {
            assert(strip_cr(s.subrange(0, 0)).len() == 0);
            assert(clean_rows(s) == clean_rows(rest));
        }
    }
}

proof fn lemma_row_terrains_of_export_row(tiles: Seq<Terrain>, w: int, y: int)
    requires
        0 <= y,
        w > 0,
        (y + 1) * w <= tiles.len(),
    ensures
        row_terrains(export_row(tiles, w, y)) == tiles.subrange(y * w, (y + 1) * w),
{
    assert(y * w >= 0) by (nonlinear_arith)
        requires y >= 0 && w > 0;
    assert((y + 1) * w == y * w + w) by (nonlinear_arith);
    let row = export_row(tiles, w, y);
    assert forall|x: int| 0 <= x < w implies row_terrains(row)[x] == tiles.subrange(
        y * w,
        (y + 1) * w,
    )[x] by {
        assert(row[x] == tiles[y * w + x].spec_to_char());
        crate::terrain::lemma_terrain_char_round_trip(tiles[y * w + x]);
    }
    assert(row_terrains(row) =~= tiles.subrange(y * w, (y + 1) * w));
}

proof fn lemma_tiles_of_export_rows(tiles: Seq<Terrain>, w: int, h: int, y: int)
    requires
        0 <= y <= h,
        w > 0,
        tiles.len() == w * h,
    ensures
        tiles_of_rows(Seq::new((h - y) as nat, |r: int| export_row(tiles, w, y + r)))
            == tiles.subrange(y * w, h * w),
    decreases h - y,
{
    assert(0 <= y * w <= h * w && (y + 1) * w <= h * w || y == h) by (nonlinear_arith)
        requires 0 <= y <= h && w > 0;
    if y == h {
        assert(tiles.len() == h * w && h * w >= 0) by (nonlinear_arith)
            requires tiles.len() == w * h && h >= 0 && w > 0;
        assert(tiles_of_rows(Seq::new(0nat, |r: int| export_row(tiles, w, y + r)))
            =~= tiles.subrange(y * w, h * w));
    } else {
        assert(0 <= y * w && (y + 1) * w <= h * w) by (nonlinear_arith)
            requires 0 <= y < h && w > 0;
        let rows = Seq::new((h - y) as nat, |r: int| export_row(tiles, w, y + r));
        assert(rows[0] == export_row(tiles, w, y));
        assert(rows.skip(1) =~= Seq::new((h - y - 1) as nat, |r: int| export_row(tiles, w, y + 1 + r)));
        assert(tiles.len() == h * w) by (nonlinear_arith)
            requires tiles.len() == w * h;
        lemma_row_terrains_of_export_row(tiles, w, y);
        lemma_tiles_of_export_rows(tiles, w, h, y + 1);
        assert((y + 1) * w == y * w + w) by (nonlinear_arith);
        assert(tiles.subrange(y * w, (y + 1) * w) + tiles.subrange((y + 1) * w, h * w)
            =~= tiles.subrange(y * w, h * w));
    }
}

/// Exporting a terrain grid to text and parsing the text again yields the
/// same row-major terrain array, whatever the grid holds; the parsed
/// dimensions also survive whenever the grid has at least one column (a
/// grid of width zero exports only blank lines, which parse as an empty
/// grid with the same, empty, tile array).
pub proof fn lemma_export_import_round_trip(tiles: Seq<Terrain>, w: int, h: int)
    requires
        w >= 0,
        h >= 0,
        tiles.len() == w * h,
    ensures
        parse_terrains(export_text(tiles, w, h)) == tiles,
        rectangular(export_text(tiles, w, h)),
        parse_height(export_text(tiles, w, h)) == if w > 0 { h } else { 0 },
        parse_width(export_text(tiles, w, h)) == if w > 0 && h > 0 { w } else { 0 },
{
    lemma_clean_rows_of_export(tiles, w, h, 0);
    if w > 0 {
        lemma_tiles_of_export_rows(tiles, w, h, 0);
        assert(tiles.len() == h * w) by (nonlinear_arith)
            requires tiles.len() == w * h;
        assert(tiles.subrange(0, h * w) =~= tiles);
    } else {
        assert(w * h == 0) by (nonlinear_arith)
            requires w == 0;
        assert(parse_terrains(export_text(tiles, w, h)) =~= tiles);
    }
}

/// Relies on `String::push`: appends exactly the one character.
#[verifier::external_body]
pub(crate) fn push_char(s: &mut String, c: char)
    ensures
        final(s)@ == old(s)@.push(c),
{
    s.push(c);
}

/// The characters of a map string, in order.
pub fn chars_of(s: &str) -> (v: Vec<char>)
    ensures
        v@ == s@,
{
    let n = s.unicode_len();
    let mut v: Vec<char> = Vec::new();
    let mut i: usize = 0;
    while i < n
        invariant
            n == s@.len(),
            i <= n,
            v@ == s@.subrange(0, i as int),
        decreases n - i,
    {
        let c = s.get_char(i);
        v.push(c);
        i += 1;
        proof {
            assert(v@ =~= s@.subrange(0, i as int));
        }
    }
    proof {
        assert(s@.subrange(0, n as int) =~= s@);
    }
    v
}

/// Splits the characters of a map into its cleaned rows.
fn split_rows(v: &Vec<char>) -> (rows: Vec<Vec<char>>)
    ensures
        rows@.map_values(|q: Vec<char>| q@) == clean_rows(v@),
{
    let n = v.len();
    let mut rows: Vec<Vec<char>> = Vec::new();
    let mut pos: usize = 0;
    proof {
        assert(v@.subrange(0, n as int) =~= v@);
        assert(rows@.map_values(|q: Vec<char>| q@) + clean_rows(v@) =~= clean_rows(v@));
    }
    while pos < n
        invariant
            n == v@.len(),
            pos <= n,
            rows@.map_values(|q: Vec<char>| q@) + clean_rows(v@.subrange(pos as int, n as int))
                == clean_rows(v@),
        decreases n - pos,
    {
        let ghost p = pos as int;
        let ghost suffix = v@.subrange(p, n as int);
        let mut j = pos;
        while j < n && v[j] != '\n'
            invariant
                n == v@.len(),
                pos <= j <= n,
                forall|k: int| pos <= k < j ==> v@[k] != '\n',
            decreases n - j,
        {
            j += 1;
        }
        proof {
            assert forall|k: int| 0 <= k < j - pos implies suffix[k] != '\n' by {
                assert(suffix[k] == v@[pos + k]);
            }
            if (j as int) - (pos as int) < suffix.len() {
                assert(suffix[j - pos] == v@[j as int]);
            }
            lemma_first_newline_at(suffix, j - pos);
        }
        let ghost seg = suffix.subrange(0, j - pos);
        proof {
            assert forall|k: int| 0 <= k < seg.len() implies seg[k] == v@[pos + k] by {}
        }
        let mut end = j;
        if end > pos && v[end - 1] == '\r' {
            end = end - 1;
        }
        proof {
            if seg.len() > 0 {
                assert(seg.last() == v@[j - 1]);
            }
            assert(strip_cr(seg).len() == end - pos);
        }
        if end > pos {
            let mut a = pos;
            while a < j && (v[a] == ' ' || v[a] == '\t' || v[a] == '\r')
                invariant
                    n == v@.len(),
                    pos <= a <= j <= n,
                    forall|k: int| pos <= k < a ==> is_pad(v@[k]),
                decreases j - a,
            {
                a += 1;
            }
            let mut b = j;
            while b > a && (v[b - 1] == ' ' || v[b - 1] == '\t' || v[b - 1] == '\r')
                invariant
                    n == v@.len(),
                    a <= b <= j <= n,
                    forall|k: int| b <= k < j ==> is_pad(v@[k]),
                decreases b,
            {
                b -= 1;
            }
            proof {
                assert forall|k: int| 0 <= k < a - pos implies is_pad(seg[k]) by {
                    assert(seg[k] == v@[pos + k]);
                }
                assert forall|k: int| b - pos <= k < seg.len() implies is_pad(seg[k]) by {
                    assert(seg[k] == v@[pos + k]);
                }
                if a < b {
                    assert(seg[a - pos] == v@[a as int]);
                    assert(seg[b - pos - 1] == v@[b - 1]);
                }
                lemma_trim_is_subrange(seg, a - pos, b - pos);
            }
            let mut row: Vec<char> = Vec::new();
            let mut k = a;
            while k < b
                invariant
                    n == v@.len(),
                    a <= k <= b <= n,
                    row@ == v@.subrange(a as int, k as int),
                decreases b - k,
            {
                row.push(v[k]);
                k += 1;
                proof {
                    assert(row@ =~= v@.subrange(a as int, k as int));
                }
            }
            proof {
                assert(trim(seg) == seg.subrange(a - pos, b - pos));
                assert(seg.subrange(a - pos, b - pos) =~= v@.subrange(a as int, b as int));
            }
            let ghost rows_before = rows@;
            rows.push(row);
            proof {
                assert(rows@.map_values(|q: Vec<char>| q@) =~= rows_before.map_values(
                    |q: Vec<char>| q@,
                ).push(trim(seg)));
            }
        }
        let ghost rows_now = rows@.map_values(|q: Vec<char>| q@);
        let ghost rows_prev = if strip_cr(seg).len() > 0 {
            rows_now.drop_last()
        } else {
            rows_now
        };
        if j == n {
            pos = n;
        } else {
            pos = j + 1;
        }
        proof {
            let rest = if j - p == suffix.len() {
                Seq::<char>::empty()
            } else {
                suffix.subrange(j - p + 1, suffix.len() as int)
            };
            assert(clean_rows(suffix) == if strip_cr(seg).len() > 0 {
                seq![trim(seg)] + clean_rows(rest)
            } else {
                clean_rows(rest)
            });
            assert(v@.subrange(pos as int, n as int) =~= rest);
            if strip_cr(seg).len() > 0 {
                assert(rows_now =~= rows_prev.push(trim(seg)));
                assert(rows_now + clean_rows(rest) =~= rows_prev + clean_rows(suffix));
            }
            assert(rows_now + clean_rows(v@.subrange(pos as int, n as int)) == clean_rows(v@));
        }
    }
    proof {
        assert(clean_rows(v@.subrange(n as int, n as int)) =~= Seq::<Seq<char>>::empty());
        assert(rows@.map_values(|q: Vec<char>| q@) =~= clean_rows(v@));
    }
    rows
}

/// Concatenates the terrains of the given rows in row-major order.
fn rows_to_terrains(rows: &Vec<Vec<char>>) -> (t: Vec<Terrain>)
    ensures
        t@ == tiles_of_rows(rows@.map_values(|q: Vec<char>| q@)),
{
    let ghost rs = rows@.map_values(|q: Vec<char>| q@);
    let mut t: Vec<Terrain> = Vec::new();
    let mut r: usize = 0;
    proof {
        assert(rs.skip(0) =~= rs);
        assert(t@ + tiles_of_rows(rs) =~= tiles_of_rows(rs));
    }
    while r < rows.len()
        invariant
            r <= rows@.len(),
            rs == rows@.map_values(|q: Vec<char>| q@),
            t@ + tiles_of_rows(rs.skip(r as int)) == tiles_of_rows(rs),
        decreases rows@.len() - r,
    {
        let ghost base = t@;
        let ghost rowseq = rows@[r as int]@;
        let row = &rows[r];
        let mut x: usize = 0;
        while x < row.len()
            invariant
                x <= row@.len(),
                rowseq == row@,
                t@ == base + row_terrains(rowseq).take(x as int),
            decreases row@.len() - x,
        {
            t.push(Terrain::from_char(row[x]));
            x += 1;
            proof {
                assert(t@ =~= base + row_terrains(rowseq).take(x as int));
            }
        }
        r += 1;
        proof {
            assert(row_terrains(rowseq).take(rowseq.len() as int) =~= row_terrains(rowseq));
            assert(rs[r - 1] == rowseq);
            assert(rs.skip(r - 1).skip(1) =~= rs.skip(r as int));
            assert(tiles_of_rows(rs.skip(r - 1)) == row_terrains(rowseq) + tiles_of_rows(
                rs.skip(r as int),
            ));
            assert(t@ + tiles_of_rows(rs.skip(r as int)) =~= (base + tiles_of_rows(
                rs.skip(r - 1),
            )));
        }
    }
    proof {
        assert(rs.skip(rows@.len() as int) =~= Seq::<Seq<char>>::empty());
        assert(t@ =~= tiles_of_rows(rs));
    }
    t
}

/// Concatenates the resources of the given rows in row-major order.
fn rows_to_resources(rows: &Vec<Vec<char>>) -> (t: Vec<Resource>)
    ensures
        t@ == resources_of_rows(rows@.map_values(|q: Vec<char>| q@)),
{
    let ghost rs = rows@.map_values(|q: Vec<char>| q@);
    let mut t: Vec<Resource> = Vec::new();
    let mut r: usize = 0;
    proof {
        assert(rs.skip(0) =~= rs);
        assert(t@ + resources_of_rows(rs) =~= resources_of_rows(rs));
    }
    while r < rows.len()
        invariant
            r <= rows@.len(),
            rs == rows@.map_values(|q: Vec<char>| q@),
            t@ + resources_of_rows(rs.skip(r as int)) == resources_of_rows(rs),
        decreases rows@.len() - r,
    {
        let ghost base = t@;
        let ghost rowseq = rows@[r as int]@;
        let row = &rows[r];
        let mut x: usize = 0;
        while x < row.len()
            invariant
                x <= row@.len(),
                rowseq == row@,
                t@ == base + row_resources(rowseq).take(x as int),
            decreases row@.len() - x,
        {
            t.push(Resource::from_char(row[x]));
            x += 1;
            proof {
                assert(t@ =~= base + row_resources(rowseq).take(x as int));
            }
        }
        r += 1;
        proof {
            assert(row_resources(rowseq).take(rowseq.len() as int) =~= row_resources(rowseq));
            assert(rs[r - 1] == rowseq);
            assert(rs.skip(r - 1).skip(1) =~= rs.skip(r as int));
            assert(resources_of_rows(rs.skip(r - 1)) == row_resources(rowseq) + resources_of_rows(
                rs.skip(r as int),
            ));
            assert(t@ + resources_of_rows(rs.skip(r as int)) =~= (base + resources_of_rows(
                rs.skip(r - 1),
            )));
        }
    }
    proof {
        assert(rs.skip(rows@.len() as int) =~= Seq::<Seq<char>>::empty());
        assert(t@ =~= resources_of_rows(rs));
    }
    t
}

/// Parses a terrain map: its tiles in row-major order, its width, and its
/// height. The map must be rectangular; a ragged map has no grid.
pub fn parse_terrain_grid(s: &str) -> (r: (Vec<Terrain>, usize, usize))
    requires
        rectangular(s@),
    ensures
        r.0@ == parse_terrains(s@),
        r.1 == parse_width(s@),
        r.2 == parse_height(s@),
        r.0@.len() == r.1 * r.2,
{
    let v = chars_of(s);
    let rows = split_rows(&v);
    let h = rows.len();
    let w = if h == 0 { 0 } else { rows[0].len() };
    let t = rows_to_terrains(&rows);
    proof {
        let rs = rows@.map_values(|q: Vec<char>| q@);
        assert(rs == clean_rows(s@));
        assert forall|i: int| 0 <= i < rs.len() implies (#[trigger] rs[i]).len() == w by {
            assert(rs[i] == clean_rows(s@)[i]);
        }
        lemma_tiles_of_rows_len(rs, w as int);
        assert((h as int) * (w as int) == (w as int) * (h as int)) by (nonlinear_arith);
    }
    (t, w, h)
}

/// Parses a resource map against a world of `size` tiles, falling back to
/// an all-`Empty` overlay when the parsed dimensions do not match.
pub fn parse_resource_overlay(s: &str, size: usize) -> (r: Vec<Resource>)
    ensures
        r@ == resource_overlay(s@, size as int),
        r@.len() == size,
{
    let v = chars_of(s);
    let rows = split_rows(&v);
    let h = rows.len();
    let w = if h == 0 { 0 } else { rows[0].len() };
    let mut rect = true;
    let mut i: usize = 0;
    while i < rows.len()
        invariant
            h == rows@.len(),
            w == if h == 0 { 0int } else { rows@[0]@.len() as int },
            i <= h,
            rect == forall|r: int| 0 <= r < i ==> (#[trigger] rows@[r]@).len() == w,
        decreases rows@.len() - i,
    {
        if rows[i].len() != w {
            rect = false;
        }
        i += 1;
    }
    proof {
        let rs = rows@.map_values(|q: Vec<char>| q@);
        assert(rs == clean_rows(s@));
        assert forall|r: int| 0 <= r < rs.len() implies rows@[r]@ == (#[trigger] rs[r]) by {}
        if h == 0 {
            assert(rectangular(s@));
        } else {
            assert(rs[0] == rows@[0]@);
            assert(parse_width(s@) == w);
            if rect {
                assert forall|r: int| 0 <= r < clean_rows(s@).len() implies (#[trigger] clean_rows(
                    s@,
                )[r]).len() == parse_width(s@) by {
                    assert(clean_rows(s@)[r] == rows@[r]@);
                }
            } else {
                assert(exists|r: int| 0 <= r < h && (#[trigger] rows@[r]@).len() != w);
                let r0 = choose|r: int| 0 <= r < h && (#[trigger] rows@[r]@).len() != w;
                assert(clean_rows(s@)[r0].len() != parse_width(s@));
            }
        }
        assert(rect == rectangular(s@));
    }
    let dims_match = match w.checked_mul(h) {
        Some(sz) => sz == size,
        None => false,
    };
    proof {
        assert(dims_match == (parse_width(s@) * parse_height(s@) == size as int));
    }
    if rect && dims_match {
        let t = rows_to_resources(&rows);
        proof {
            let rs = rows@.map_values(|q: Vec<char>| q@);
            assert forall|r: int| 0 <= r < rs.len() implies (#[trigger] rs[r]).len() == w by {}
            lemma_resources_of_rows_len(rs, w as int);
            assert((h as int) * (w as int) == (w as int) * (h as int)) by (nonlinear_arith);
        }
        t
    } else {
        let t = vec![Resource::Empty; size];
        proof {
            assert(t@ =~= Seq::new(size as nat, |i: int| Resource::Empty));
        }
        t
    }
}

} // verus!
