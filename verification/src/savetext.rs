//! A save as a directory of text: the naming of its files and the glyphs of
//! its map picture.
use vstd::prelude::*;
use crate::text::{chars_of, string_of};
use crate::defs::DefId;

verus! {

/// What `unpack` wrote.
#[derive(Debug)]
pub struct Unpacked {
    pub epochs: usize,
    pub snapshots: usize,
    /// Bytes at the end of the save that didn't make a whole chunk.
    pub cut: u64,
}

/// A Unicode scalar value: not past 0x10FFFF, and not a surrogate.
pub open spec fn scalar_value(v: int) -> bool {
    0 <= v <= 0x10FFFF && !(0xD800 <= v <= 0xDFFF)
}

/// Whether std counts `c` as alphabetic (Unicode's `Alphabetic` property).
pub uninterp spec fn alphabetic(c: char) -> bool;

/// Wraps `char::is_alphabetic`: std documents it as Unicode's derived
/// `Alphabetic` property, a table lookup named here by `alphabetic`.
#[verifier::external_body]
fn is_alphabetic(c: char) -> (r: bool)
    ensures
        r == alphabetic(c),
{
    c.is_alphabetic()
}

/// Wraps `char::from_u32`, which std documents as giving the character
/// whose value is `v` when `v` is a Unicode scalar value, and `None`
/// otherwise.
#[verifier::external_body]
fn char_from_u32(v: u32) -> (r: Option<char>)
    ensures
        scalar_value(v as int) ==> r == Some(v as char),
        !scalar_value(v as int) ==> r is None,
{
    char::from_u32(v)
}

/// The first glyphs: a to z, A to Z, 0 to 9.
pub open spec fn ascii_glyph(i: int) -> char {
    if i < 26 {
        (97 + i) as char
    } else if i < 52 {
        (65 + i - 26) as char
    } else {
        (48 + i - 52) as char
    }
}

/// Where the glyphs past the ASCII ones are taken from: the Latin letters
/// from U+00C0 on (the offset taken as 32 bits).
pub open spec fn latin_value(i: int) -> int {
    0xc0 + ((i - 62) as u32) as int
}

/// The character for terrain `i` in the map picture.
pub open spec fn glyph_spec(i: int) -> Option<char> {
    if i < 62 {
        Some(ascii_glyph(i))
    } else if scalar_value(latin_value(i)) && alphabetic(latin_value(i) as char) {
        Some(latin_value(i) as char)
    } else {
        None
    }
}

/// Characters for the map picture, one per terrain: the ASCII letters and
/// digits, then the Latin letters past ASCII.
pub fn glyph(i: usize) -> (r: Option<char>)
    requires
        i >= 62 ==> latin_value(i as int) <= u32::MAX,
    ensures
        r == glyph_spec(i as int),
{
    if i < 26 {
        Some(((97 + i) as u8) as char)
    } else if i < 52 {
        Some(((65 + i - 26) as u8) as char)
    } else if i < 62 {
        Some(((48 + i - 52) as u8) as char)
    } else {
        #[verifier::truncate]
        let off: u32 = (i - 62) as u32;
        let v: u32 = 0xc0 + off;
        match char_from_u32(v) {
            Some(c) => if is_alphabetic(c) {
                Some(c)
            } else {
                None
            },
            None => None,
        }
    }
}

/// The owner of a section's name (before the first `:`), and the rest.
pub open spec fn first_colon(name: Seq<char>) -> Option<int> {
    if exists|k: int| 0 <= k < name.len() && name[k] == ':' {
        Some(choose|k: int| 0 <= k < name.len() && name[k] == ':' && forall|j: int| 0 <= j < k ==> name[j] != ':')
    } else {
        None
    }
}

/// The folder and file a section is written to: "engine:pawn" lives at
/// engine/pawn.json; a section with no owner under `_`.
pub open spec fn section_parts_spec(name: Seq<char>) -> (Seq<char>, Seq<char>) {
    let (owner, rest) = match first_colon(name) {
        Some(k) => (name.take(k), name.skip(k + 1)),
        None => (Seq::empty(), name),
    };
    (if owner.len() == 0 { "_"@ } else { owner }, rest + ".json"@)
}

/// The folder and file name a section is written to.
pub fn section_parts(name: &str) -> (r: (String, String))
    ensures
        (r.0@, r.1@) == section_parts_spec(name@),
{
    let cs = chars_of(name);
    let mut k: usize = 0;
    while k < cs.len() && cs[k] != ':'
        invariant
            k <= cs@.len(),
            forall|j: int| 0 <= j < k ==> cs@[j] != ':',
        decreases cs@.len() - k,
    {
        k += 1;
    }
    proof {
        assert(cs@.subrange(0, k as int) =~= cs@.take(k as int));
        assert(cs@.subrange(k + 1, cs@.len() as int) =~= cs@.skip(k + 1));
    }
    let (dir, rest) = if k < cs.len() {
        proof {
            assert(cs@[k as int] == ':');
            let q = choose|q: int|
                0 <= q < cs@.len() && cs@[q] == ':' && forall|j: int| 0 <= j < q ==> cs@[j] != ':';
            assert(q == k as int);
        }
        let rest = crate::text::string_of_range(cs.as_slice(), k + 1, cs.len());
        if k == 0 {
            (String::from_str("_"), rest)
        } else {
            (crate::text::string_of_range(cs.as_slice(), 0, k), rest)
        }
    } else {
        (String::from_str("_"), string_of(cs.as_slice()))
    };
    let mut file = rest;
    file.append(".json");
    (dir, file)
}

// ------------------------------------------------------------ the map picture

/// Every terrain up to `n` has a glyph.
pub open spec fn glyphs_exist(n: int) -> bool {
    forall|i: int| 0 <= i < n ==> #[trigger] glyph_spec(i) is Some
}

/// The glyphs of the first `n` terrains.
pub open spec fn glyph_list(n: int) -> Seq<char> {
    Seq::new(n as nat, |i: int| glyph_spec(i)->0)
}

/// A cell of the picture: its terrain's glyph, `?` for a terrain with none.
pub open spec fn cell_glyph(gl: Seq<char>, t: DefId) -> char {
    if (t as int) < gl.len() {
        gl[t as int]
    } else {
        '?'
    }
}

/// A row of the picture.
pub open spec fn row_glyphs(gl: Seq<char>, row: Seq<DefId>) -> Seq<char> {
    row.map_values(|t: DefId| cell_glyph(gl, t))
}

/// The picture's rows: the terrain cut into rows `wd` cells wide, the last
/// one shorter when the cells run out.
pub open spec fn picture_rows(gl: Seq<char>, t: Seq<DefId>, wd: int) -> Seq<Seq<char>>
    decreases t.len(),
{
    if t.len() == 0 || wd <= 0 {
        Seq::empty()
    } else if t.len() <= wd {
        seq![row_glyphs(gl, t)]
    } else {
        seq![row_glyphs(gl, t.take(wd))] + picture_rows(gl, t.skip(wd), wd)
    }
}

/// The views of some strings.
pub open spec fn string_views(v: Seq<String>) -> Seq<Seq<char>> {
    v.map_values(|s: String| s@)
}

/// The map as rows of glyphs, and the glyph of each terrain (its legend):
/// `terrain` cut into rows of `width` cells (at least one), each cell its
/// terrain's glyph. There are only so many glyphs: past them, an error.
pub fn map_picture(terrain: &[DefId], width: usize, terrains: usize) -> (r: Result<(Vec<String>, Vec<char>), String>)
    requires
        terrains <= 0x1_0000_0000 - 0xc0 + 62,
    ensures
        match r {
            Ok((rows, glyphs)) => {
                &&& glyphs_exist(terrains as int)
                &&& glyphs@ == glyph_list(terrains as int)
                &&& string_views(rows@) == picture_rows(glyphs@, terrain@, if width == 0 { 1 } else { width as int })
            },
            Err(e) => !glyphs_exist(terrains as int) && e@ == "too many terrains to draw"@,
        },
{
    let mut glyphs: Vec<char> = Vec::new();
    let mut i: usize = 0;
    while i < terrains
        invariant
            i <= terrains,
            terrains <= 0x1_0000_0000 - 0xc0 + 62,
            glyphs_exist(i as int),
            glyphs@ == glyph_list(i as int),
        decreases terrains - i,
    {
        match glyph(i) {
            Some(c) => {
                glyphs.push(c);
                proof {
                    assert(glyphs@ =~= glyph_list(i + 1));
                }
            },
            None => {
                return Err(String::from_str("too many terrains to draw"));
            },
        }
        i += 1;
    }
    let wd: usize = if width == 0 { 1 } else { width };
    let n = terrain.len();
    let mut rows: Vec<String> = Vec::new();
    let mut pos: usize = 0;
    let ghost gl = glyphs@;
    proof {
        assert(terrain@.skip(0) =~= terrain@);
        assert(string_views(rows@) =~= Seq::<Seq<char>>::empty());
    }
    while pos < n
        invariant
            n == terrain@.len(),
            gl == glyphs@,
            wd >= 1,
            pos <= n,
            string_views(rows@) + picture_rows(gl, terrain@.skip(pos as int), wd as int) == picture_rows(gl, terrain@, wd as int),
        decreases n - pos,
    {
        let end = if n - pos <= wd { n } else { pos + wd };
        let mut row = String::new();
        let mut k = pos;
        while k < end
            invariant
                pos <= k <= end <= n,
                n == terrain@.len(),
                gl == glyphs@,
                row@ == row_glyphs(gl, terrain@.subrange(pos as int, k as int)),
            decreases end - k,
        {
            let t = terrain[k];
            let c = if (t as usize) < glyphs.len() { glyphs[t as usize] } else { '?' };
            crate::text::push_char(&mut row, c);
            proof {
                assert(terrain@.subrange(pos as int, k + 1) =~= terrain@.subrange(pos as int, k as int).push(t));
                assert(row_glyphs(gl, terrain@.subrange(pos as int, k + 1)) =~= row_glyphs(gl, terrain@.subrange(pos as int, k as int)).push(cell_glyph(gl, t)));
            }
            k += 1;
        }
        let ghost rest = terrain@.skip(pos as int);
        let ghost before = string_views(rows@);
        let ghost rv = row@;
        rows.push(row);
        proof {
            assert(string_views(rows@) =~= before.push(rv));
            if n - pos <= wd {
                assert(terrain@.subrange(pos as int, end as int) =~= rest);
                assert(terrain@.skip(end as int) =~= Seq::<DefId>::empty());
                assert(picture_rows(gl, rest, wd as int) == seq![rv]);
                assert(before.push(rv) + picture_rows(gl, terrain@.skip(end as int), wd as int) =~= before + seq![rv]);
            } else {
                assert(terrain@.subrange(pos as int, end as int) =~= rest.take(wd as int));
                assert(rest.skip(wd as int) =~= terrain@.skip(end as int));
                assert(picture_rows(gl, rest, wd as int) == seq![rv] + picture_rows(gl, terrain@.skip(end as int), wd as int));
                assert(before.push(rv) + picture_rows(gl, terrain@.skip(end as int), wd as int) =~= before + (seq![rv]
                    + picture_rows(gl, terrain@.skip(end as int), wd as int)));
            }
        }
        pos = end;
    }
    proof {
        assert(terrain@.skip(pos as int) =~= Seq::<DefId>::empty());
        assert(string_views(rows@) + Seq::<Seq<char>>::empty() =~= string_views(rows@));
    }
    Ok((rows, glyphs))
}

/// The legend's terrain name for glyph `c`: its first entry.
pub open spec fn legend_name(legend: Seq<(char, String)>, c: char) -> Option<Seq<char>> {
    if exists|k: int| 0 <= k < legend.len() && legend[k].0 == c {
        Some(legend[choose|k: int| 0 <= k < legend.len() && legend[k].0 == c && forall|j: int| 0 <= j < k ==> legend[j].0 != c].1@)
    } else {
        None
    }
}

/// Where a terrain name first stands among the terrains.
pub open spec fn name_index(names: Seq<String>, name: Seq<char>) -> Option<int> {
    if exists|k: int| 0 <= k < names.len() && names[k]@ == name {
        Some(choose|k: int| 0 <= k < names.len() && names[k]@ == name && forall|j: int| 0 <= j < k ==> names[j]@ != name)
    } else {
        None
    }
}

/// What one glyph at (`x`, `y`) reads as: its terrain, or the error.
#[verifier::opaque]
pub open spec fn read_cell(legend: Seq<(char, String)>, names: Seq<String>, c: char, x: nat, y: nat) -> Result<DefId, Seq<char>> {
    match legend_name(legend, c) {
        None => Err(
            "engine:map: "@ + seq![c] + " at ("@ + crate::text::decimal_spec(x) + ", "@ + crate::text::decimal_spec(y)
                + ") isn't in the legend"@,
        ),
        Some(name) => match name_index(names, name) {
            None => Err("engine:map: no terrain "@ + name),
            Some(i) => Ok(i as DefId),
        },
    }
}

/// A row's glyphs from column `x` on, as terrains: the first error stops it.
pub open spec fn read_row(legend: Seq<(char, String)>, names: Seq<String>, row: Seq<char>, x: nat, y: nat) -> Result<Seq<DefId>, Seq<char>>
    decreases row.len(),
{
    if row.len() == 0 {
        Ok(Seq::empty())
    } else {
        match read_cell(legend, names, row[0], x, y) {
            Err(e) => Err(e),
            Ok(t) => match read_row(legend, names, row.drop_first(), x + 1, y) {
                Err(e) => Err(e),
                Ok(rest) => Ok(seq![t] + rest),
            },
        }
    }
}

/// The picture's rows from row `y` on, as terrains, row by row.
pub open spec fn read_rows(legend: Seq<(char, String)>, names: Seq<String>, rows: Seq<Seq<char>>, y: nat) -> Result<Seq<DefId>, Seq<char>>
    decreases rows.len(),
{
    if rows.len() == 0 {
        Ok(Seq::empty())
    } else {
        match read_row(legend, names, rows[0], 0, y) {
            Err(e) => Err(e),
            Ok(a) => match read_rows(legend, names, rows.drop_first(), y + 1) {
                Err(e) => Err(e),
                Ok(b) => Ok(a + b),
            },
        }
    }
}

/// `done` followed by what the rest reads as.
pub open spec fn then_read(done: Seq<DefId>, rest: Result<Seq<DefId>, Seq<char>>) -> Result<Seq<DefId>, Seq<char>> {
    match rest {
        Ok(b) => Ok(done + b),
        Err(e) => Err(e),
    }
}

fn legend_lookup(legend: &[(char, String)], c: char) -> (r: Option<usize>)
    ensures
        match r {
            Some(k) => k < legend@.len() && legend_name(legend@, c) == Some(legend@[k as int].1@),
            None => legend_name(legend@, c) is None,
        },
{
    let mut k: usize = 0;
    while k < legend.len()
        invariant
            k <= legend@.len(),
            forall|j: int| 0 <= j < k ==> legend@[j].0 != c,
        decreases legend@.len() - k,
    {
        if legend[k].0 == c {
            proof {
                let q = choose|q: int| 0 <= q < legend@.len() && legend@[q].0 == c && forall|j: int| 0 <= j < q ==> legend@[j].0 != c;
                assert(q == k as int) by {
                    if q < k {
                    } else if q > k {
                        assert(legend@[k as int].0 == c);
                    }
                }
            }
            return Some(k);
        }
        k += 1;
    }
    None
}

fn name_lookup(names: &[String], name: &str) -> (r: Option<usize>)
    ensures
        match r {
            Some(k) => name_index(names@, name@) == Some(k as int),
            None => name_index(names@, name@) is None,
        },
{
    let mut k: usize = 0;
    while k < names.len()
        invariant
            k <= names@.len(),
            forall|j: int| 0 <= j < k ==> names@[j]@ != name@,
        decreases names@.len() - k,
    {
        if crate::text::str_eq(names[k].as_str(), name) {
            proof {
                let q = choose|q: int| 0 <= q < names@.len() && names@[q]@ == name@ && forall|j: int| 0 <= j < q ==> names@[j]@ != name@;
                assert(q == k as int) by {
                    if q < k {
                    } else if q > k {
                        assert(names@[k as int]@ == name@);
                    }
                }
            }
            return Some(k);
        }
        k += 1;
    }
    None
}

fn cell_of(legend: &[(char, String)], names: &[String], c: char, x: usize, y: usize) -> (r: Result<DefId, String>)
    ensures
        match (r, read_cell(legend@, names@, c, x as nat, y as nat)) {
            (Ok(t), Ok(st)) => t == st,
            (Err(e), Err(se)) => e@ == se,
            _ => false,
        },
{
    reveal(read_cell);
    let k = match legend_lookup(legend, c) {
        Some(k) => k,
        None => {
            let mut e = String::from_str("engine:map: ");
            crate::text::push_char(&mut e, c);
            e.append(" at (");
            let xs = crate::text::decimal(x as u64);
            let ys = crate::text::decimal(y as u64);
            e.append(xs.as_str());
            e.append(", ");
            e.append(ys.as_str());
            e.append(") isn't in the legend");
            return Err(e);
        },
    };
    let name = legend[k].1.as_str();
    match name_lookup(names, name) {
        Some(i) => Ok(#[verifier::truncate] (i as DefId)),
        None => {
            let mut e = String::from_str("engine:map: no terrain ");
            e.append(name);
            Err(e)
        },
    }
}

proof fn lemma_read_row_step(legend: Seq<(char, String)>, names: Seq<String>, row: Seq<char>, x: nat, y: nat)
    requires
        row.len() > 0,
    ensures
        read_cell(legend, names, row[0], x, y) matches Err(e) ==> read_row(legend, names, row, x, y) == Err::<Seq<DefId>, Seq<char>>(e),
        read_cell(legend, names, row[0], x, y) matches Ok(t) ==> read_row(legend, names, row, x, y) == then_read(
            seq![t],
            read_row(legend, names, row.drop_first(), x + 1, y),
        ),
{
}

proof fn lemma_then_read_assoc(a: Seq<DefId>, b: Seq<DefId>, r: Result<Seq<DefId>, Seq<char>>)
    ensures
        then_read(a, then_read(b, r)) == then_read(a + b, r),
{
    match r {
        Ok(c) => {
            assert(a + (b + c) =~= (a + b) + c);
        },
        Err(_) => {},
    }
}

/// The terrain of every cell of a map picture, row by row: each glyph's
/// name in the legend, then that name's place among the terrains.
pub fn read_picture(legend: &[(char, String)], rows: &[String], names: &[String]) -> (r: Result<Vec<DefId>, String>)
    ensures
        match (r, read_rows(legend@, names@, string_views(rows@), 0)) {
            (Ok(v), Ok(sv)) => v@ == sv,
            (Err(e), Err(se)) => e@ == se,
            _ => false,
        },
{
    let ghost rv = string_views(rows@);
    let mut out: Vec<DefId> = Vec::new();
    let mut y: usize = 0;
    proof {
        assert(rv.skip(0) =~= rv);
        assert(Seq::<DefId>::empty() + Seq::<DefId>::empty() =~= Seq::<DefId>::empty());
        lemma_then_read_assoc(Seq::empty(), Seq::empty(), read_rows(legend@, names@, rv, 0));
        match read_rows(legend@, names@, rv, 0) {
            Ok(c) => {
                assert(Seq::<DefId>::empty() + c =~= c);
            },
            Err(_) => {},
        }
    }
    while y < rows.len()
        invariant
            y <= rows@.len(),
            rv == string_views(rows@),
            read_rows(legend@, names@, rv, 0) == then_read(out@, read_rows(legend@, names@, rv.skip(y as int), y as nat)),
        decreases rows@.len() - y,
    {
        let cs = chars_of(rows[y].as_str());
        let ghost out0 = out@;
        let ghost rest_rows = rv.skip(y as int);
        let ghost mut cells: Seq<DefId> = Seq::empty();
        proof {
            assert(rest_rows[0] == cs@);
            assert(rest_rows.drop_first() =~= rv.skip(y + 1));
            assert(cs@.skip(0) =~= cs@);
            match read_row(legend@, names@, cs@, 0, y as nat) {
                Ok(c) => {
                    assert(Seq::<DefId>::empty() + c =~= c);
                },
                Err(_) => {},
            }
        }
        let mut x: usize = 0;
        while x < cs.len()
            invariant
                x <= cs@.len(),
                out@ == out0 + cells,
                rest_rows.len() > 0,
                rest_rows[0] == cs@,
                rv == string_views(rows@),
                read_rows(legend@, names@, rv, 0) == then_read(out0, read_rows(legend@, names@, rest_rows, y as nat)),
                read_row(legend@, names@, cs@, 0, y as nat) == then_read(cells, read_row(legend@, names@, cs@.skip(x as int), x as nat, y as nat)),
            decreases cs@.len() - x,
        {
            let c = cs[x];
            let ghost tail = cs@.skip(x as int);
            proof {
                assert(tail[0] == c);
                assert(tail.drop_first() =~= cs@.skip(x + 1));
            }
            proof {
                lemma_read_row_step(legend@, names@, tail, x as nat, y as nat);
            }
            match cell_of(legend, names, c, x, y) {
                Ok(t) => {
                    proof {
                        lemma_then_read_assoc(cells, seq![t], read_row(legend@, names@, cs@.skip(x + 1), (x + 1) as nat, y as nat));
                        cells = cells + seq![t];
                    }
                    out.push(t);
                    assert(out@ =~= out0 + cells);
                },
                Err(e) => {
                    proof {
                        assert(read_row(legend@, names@, tail, x as nat, y as nat) == Err::<Seq<DefId>, Seq<char>>(e@));
                        assert(read_row(legend@, names@, cs@, 0, y as nat) == Err::<Seq<DefId>, Seq<char>>(e@));
                        assert(read_rows(legend@, names@, rest_rows, y as nat) == Err::<Seq<DefId>, Seq<char>>(e@));
                    }
                    return Err(e);
                },
            }
            x += 1;
        }
        proof {
            assert(cs@.skip(x as int) =~= Seq::<char>::empty());
            assert(cells + Seq::<DefId>::empty() =~= cells);
            assert(read_row(legend@, names@, cs@, 0, y as nat) == Ok::<Seq<DefId>, Seq<char>>(cells));
            lemma_then_read_assoc(out0, cells, read_rows(legend@, names@, rv.skip(y + 1), (y + 1) as nat));
        }
        y += 1;
    }
    proof {
        assert(rv.skip(y as int) =~= Seq::<Seq<char>>::empty());
        assert(out@ + Seq::<DefId>::empty() =~= out@);
    }
    Ok(out)
}

/// The terrains are told apart by name, each name once.
pub open spec fn names_distinct(names: Seq<String>) -> bool {
    forall|i: int, j: int| 0 <= i < j < names.len() ==> names[i]@ != names[j]@
}

/// The legend gives every glyph its terrain's name.
pub open spec fn legend_names(legend: Seq<(char, String)>, gl: Seq<char>, names: Seq<String>) -> bool {
    gl.len() == names.len() && forall|i: int| 0 <= i < gl.len() ==> legend_name(legend, #[trigger] gl[i]) == Some(names[i]@)
}

proof fn lemma_cell_reads_back(legend: Seq<(char, String)>, names: Seq<String>, gl: Seq<char>, t: DefId, x: nat, y: nat)
    requires
        names_distinct(names),
        legend_names(legend, gl, names),
        (t as int) < names.len(),
    ensures
        read_cell(legend, names, cell_glyph(gl, t), x, y) == Ok::<DefId, Seq<char>>(t),
{
    reveal(read_cell);
    let name = names[t as int]@;
    assert(legend_name(legend, gl[t as int]) == Some(name));
    assert(names[t as int]@ == name);
    let q = choose|k: int| 0 <= k < names.len() && names[k]@ == name && forall|j: int| 0 <= j < k ==> names[j]@ != name;
    assert(q == t as int) by {
        if q < t as int {
            assert(names[q]@ != names[t as int]@);
        } else if q > t as int {
            assert(names[t as int]@ != names[q]@);
        }
    }
}

proof fn lemma_row_reads_back(legend: Seq<(char, String)>, names: Seq<String>, gl: Seq<char>, seg: Seq<DefId>, x: nat, y: nat)
    requires
        names_distinct(names),
        legend_names(legend, gl, names),
        forall|k: int| 0 <= k < seg.len() ==> (#[trigger] seg[k] as int) < names.len(),
    ensures
        read_row(legend, names, row_glyphs(gl, seg), x, y) == Ok::<Seq<DefId>, Seq<char>>(seg),
    decreases seg.len(),
{
    let row = row_glyphs(gl, seg);
    if seg.len() > 0 {
        lemma_cell_reads_back(legend, names, gl, seg[0], x, y);
        assert(row[0] == cell_glyph(gl, seg[0]));
        assert(row.drop_first() =~= row_glyphs(gl, seg.drop_first()));
        lemma_row_reads_back(legend, names, gl, seg.drop_first(), x + 1, y);
        assert(seq![seg[0]] + seg.drop_first() =~= seg);
    } else {
        assert(row =~= Seq::<char>::empty());
        assert(seg =~= Seq::<DefId>::empty());
    }
}

/// A map picture reads back as the terrain it was drawn from, whenever its
/// legend names each glyph's terrain and the terrains' names differ: the
/// text form of a save holds the map exactly.
pub proof fn law_picture_reads_back(
    legend: Seq<(char, String)>,
    names: Seq<String>,
    gl: Seq<char>,
    terrain: Seq<DefId>,
    wd: int,
    y: nat,
)
    requires
        names_distinct(names),
        legend_names(legend, gl, names),
        wd >= 1,
        forall|k: int| 0 <= k < terrain.len() ==> (#[trigger] terrain[k] as int) < names.len(),
    ensures
        read_rows(legend, names, picture_rows(gl, terrain, wd), y) == Ok::<Seq<DefId>, Seq<char>>(terrain),
    decreases terrain.len(),
{
    let rows = picture_rows(gl, terrain, wd);
    if terrain.len() == 0 {
        assert(terrain =~= Seq::<DefId>::empty());
    } else if terrain.len() <= wd {
        lemma_row_reads_back(legend, names, gl, terrain, 0, y);
        assert(rows[0] == row_glyphs(gl, terrain));
        assert(rows.drop_first() =~= Seq::<Seq<char>>::empty());
        assert(read_rows(legend, names, rows.drop_first(), y + 1) == Ok::<Seq<DefId>, Seq<char>>(Seq::empty()));
        assert(terrain + Seq::<DefId>::empty() =~= terrain);
    } else {
        let head = terrain.take(wd);
        let tail = terrain.skip(wd);
        assert forall|k: int| 0 <= k < head.len() implies (#[trigger] head[k] as int) < names.len() by {
            assert(head[k] == terrain[k]);
        }
        assert forall|k: int| 0 <= k < tail.len() implies (#[trigger] tail[k] as int) < names.len() by {
            assert(tail[k] == terrain[k + wd]);
        }
        lemma_row_reads_back(legend, names, gl, head, 0, y);
        law_picture_reads_back(legend, names, gl, tail, wd, y + 1);
        assert(rows[0] == row_glyphs(gl, head));
        assert(rows.drop_first() =~= picture_rows(gl, tail, wd));
        assert(head + tail =~= terrain);
    }
}

} // verus!
