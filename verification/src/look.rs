//! What things look like: colours, the art a look asks for, and what
//! counts as one character of text.
use vstd::prelude::*;
use crate::defs::{hex_val, is_hex, strip_hashes};

verus! {

/// A colour as `#rrggbb` or `#rrggbbaa` (any number of `#`s in front),
/// opaque when no alpha is given; or else nothing.
pub open spec fn rgba_spec(s: Seq<char>) -> Option<Seq<u8>> {
    let h = strip_hashes(s);
    if (h.len() == 6 || h.len() == 8) && forall|k: int| 0 <= k < h.len() ==> #[trigger] is_hex(h[k]) {
        Some(seq![
            (16 * hex_val(h[0]) + hex_val(h[1])) as u8,
            (16 * hex_val(h[2]) + hex_val(h[3])) as u8,
            (16 * hex_val(h[4]) + hex_val(h[5])) as u8,
            if h.len() == 8 { (16 * hex_val(h[6]) + hex_val(h[7])) as u8 } else { 255u8 },
        ])
    } else {
        None
    }
}

/// A letter `A`–`F` in lower case; any other character as it is.
pub open spec fn lower_hex_letter(c: char) -> char {
    if c == 'A' {
        'a'
    } else if c == 'B' {
        'b'
    } else if c == 'C' {
        'c'
    } else if c == 'D' {
        'd'
    } else if c == 'E' {
        'e'
    } else if c == 'F' {
        'f'
    } else {
        c
    }
}

/// A text with its letters `A`–`F` lower-cased.
pub open spec fn lower_hex_letters(s: Seq<char>) -> Seq<char> {
    Seq::new(s.len(), |i: int| lower_hex_letter(s[i]))
}

proof fn lemma_strip_lowered(s: Seq<char>)
    ensures
        strip_hashes(lower_hex_letters(s)) == lower_hex_letters(strip_hashes(s)),
    decreases s.len(),
{
    if s.len() > 0 && s[0] == '#' {
        assert(lower_hex_letters(s).drop_first() =~= lower_hex_letters(s.drop_first()));
        lemma_strip_lowered(s.drop_first());
    } else {
        assert(lower_hex_letters(s).len() == 0 || lower_hex_letters(s)[0] != '#');
    }
}

/// Hex digits read the same in either case: a text and the same text with
/// its letters `A`–`F` lower-cased give the same colour, or both none.
pub proof fn law_colour_case_blind(s: Seq<char>)
    ensures
        rgba_spec(s) == rgba_spec(lower_hex_letters(s)),
{
    lemma_strip_lowered(s);
    let h = strip_hashes(s);
    let l = lower_hex_letters(h);
    assert forall|k: int| 0 <= k < h.len() implies is_hex(#[trigger] l[k]) == is_hex(h[k]) && (is_hex(h[k]) ==> hex_val(l[k]) == hex_val(h[k])) by {
        assert(l[k] == lower_hex_letter(h[k]));
    }
    if (h.len() == 6 || h.len() == 8) && forall|k: int| 0 <= k < h.len() ==> #[trigger] is_hex(h[k]) {
        assert(forall|k: int| 0 <= k < l.len() ==> #[trigger] is_hex(l[k]));
    } else if h.len() == 6 || h.len() == 8 {
        let k = choose|k: int| 0 <= k < h.len() && !is_hex(#[trigger] h[k]);
        assert(!is_hex(l[k]));
    }
}

/// The lower-case hex digit for `d` < 16.
pub open spec fn hex_char(d: int) -> char {
    "0123456789abcdef"@[d]
}

/// A byte as two hex digits.
pub open spec fn hex_pair(b: u8) -> Seq<char> {
    seq![hex_char(b as int / 16), hex_char(b as int % 16)]
}

proof fn lemma_hex_char(d: int)
    requires
        0 <= d < 16,
    ensures
        is_hex(hex_char(d)),
        hex_val(hex_char(d)) == d,
{
    reveal_strlit("0123456789abcdef");
    assert("0123456789abcdef"@.len() == 16);
    if d < 8 {
        if d < 4 {
            assert(d == 0 || d == 1 || d == 2 || d == 3);
        } else {
            assert(d == 4 || d == 5 || d == 6 || d == 7);
        }
    } else if d < 12 {
        assert(d == 8 || d == 9 || d == 10 || d == 11);
    } else {
        assert(d == 12 || d == 13 || d == 14 || d == 15);
    }
}

proof fn lemma_hex_pair(b: u8)
    ensures
        is_hex(hex_pair(b)[0]) && is_hex(hex_pair(b)[1]),
        16 * hex_val(hex_pair(b)[0]) + hex_val(hex_pair(b)[1]) == b,
{
    lemma_hex_char(b as int / 16);
    lemma_hex_char(b as int % 16);
}

/// A colour written as `#` and two hex digits a byte reads back as those
/// bytes: opaque with three, with the fourth as alpha with four.
pub proof fn law_colour_reads_back(r: u8, g: u8, b: u8, a: u8)
    ensures
        rgba_spec("#"@ + hex_pair(r) + hex_pair(g) + hex_pair(b)) == Some(seq![r, g, b, 255u8]),
        rgba_spec("#"@ + hex_pair(r) + hex_pair(g) + hex_pair(b) + hex_pair(a)) == Some(seq![r, g, b, a]),
{
    reveal_strlit("#");
    lemma_hex_pair(r);
    lemma_hex_pair(g);
    lemma_hex_pair(b);
    lemma_hex_pair(a);
    let h6 = hex_pair(r) + hex_pair(g) + hex_pair(b);
    let h8 = h6 + hex_pair(a);
    let s6 = "#"@ + h6;
    let s8 = "#"@ + h8;
    assert(s6.drop_first() =~= h6);
    assert(s8.drop_first() =~= h8);
    assert(h6.len() == 6 && h6[0] != '#');
    assert(h8.len() == 8 && h8[0] != '#');
    assert(strip_hashes(h6) == h6);
    assert(strip_hashes(h8) == h8);
    assert(strip_hashes(s6) == h6);
    assert(strip_hashes(s8) == h8);
    assert(forall|k: int| 0 <= k < h6.len() ==> #[trigger] is_hex(h6[k]));
    assert(forall|k: int| 0 <= k < h8.len() ==> #[trigger] is_hex(h8[k]));
    assert(rgba_spec(s6) == Some(seq![r, g, b, 255u8]));
    assert(rgba_spec(s8) =~= Some(seq![r, g, b, a]));
    assert("#"@ + hex_pair(r) + hex_pair(g) + hex_pair(b) =~= s6);
    assert("#"@ + hex_pair(r) + hex_pair(g) + hex_pair(b) + hex_pair(a) =~= s8);
}

fn hex_digit(c: char) -> (r: Option<u8>)
    ensures
        r == (if is_hex(c) { Some(hex_val(c) as u8) } else { None }),
{
    if '0' <= c && c <= '9' {
        Some((c as u32 - '0' as u32) as u8)
    } else if 'a' <= c && c <= 'f' {
        Some((c as u32 - 'a' as u32 + 10) as u8)
    } else if 'A' <= c && c <= 'F' {
        Some((c as u32 - 'A' as u32 + 10) as u8)
    } else {
        None
    }
}

/// Reads a colour written `#rrggbb` or `#rrggbbaa`; the error names the text.
pub fn parse_rgba(s: &str) -> (r: Result<[u8; 4], String>)
    ensures
        match r {
            Ok(c) => rgba_spec(s@) == Some(c@),
            Err(e) => rgba_spec(s@) is None && e@ == "bad color '"@ + s@ + "' (want #rrggbb or #rrggbbaa)"@,
        },
{
    let cs = crate::text::chars_of(s);
    let mut start: usize = 0;
    assert(cs@.skip(0) =~= cs@);
    while start < cs.len() && cs[start] == '#'
        invariant
            cs@ == s@,
            start <= cs@.len(),
            strip_hashes(cs@.skip(start as int)) == strip_hashes(s@),
        decreases cs@.len() - start,
    {
        assert(cs@.skip(start as int).drop_first() =~= cs@.skip(start as int + 1));
        start += 1;
    }
    let ghost h = cs@.skip(start as int);
    assert(strip_hashes(h) == h);
    let bad = {
        let mut e = String::from_str("bad color '");
        e.append(s);
        e.append("' (want #rrggbb or #rrggbbaa)");
        e
    };
    let len = cs.len() - start;
    if len != 6 && len != 8 {
        return Err(bad);
    }
    let mut vals: Vec<u8> = Vec::new();
    let mut k: usize = 0;
    while k < len
        invariant
            cs@ == s@,
            h == cs@.skip(start as int),
            strip_hashes(s@) == h,
            h.len() == len,
            len == 6 || len == 8,
            start + len == cs@.len(),
            cs@.len() <= usize::MAX,
            k <= len,
            vals@.len() == k,
            forall|j: int| 0 <= j < k ==> is_hex(#[trigger] h[j]) && vals@[j] == hex_val(h[j]),
            bad@ == "bad color '"@ + s@ + "' (want #rrggbb or #rrggbbaa)"@,
        decreases len - k,
    {
        match hex_digit(cs[start + k]) {
            Some(v) => {
                vals.push(v);
            },
            None => {
                assert(!is_hex(h[k as int]));
                return Err(bad);
            },
        }
        k += 1;
    }
    let a = if len == 8 { vals[6] * 16 + vals[7] } else { 255 };
    let c = [vals[0] * 16 + vals[1], vals[2] * 16 + vals[3], vals[4] * 16 + vals[5], a];
    assert(c@ =~= seq![
        (16 * hex_val(h[0]) + hex_val(h[1])) as u8,
        (16 * hex_val(h[2]) + hex_val(h[3])) as u8,
        (16 * hex_val(h[4]) + hex_val(h[5])) as u8,
        if h.len() == 8 { (16 * hex_val(h[6]) + hex_val(h[7])) as u8 } else { 255u8 },
    ]);
    Ok(c)
}

/// Unicode white space, as `char::is_whitespace` reads it.
pub open spec fn white_space(c: char) -> bool {
    ||| '\u{9}' <= c <= '\u{D}'
    ||| c == ' '
    ||| c == '\u{85}'
    ||| c == '\u{A0}'
    ||| c == '\u{1680}'
    ||| '\u{2000}' <= c <= '\u{200A}'
    ||| c == '\u{2028}'
    ||| c == '\u{2029}'
    ||| c == '\u{202F}'
    ||| c == '\u{205F}'
    ||| c == '\u{3000}'
}

/// A control character, as `char::is_control` reads it.
pub open spec fn control(c: char) -> bool {
    c <= '\u{1F}' || ('\u{7F}' <= c <= '\u{9F}')
}

/// What may follow a base and still be part of its character: variation
/// selectors, the keycap, skin tones, tag characters and the joiner.
pub open spec fn extends_char(c: char) -> bool {
    ||| '\u{FE00}' <= c <= '\u{FE0F}'
    ||| c == '\u{20E3}'
    ||| '\u{1F3FB}' <= c <= '\u{1F3FF}'
    ||| '\u{E0020}' <= c <= '\u{E007F}'
    ||| c == '\u{200D}'
}

/// A regional indicator: half of a flag.
pub open spec fn flag_char(c: char) -> bool {
    '\u{1F1E6}' <= c <= '\u{1F1FF}'
}

/// One character as a player sees it: a base that draws something, then
/// only what extends it, what a joiner joins, or a flag's other letter.
pub open spec fn one_character_spec(g: Seq<char>) -> bool {
    &&& g.len() > 0
    &&& !white_space(g[0])
    &&& !control(g[0])
    &&& !('\u{200B}' <= g[0] <= '\u{200F}')
    &&& forall|i: int|
        1 <= i < g.len() ==> extends_char(#[trigger] g[i]) || (i >= 2 && g[i - 1] == '\u{200D}') || (flag_char(g[0])
            && flag_char(g[i]))
}

pub(crate) fn is_white_space(c: char) -> (r: bool)
    ensures
        r == white_space(c),
{
    ('\u{9}' <= c && c <= '\u{D}') || c == ' ' || c == '\u{85}' || c == '\u{A0}' || c == '\u{1680}' || ('\u{2000}' <= c && c
        <= '\u{200A}') || c == '\u{2028}' || c == '\u{2029}' || c == '\u{202F}' || c == '\u{205F}' || c == '\u{3000}'
}

fn is_flag(c: char) -> (r: bool)
    ensures
        r == flag_char(c),
{
    '\u{1F1E6}' <= c && c <= '\u{1F1FF}'
}

/// One character as a player sees it: a base that draws something, and
/// only what extends it (variation selectors, joiners and what they join,
/// skin tones, keycaps, a flag's second letter). "ab" is two.
pub fn one_character(g: &str) -> (r: bool)
    ensures
        r == one_character_spec(g@),
{
    let cs = crate::text::chars_of(g);
    if cs.len() == 0 {
        return false;
    }
    let base = cs[0];
    if is_white_space(base) || base <= '\u{1F}' || ('\u{7F}' <= base && base <= '\u{9F}') || ('\u{200B}' <= base && base
        <= '\u{200F}') {
        return false;
    }
    let mut joined = false;
    let mut i: usize = 1;
    while i < cs.len()
        invariant
            cs@ == g@,
            cs@.len() > 0,
            base == cs@[0],
            1 <= i <= cs@.len(),
            joined == (i >= 2 && cs@[i - 1] == '\u{200D}'),
            forall|j: int|
                1 <= j < i ==> extends_char(#[trigger] cs@[j]) || (j >= 2 && cs@[j - 1] == '\u{200D}') || (flag_char(cs@[0])
                    && flag_char(cs@[j])),
        decreases cs@.len() - i,
    {
        let c = cs[i];
        let extends = ('\u{FE00}' <= c && c <= '\u{FE0F}') || c == '\u{20E3}' || ('\u{1F3FB}' <= c && c <= '\u{1F3FF}')
            || ('\u{E0020}' <= c && c <= '\u{E007F}') || c == '\u{200D}' || joined || (is_flag(base) && is_flag(c));
        if !extends {
            return false;
        }
        joined = c == '\u{200D}';
        i += 1;
    }
    true
}

/// Where `item` first stands in `list`, if it does.
pub open spec fn first_equal(list: Seq<String>, item: Seq<char>, k: int) -> bool {
    0 <= k < list.len() && list[k]@ == item && forall|j: int| 0 <= j < k ==> list[j]@ != item
}

/// The index of `item` in `list`, adding it at the end if it isn't there.
/// Indices past `u16::MAX` wrap, as the atlas stores them in 16 bits.
pub fn intern(list: &mut Vec<String>, item: String) -> (r: u16)
    ensures
        (exists|k: int| 0 <= k < old(list)@.len() && old(list)@[k]@ == item@) ==> {
            &&& final(list)@ == old(list)@
            &&& exists|k: int| first_equal(old(list)@, item@, k) && r == k as u16
        },
        !(exists|k: int| 0 <= k < old(list)@.len() && old(list)@[k]@ == item@) ==> {
            &&& final(list)@ == old(list)@.push(item)
            &&& r == old(list)@.len() as u16
        },
{
    let mut k: usize = 0;
    while k < list.len()
        invariant
            k <= list@.len(),
            list@ == old(list)@,
            forall|j: int| 0 <= j < k ==> list@[j]@ != item@,
        decreases list@.len() - k,
    {
        if crate::text::str_eq(list[k].as_str(), item.as_str()) {
            assert(first_equal(old(list)@, item@, k as int));
            return #[verifier::truncate] (k as u16);
        }
        k += 1;
    }
    let n = list.len();
    list.push(item);
    #[verifier::truncate] (n as u16)
}

/// What the looks ask the world atlas for, in the order first used: sprite
/// keys, qualified (`mod:name`), and glyphs, which the client rasterises.
pub struct Art {
    pub sprites: Vec<String>,
    pub glyphs: Vec<String>,
    /// The mod whose def is compiling: a bare name is its sprite.
    pub home: String,
}

/// A sprite key as the atlas knows it: qualified keys as they are, bare
/// ones under the home mod.
pub open spec fn sprite_key(home: Seq<char>, key: Seq<char>) -> Seq<char> {
    if key.contains(':') { key } else { home + ":"@ + key }
}

impl Art {
    /// The atlas index of a sprite, listing it if new.
    pub fn sprite(&mut self, key: &str) -> (r: u16)
        ensures
            final(self).home == old(self).home,
            final(self).glyphs == old(self).glyphs,
            (exists|k: int| 0 <= k < old(self).sprites@.len() && old(self).sprites@[k]@ == sprite_key(old(self).home@, key@)) ==> {
                &&& final(self).sprites@ == old(self).sprites@
                &&& exists|k: int| first_equal(old(self).sprites@, sprite_key(old(self).home@, key@), k) && r == k as u16
            },
            !(exists|k: int| 0 <= k < old(self).sprites@.len() && old(self).sprites@[k]@ == sprite_key(old(self).home@, key@)) ==> {
                &&& final(self).sprites@.len() == old(self).sprites@.len() + 1
                &&& final(self).sprites@.drop_last() == old(self).sprites@
                &&& final(self).sprites@.last()@ == sprite_key(old(self).home@, key@)
                &&& r == old(self).sprites@.len() as u16
            },
    {
        let cs = crate::text::chars_of(key);
        let mut qualified = false;
        let mut k: usize = 0;
        while k < cs.len()
            invariant
                cs@ == key@,
                k <= cs@.len(),
                qualified == cs@.take(k as int).contains(':'),
            decreases cs@.len() - k,
        {
            proof {
                let t0 = cs@.take(k as int);
                let t1 = cs@.take(k as int + 1);
                assert(t1 == t0.push(cs@[k as int]));
                if t1.contains(':') && cs@[k as int] != ':' {
                    let q = choose|q: int| 0 <= q < t1.len() && t1[q] == ':';
                    assert(t0[q] == ':');
                }
                if t0.contains(':') {
                    let q = choose|q: int| 0 <= q < t0.len() && t0[q] == ':';
                    assert(t1[q] == ':');
                }
                if cs@[k as int] == ':' {
                    assert(t1[k as int] == ':');
                }
            }
            if cs[k] == ':' {
                qualified = true;
            }
            k += 1;
        }
        assert(cs@.take(k as int) =~= key@);
        let full = if qualified {
            String::from_str(key)
        } else {
            let mut f = String::from_str(self.home.as_str());
            f.append(":");
            f.append(key);
            f
        };
        proof {
            reveal_strlit(":");
        }
        intern(&mut self.sprites, full)
    }
}

// ------------------------------------------------------------------ layers

/// The primitives a layer can draw.
#[derive(Clone, Copy, Debug, PartialEq, Eq, Structural)]
pub enum Draw {
    Fill,
    Outline,
    Disc,
    Edges,
    Sprite,
    Glyph,
}

/// The optional fields of a layer, in the order they are checked.
pub const LAYER_FIELDS: usize = 12;

/// The name of optional field `i`.
pub open spec fn field_name_spec(i: int) -> Seq<char> {
    if i == 0 {
        "x"@
    } else if i == 1 {
        "y"@
    } else if i == 2 {
        "w"@
    } else if i == 3 {
        "h"@
    } else if i == 4 {
        "r"@
    } else if i == 5 {
        "width"@
    } else if i == 6 {
        "min_px"@
    } else if i == 7 {
        "pulse"@
    } else if i == 8 {
        "sprite"@
    } else if i == 9 {
        "tint"@
    } else if i == 10 {
        "glyph"@
    } else {
        "size"@
    }
}

fn field_name(i: usize) -> (r: &'static str)
    ensures
        r@ == field_name_spec(i as int),
{
    match i {
        0 => "x",
        1 => "y",
        2 => "w",
        3 => "h",
        4 => "r",
        5 => "width",
        6 => "min_px",
        7 => "pulse",
        8 => "sprite",
        9 => "tint",
        10 => "glyph",
        _ => "size",
    }
}

/// Whether optional field `i` applies to a primitive: the rest are
/// refused, so a typo can't pass for a default.
pub open spec fn applies(d: Draw, i: int) -> bool {
    match d {
        Draw::Fill => i == 0 || i == 1 || i == 2 || i == 3 || i == 6,
        Draw::Outline => i == 0 || i == 1 || i == 2 || i == 3 || i == 5,
        Draw::Disc => i == 0 || i == 1 || i == 4 || i == 6 || i == 7,
        Draw::Edges => i == 5,
        Draw::Sprite => i == 0 || i == 1 || i == 2 || i == 3 || i == 8 || i == 9,
        Draw::Glyph => i == 0 || i == 1 || i == 10 || i == 11,
    }
}

fn applies_exec(d: Draw, i: usize) -> (r: bool)
    ensures
        r == applies(d, i as int),
{
    match d {
        Draw::Fill => i == 0 || i == 1 || i == 2 || i == 3 || i == 6,
        Draw::Outline => i == 0 || i == 1 || i == 2 || i == 3 || i == 5,
        Draw::Disc => i == 0 || i == 1 || i == 4 || i == 6 || i == 7,
        Draw::Edges => i == 5,
        Draw::Sprite => i == 0 || i == 1 || i == 2 || i == 3 || i == 8 || i == 9,
        Draw::Glyph => i == 0 || i == 1 || i == 10 || i == 11,
    }
}

/// The primitive a layer's `draw` names.
pub open spec fn draw_spec(draw: Seq<char>) -> Option<Draw> {
    if draw == "fill"@ {
        Some(Draw::Fill)
    } else if draw == "outline"@ {
        Some(Draw::Outline)
    } else if draw == "disc"@ {
        Some(Draw::Disc)
    } else if draw == "edges"@ {
        Some(Draw::Edges)
    } else if draw == "sprite"@ {
        Some(Draw::Sprite)
    } else if draw == "glyph"@ {
        Some(Draw::Glyph)
    } else {
        None
    }
}

/// The first field given that doesn't apply, at `i`.
pub open spec fn first_misplaced(d: Draw, given: Seq<bool>, i: int) -> bool {
    &&& 0 <= i < given.len()
    &&& given[i] && !applies(d, i)
    &&& forall|j: int| 0 <= j < i ==> !(given[j] && !applies(d, j))
}

/// What checking a layer's `draw` and the fields it was given says: the
/// primitive, or the error for an unknown one or the first field that
/// doesn't apply.
pub open spec fn layer_fields_spec(draw: Seq<char>, given: Seq<bool>) -> Result<Draw, Seq<char>> {
    match draw_spec(draw) {
        None => Err("unknown draw '"@ + draw + "' (want fill, outline, disc, edges, sprite or glyph)"@),
        Some(d) => if exists|i: int| first_misplaced(d, given, i) {
            let i = choose|i: int| first_misplaced(d, given, i);
            Err("`"@ + field_name_spec(i) + "` does not apply to draw = \""@ + draw + "\""@)
        } else {
            Ok(d)
        },
    }
}

/// Checks a layer's `draw` and which of its optional fields were given
/// (`given`, in the order of `field_name_spec`).
pub fn layer_fields(draw: &str, given: &[bool]) -> (r: Result<Draw, String>)
    requires
        given@.len() == LAYER_FIELDS,
    ensures
        match (r, layer_fields_spec(draw@, given@)) {
            (Ok(d), Ok(sd)) => d == sd,
            (Err(e), Err(se)) => e@ == se,
            _ => false,
        },
{
    let found: Option<Draw> = if crate::text::str_eq(draw, "fill") {
        Some(Draw::Fill)
    } else if crate::text::str_eq(draw, "outline") {
        Some(Draw::Outline)
    } else if crate::text::str_eq(draw, "disc") {
        Some(Draw::Disc)
    } else if crate::text::str_eq(draw, "edges") {
        Some(Draw::Edges)
    } else if crate::text::str_eq(draw, "sprite") {
        Some(Draw::Sprite)
    } else if crate::text::str_eq(draw, "glyph") {
        Some(Draw::Glyph)
    } else {
        None
    };
    assert(draw_spec(draw@) == found);
    let d = match found {
        Some(d) => d,
        None => {
            let mut e = String::from_str("unknown draw '");
            e.append(draw);
            e.append("' (want fill, outline, disc, edges, sprite or glyph)");
            return Err(e);
        },
    };
    assert(draw_spec(draw@) == Some(d));
    let mut i: usize = 0;
    while i < given.len()
        invariant
            i <= given@.len(),
            draw_spec(draw@) == Some(d),
            forall|j: int| 0 <= j < i ==> !(given@[j] && !applies(d, j)),
        decreases given@.len() - i,
    {
        if given[i] && !applies_exec(d, i) {
            proof {
                assert(first_misplaced(d, given@, i as int));
                let q = choose|q: int| first_misplaced(d, given@, q);
                assert(q == i as int) by {
                    if q < i {
                    } else if q > i {
                        assert(given@[i as int] && !applies(d, i as int));
                    }
                }
            }
            let mut e = String::from_str("`");
            e.append(field_name(i));
            e.append("` does not apply to draw = \"");
            e.append(draw);
            e.append("\"");
            return Err(e);
        }
        i += 1;
    }
    proof {
        assert forall|q: int| !first_misplaced(d, given@, q) by {
            if first_misplaced(d, given@, q) {
                assert(!(given@[q] && !applies(d, q)));
            }
        }
    }
    Ok(d)
}

} // verus!
