//! Text shaping in font units: which glyph each character gets, the
//! kerning values between neighbouring glyphs and each glyph's advance.
//! Scaling these to positions on the canvas is left to the caller.
use vstd::prelude::*;
use crate::text::chars_of;

verus! {

/// Whether `ttf_parser::Face::parse(data, 0)` accepts the font bytes.
pub uninterp spec fn font_readable(data: Seq<u8>) -> bool;

/// The glyph `ttf_parser`'s `Face::glyph_index` gives a character.
pub uninterp spec fn font_glyph(data: Seq<u8>, c: char) -> Option<u16>;

/// What each subtable of the font's `kern` table gives a glyph pair
/// (`Subtable::glyphs_kerning`), in table order; empty without a `kern`
/// table.
pub uninterp spec fn font_kerning(data: Seq<u8>, left: u16, right: u16) -> Seq<Option<i16>>;

/// The horizontal advance `ttf_parser`'s `Face::glyph_hor_advance` gives a
/// glyph.
pub uninterp spec fn font_advance(data: Seq<u8>, glyph: u16) -> Option<u16>;

/// Whether the bytes are a font `ttf_parser` reads.
///
/// Trusted: wraps `ttf_parser::Face::parse(data, 0)`; the result is named
/// (`font_readable`), nothing more is stated.
#[verifier::external_body]
fn face_readable(data: &[u8]) -> (r: bool)
    ensures
        r == font_readable(data@),
{
    ttf_parser::Face::parse(data, 0).is_ok()
}

/// The glyph of a character.
///
/// Trusted: wraps `Face::glyph_index` on the face parsed from `data`; the
/// result is named (`font_glyph`).
#[verifier::external_body]
fn glyph_index_in(data: &[u8], c: char) -> (r: Option<u16>)
    requires
        font_readable(data@),
    ensures
        r == font_glyph(data@, c),
{
    match ttf_parser::Face::parse(data, 0) {
        Ok(face) => face.glyph_index(c).map(|g| g.0),
        Err(_) => None,
    }
}

/// The kerning each `kern` subtable gives a glyph pair.
///
/// Trusted: wraps `Face::tables().kern` and `Subtable::glyphs_kerning` on the
/// face parsed from `data`, collecting one entry per subtable in order; the
/// result is named (`font_kerning`).
#[verifier::external_body]
fn kerning_in(data: &[u8], left: u16, right: u16) -> (r: Vec<Option<i16>>)
    requires
        font_readable(data@),
    ensures
        r@ == font_kerning(data@, left, right),
{
    let mut out = Vec::new();
    if let Ok(face) = ttf_parser::Face::parse(data, 0) {
        if let Some(kern) = face.tables().kern {
            for subtable in kern.subtables {
                out.push(subtable.glyphs_kerning(ttf_parser::GlyphId(left), ttf_parser::GlyphId(right)));
            }
        }
    }
    out
}

/// The horizontal advance of a glyph.
///
/// Trusted: wraps `Face::glyph_hor_advance` on the face parsed from `data`;
/// the result is named (`font_advance`).
#[verifier::external_body]
fn advance_in(data: &[u8], glyph: u16) -> (r: Option<u16>)
    requires
        font_readable(data@),
    ensures
        r == font_advance(data@, glyph),
{
    match ttf_parser::Face::parse(data, 0) {
        Ok(face) => face.glyph_hor_advance(ttf_parser::GlyphId(glyph)),
        Err(_) => None,
    }
}

/// The position of the first `\n` in `s`.
pub open spec fn first_newline(s: Seq<char>) -> Option<int>
    decreases s.len(),
{
    if s.len() == 0 {
        None
    } else if s[0] == '\n' {
        Some(0)
    } else {
        match first_newline(s.drop_first()) {
            Some(k) => Some(k + 1),
            None => None,
        }
    }
}

/// A line without the `\r` of a `\r\n` ending.
pub open spec fn strip_cr(l: Seq<char>) -> Seq<char> {
    if l.len() > 0 && l.last() == '\r' {
        l.drop_last()
    } else {
        l
    }
}

/// The lines of a text as `str::lines` gives them: split after each `\n`,
/// each line without its `\n` or `\r\n`; a final line ending adds no empty
/// line.
pub open spec fn text_lines(s: Seq<char>) -> Seq<Seq<char>>
    decreases s.len(),
{
    if s.len() == 0 {
        Seq::empty()
    } else {
        match first_newline(s) {
            Some(k) => {
                proof {
                    lemma_first_newline(s);
                }
                seq![strip_cr(s.take(k))] + text_lines(s.skip(k + 1))
            },
            None => seq![s],
        }
    }
}

/// `first_newline` names the first `\n`, or there is none.
pub proof fn lemma_first_newline(s: Seq<char>)
    ensures
        first_newline(s) matches Some(k) ==> 0 <= k < s.len() && s[k] == '\n' && forall|j: int|
            0 <= j < k ==> s[j] != '\n',
        first_newline(s) is None ==> forall|j: int| 0 <= j < s.len() ==> s[j] != '\n',
    decreases s.len(),
{
    if s.len() > 0 && s[0] != '\n' {
        let r = s.drop_first();
        lemma_first_newline(r);
        match first_newline(r) {
            Some(k) => {
                assert(s[k + 1] == r[k]);
                assert forall|j: int| 0 <= j < k + 1 implies s[j] != '\n' by {
                    if j > 0 {
                        assert(s[j] == r[j - 1]);
                    }
                }
            },
            None => {
                assert forall|j: int| 0 <= j < s.len() implies s[j] != '\n' by {
                    if j > 0 {
                        assert(s[j] == r[j - 1]);
                    }
                }
            },
        }
    }
}

proof fn lemma_first_newline_unique(s: Seq<char>, k: Option<int>)
    requires
        match k {
            Some(k) => 0 <= k < s.len() && s[k] == '\n' && forall|j: int| 0 <= j < k ==> s[j] != '\n',
            None => forall|j: int| 0 <= j < s.len() ==> s[j] != '\n',
        },
    ensures
        first_newline(s) == k,
    decreases s.len(),
{
    if s.len() > 0 && s[0] != '\n' {
        let r = s.drop_first();
        let k2 = match k {
            Some(k) => Some(k - 1),
            None => None,
        };
        assert forall|j: int| 0 <= j < r.len() implies r[j] == s[j + 1] by {}
        lemma_first_newline_unique(r, k2);
    }
}

/// No line of a text holds a `\n`: lines are what lies between line ends.
pub proof fn lemma_lines_have_no_newline(s: Seq<char>)
    ensures
        forall|i: int| 0 <= i < text_lines(s).len() ==> !(#[trigger] text_lines(s)[i]).contains('\n'),
    decreases s.len(),
{
    if s.len() > 0 {
        lemma_first_newline(s);
        match first_newline(s) {
            Some(k) => {
                lemma_lines_have_no_newline(s.skip(k + 1));
                let head = strip_cr(s.take(k));
                assert(!head.contains('\n')) by {
                    if head.contains('\n') {
                        let j = choose|j: int| 0 <= j < head.len() && head[j] == '\n';
                        assert(s[j] == '\n');
                    }
                }
                let ls = text_lines(s);
                assert forall|i: int| 0 <= i < ls.len() implies !(#[trigger] ls[i]).contains('\n') by {
                    if i > 0 {
                        assert(ls[i] == text_lines(s.skip(k + 1))[i - 1]);
                    }
                }
            },
            None => {
                assert(!s.contains('\n'));
            },
        }
    }
}

/// One shaped character: its glyph, the kerning values (font units) that
/// apply between it and the glyph before it, and its advance (font units).
#[derive(Clone, Debug, PartialEq, Eq)]
pub struct ShapedUnit {
    pub glyph_id: u16,
    pub kerning: Vec<i16>,
    pub advance: u16,
}

impl View for ShapedUnit {
    type V = (u16, Seq<i16>, u16);

    open spec fn view(&self) -> (u16, Seq<i16>, u16) {
        (self.glyph_id, self.kerning@, self.advance)
    }
}

/// The glyph a character is drawn with: its glyph, or glyph 0 when the font
/// has none for it.
pub open spec fn glyph_of(data: Seq<u8>, c: char) -> u16 {
    match font_glyph(data, c) {
        Some(g) => g,
        None => 0,
    }
}

/// The values present among the kerning results, in order.
pub open spec fn present(v: Seq<Option<i16>>) -> Seq<i16>
    decreases v.len(),
{
    if v.len() == 0 {
        Seq::empty()
    } else {
        match v.last() {
            Some(x) => present(v.drop_last()).push(x),
            None => present(v.drop_last()),
        }
    }
}

/// The shaped characters of one line: every character after the first is
/// kerned against the glyph before it when kerning is on.
pub open spec fn shape_line(data: Seq<u8>, line: Seq<char>, kerning: bool) -> Seq<(u16, Seq<i16>, u16)> {
    Seq::new(
        line.len(),
        |k: int|
            {
                let g = glyph_of(data, line[k]);
                (
                    g,
                    if kerning && k > 0 {
                        present(font_kerning(data, glyph_of(data, line[k - 1]), g))
                    } else {
                        Seq::empty()
                    },
                    match font_advance(data, g) {
                        Some(a) => a,
                        None => 0,
                    },
                )
            },
    )
}

/// Shaping a line is local. Each character is shaped as it is in the line
/// made of just the character before it and itself: its glyph and advance
/// come from the character alone, and its kerning from the pair of glyphs
/// of the immediately preceding character and itself. A line's first
/// character, and every character when kerning is off, gets no kerning; in
/// a two-character line with kerning on, the second character gets the
/// values the font's `kern` subtables give for the glyph pair, in table
/// order.
pub proof fn lemma_shaping_is_local(data: Seq<u8>, line: Seq<char>, kerning: bool)
    ensures
        shape_line(data, line, kerning).len() == line.len(),
        forall|k: int|
            0 < k < line.len() ==> #[trigger] shape_line(data, line, kerning)[k] == shape_line(
                data,
                line.subrange(k - 1, k + 1),
                kerning,
            )[1],
        forall|k: int|
            0 <= k < line.len() ==> {
                let u = #[trigger] shape_line(data, line, kerning)[k];
                &&& (font_glyph(data, line[k]) matches Some(g) ==> u.0 == g)
                &&& (font_glyph(data, line[k]) is None ==> u.0 == 0)
                &&& (font_advance(data, u.0) matches Some(a) ==> u.2 == a)
                &&& (font_advance(data, u.0) is None ==> u.2 == 0)
            },
        kerning ==> forall|k: int|
            0 < k < line.len() ==> (#[trigger] shape_line(data, line, kerning)[k]).1 == present(
                font_kerning(data, shape_line(data, line, kerning)[k - 1].0, shape_line(data, line, kerning)[k].0),
            ),
        line.len() > 0 ==> shape_line(data, line, kerning)[0].1 == Seq::<i16>::empty(),
        !kerning ==> forall|k: int|
            0 <= k < line.len() ==> (#[trigger] shape_line(data, line, kerning)[k]).1 == Seq::<
                i16,
            >::empty(),
        forall|pair: Seq<char>|
            pair.len() == 2 ==> #[trigger] shape_line(data, pair, true)[1].1 == present(
                font_kerning(data, glyph_of(data, pair[0]), glyph_of(data, pair[1])),
            ),
{
    assert forall|k: int| 0 < k < line.len() implies #[trigger] shape_line(data, line, kerning)[k]
        == shape_line(data, line.subrange(k - 1, k + 1), kerning)[1] by {
        let sub = line.subrange(k - 1, k + 1);
        assert(sub[0] == line[k - 1]);
        assert(sub[1] == line[k]);
    }
}

/// The values present among kerning results are exactly the `Some` values,
/// in order: each `Some(x)` contributes `x` once, and `None` contributes
/// nothing.
pub proof fn lemma_present_values(v: Seq<Option<i16>>)
    ensures
        present(v).len() <= v.len(),
        forall|i: int| 0 <= i < v.len() && (#[trigger] v[i]) is Some ==> present(v).contains(v[i]->0),
        forall|x: i16| #[trigger] present(v).contains(x) ==> v.contains(Some(x)),
        (forall|i: int| 0 <= i < v.len() ==> (#[trigger] v[i]) is None) ==> present(v).len() == 0,
        (forall|i: int| 0 <= i < v.len() ==> (#[trigger] v[i]) is Some) ==> present(v).len() == v.len(),
    decreases v.len(),
{
    if v.len() > 0 {
        let init = v.drop_last();
        lemma_present_values(init);
        let pi = present(init);
        let pv = present(v);
        let n = v.len() - 1;
        assert(v.last() == v[n]);
        assert forall|i: int| 0 <= i < v.len() && (#[trigger] v[i]) is Some implies pv.contains(v[i]->0) by {
            if i < n {
                assert(init[i] == v[i]);
                assert(pi.contains(v[i]->0));
                let m = choose|m: int| 0 <= m < pi.len() && pi[m] == v[i]->0;
                assert(pv[m] == pi[m]);
            } else {
                assert(pv[pv.len() - 1] == v[i]->0);
            }
        }
        assert forall|x: i16| #[trigger] pv.contains(x) implies v.contains(Some(x)) by {
            let m = choose|m: int| 0 <= m < pv.len() && pv[m] == x;
            if m < pi.len() {
                assert(pv[m] == pi[m]);
                assert(pi.contains(x));
                let q = choose|q: int| 0 <= q < init.len() && init[q] == Some(x);
                assert(v[q] == init[q]);
            } else {
                assert(v[n] == Some(x));
            }
        }
        if forall|i: int| 0 <= i < v.len() ==> (#[trigger] v[i]) is None {
            assert forall|i: int| 0 <= i < init.len() implies (#[trigger] init[i]) is None by {
                assert(init[i] == v[i]);
            }
        }
        if forall|i: int| 0 <= i < v.len() ==> (#[trigger] v[i]) is Some {
            assert forall|i: int| 0 <= i < init.len() implies (#[trigger] init[i]) is Some by {
                assert(init[i] == v[i]);
            }
        }
    }
}

/// The views of shaped lines.
pub open spec fn lines_view(v: Seq<Vec<ShapedUnit>>) -> Seq<Seq<(u16, Seq<i16>, u16)>> {
    v.map_values(|l: Vec<ShapedUnit>| l@.map_values(|u: ShapedUnit| u@))
}

/// The lines of a text, each split into characters (see `text_lines`).
pub fn split_lines(text: &str) -> (r: Vec<Vec<char>>)
    ensures
        r@.map_values(|l: Vec<char>| l@) == text_lines(text@),
{
    let v = chars_of(text);
    let mut out: Vec<Vec<char>> = Vec::new();
    let mut start: usize = 0;
    proof {
        assert(v@.skip(0) =~= v@);
    }
    while start < v.len()
        invariant
            v@ == text@,
            0 <= start <= v@.len(),
            text_lines(text@) == out@.map_values(|l: Vec<char>| l@) + text_lines(v@.skip(start as int)),
        decreases v@.len() - start,
    {
        let ghost rest = v@.skip(start as int);
        let mut line: Vec<char> = Vec::new();
        let mut i = start;
        while i < v.len() && v[i] != '\n'
            invariant
                start <= i <= v@.len(),
                line@ == v@.subrange(start as int, i as int),
                forall|j: int| start <= j < i ==> v@[j] != '\n',
            decreases v@.len() - i,
        {
            line.push(v[i]);
            proof {
                assert(line@ =~= v@.subrange(start as int, i + 1));
            }
            i = i + 1;
        }
        let ghost old_out = out@;
        if i < v.len() {
            proof {
                lemma_first_newline_unique(rest, Some(i - start));
                assert(rest.take(i - start) =~= line@);
                assert(rest.skip(i - start + 1) =~= v@.skip(i + 1));
            }
            let n = line.len();
            if n > 0 && line[n - 1] == '\r' {
                line.pop();
            }
            proof {
                assert(line@ == strip_cr(rest.take(i - start)));
            }
            out.push(line);
            proof {
                assert(out@.map_values(|l: Vec<char>| l@) =~= old_out.map_values(|l: Vec<char>| l@).push(
                    strip_cr(rest.take(i - start)),
                ));
            }
            start = i + 1;
        } else {
            proof {
                lemma_first_newline_unique(rest, None);
                assert(rest =~= line@);
                assert(v@.skip(i as int).len() == 0);
            }
            out.push(line);
            proof {
                assert(out@.map_values(|l: Vec<char>| l@) =~= old_out.map_values(|l: Vec<char>| l@).push(
                    rest,
                ));
            }
            start = i;
        }
    }
    proof {
        assert(out@.map_values(|l: Vec<char>| l@) + text_lines(v@.skip(start as int)) =~= out@.map_values(
            |l: Vec<char>| l@,
        ));
    }
    out
}

fn present_values(v: &Vec<Option<i16>>) -> (r: Vec<i16>)
    ensures
        r@ == present(v@),
{
    let mut r: Vec<i16> = Vec::new();
    let mut i: usize = 0;
    while i < v.len()
        invariant
            0 <= i <= v@.len(),
            r@ == present(v@.take(i as int)),
        decreases v@.len() - i,
    {
        proof {
            assert(v@.take(i + 1).drop_last() =~= v@.take(i as int));
        }
        match v[i] {
            Some(x) => r.push(x),
            None => {},
        }
        i = i + 1;
    }
    proof {
        assert(v@.take(i as int) =~= v@);
    }
    r
}

fn shape_chars(data: &[u8], line: &Vec<char>, kerning: bool) -> (r: Vec<ShapedUnit>)
    requires
        font_readable(data@),
    ensures
        r@.map_values(|u: ShapedUnit| u@) == shape_line(data@, line@, kerning),
{
    let mut out: Vec<ShapedUnit> = Vec::new();
    let mut prev: Option<u16> = None;
    let mut k: usize = 0;
    while k < line.len()
        invariant
            font_readable(data@),
            0 <= k <= line@.len(),
            out@.len() == k,
            forall|j: int| 0 <= j < k ==> (#[trigger] out@[j])@ == shape_line(data@, line@, kerning)[j],
            prev == (if k == 0 {
                None::<u16>
            } else {
                Some(glyph_of(data@, line@[k - 1]))
            }),
        decreases line@.len() - k,
    {
        let g = match glyph_index_in(data, line[k]) {
            Some(g) => g,
            None => 0,
        };
        let kern = match prev {
            Some(p) => if kerning {
                present_values(&kerning_in(data, p, g))
            } else {
                Vec::new()
            },
            None => Vec::new(),
        };
        let advance = match advance_in(data, g) {
            Some(a) => a,
            None => 0,
        };
        let ghost old_out = out@;
        out.push(ShapedUnit { glyph_id: g, kerning: kern, advance });
        proof {
            assert forall|j: int| 0 <= j < k + 1 implies (#[trigger] out@[j])@ == shape_line(
                data@,
                line@,
                kerning,
            )[j] by {
                if j < k {
                    assert(out@[j] == old_out[j]);
                }
            }
        }
        prev = Some(g);
        k = k + 1;
    }
    proof {
        assert(out@.map_values(|u: ShapedUnit| u@) =~= shape_line(data@, line@, kerning));
    }
    out
}

/// Shapes a text line by line with the font given by its bytes; `None` when
/// `ttf_parser` does not read the bytes as a font.
pub fn shape_units(text: &str, font_data: &[u8], kerning: bool) -> (r: Option<Vec<Vec<ShapedUnit>>>)
    ensures
        r is None <==> !font_readable(font_data@),
        r matches Some(v) ==> lines_view(v@) == text_lines(text@).map_values(
            |l: Seq<char>| shape_line(font_data@, l, kerning),
        ),
{
    if !face_readable(font_data) {
        return None;
    }
    let lines = split_lines(text);
    let ghost lv = lines@.map_values(|l: Vec<char>| l@);
    let mut out: Vec<Vec<ShapedUnit>> = Vec::new();
    let mut i: usize = 0;
    while i < lines.len()
        invariant
            font_readable(font_data@),
            lv == lines@.map_values(|l: Vec<char>| l@),
            lv == text_lines(text@),
            0 <= i <= lines@.len(),
            out@.len() == i,
            forall|j: int| 0 <= j < i ==> (#[trigger] out@[j])@.map_values(|u: ShapedUnit| u@) == shape_line(
                font_data@,
                lv[j],
                kerning,
            ),
        decreases lines@.len() - i,
    {
        let shaped = shape_chars(font_data, &lines[i], kerning);
        let ghost old_out = out@;
        out.push(shaped);
        proof {
            assert forall|j: int| 0 <= j < i + 1 implies (#[trigger] out@[j])@.map_values(
                |u: ShapedUnit| u@,
            ) == shape_line(font_data@, lv[j], kerning) by {
                if j < i {
                    assert(out@[j] == old_out[j]);
                }
            }
        }
        i = i + 1;
    }
    proof {
        assert(lines_view(out@) =~= text_lines(text@).map_values(
            |l: Seq<char>| shape_line(font_data@, l, kerning),
        ));
    }
    Some(out)
}

} // verus!
