//! Fonts embedded in a document, so that it shows the same wherever it is
//! opened.
use vstd::prelude::*;
use crate::text::{str_eq, string_of};

verus! {

/// A font stored inside a document.
#[derive(Clone, Debug)]
pub struct EmbeddedFont {
    pub family_name: String,
    pub style: String,
    /// The font file's bytes (TTF/OTF).
    pub data: Vec<u8>,
}

impl View for EmbeddedFont {
    type V = (Seq<char>, Seq<char>, Seq<u8>);

    open spec fn view(&self) -> (Seq<char>, Seq<char>, Seq<u8>) {
        (self.family_name@, self.style@, self.data@)
    }
}

/// The views of a list of embedded fonts.
pub open spec fn embedded_view(v: Seq<EmbeddedFont>) -> Seq<(Seq<char>, Seq<char>, Seq<u8>)> {
    v.map_values(|f: EmbeddedFont| f@)
}

/// Whether a font of this family and style is among `fonts`.
pub open spec fn has_font(fonts: Seq<(Seq<char>, Seq<char>, Seq<u8>)>, family: Seq<char>, style: Seq<char>) -> bool {
    exists|i: int| 0 <= i < fonts.len() && #[trigger] fonts[i].0 == family && fonts[i].1 == style
}

/// Embeds a font into a document's fonts, unless one of the same family and
/// style is embedded already.
pub fn embed_font(fonts: &mut Vec<EmbeddedFont>, family: &str, style: &str, data: Vec<u8>)
    ensures
        embedded_view(final(fonts)@) == if has_font(embedded_view(old(fonts)@), family@, style@) {
            embedded_view(old(fonts)@)
        } else {
            embedded_view(old(fonts)@).push((family@, style@, data@))
        },
        exists|i: int|
            0 <= i < final(fonts)@.len() && (#[trigger] final(fonts)@[i]).family_name@ == family@
                && final(fonts)@[i].style@ == style@,
        final(fonts)@.len() == old(fonts)@.len() <==> exists|i: int|
            0 <= i < old(fonts)@.len() && (#[trigger] old(fonts)@[i]).family_name@ == family@
                && old(fonts)@[i].style@ == style@,
{
    proof {
        lemma_has_font_same_family_and_style(embedded_view(fonts@), family@, style@);
        assert forall|i: int| 0 <= i < fonts@.len() implies #[trigger] embedded_view(fonts@)[i] == (
            fonts@[i].family_name@,
            fonts@[i].style@,
            fonts@[i].data@,
        ) by {}
    }
    let ghost v = embedded_view(fonts@);
    let mut i: usize = 0;
    while i < fonts.len()
        invariant
            0 <= i <= fonts@.len(),
            v == embedded_view(fonts@),
            forall|j: int| 0 <= j < i ==> !(#[trigger] v[j].0 == family@ && v[j].1 == style@),
        decreases fonts@.len() - i,
    {
        if str_eq(fonts[i].family_name.as_str(), family) && str_eq(fonts[i].style.as_str(), style) {
            proof {
                assert(v[i as int].0 == family@ && v[i as int].1 == style@);
                assert(fonts@[i as int].family_name@ == family@ && fonts@[i as int].style@ == style@);
            }
            return;
        }
        proof {
            assert(v[i as int] == fonts@[i as int]@);
        }
        i = i + 1;
    }
    proof {
        assert(!has_font(v, family@, style@));
        assert forall|j: int| 0 <= j < fonts@.len() implies !((#[trigger] fonts@[j]).family_name@
            == family@ && fonts@[j].style@ == style@) by {
            assert(v[j] == fonts@[j]@);
        }
    }
    let ghost before = fonts@;
    fonts.push(EmbeddedFont { family_name: string_of(family), style: string_of(style), data });
    proof {
        assert(embedded_view(fonts@) =~= v.push((family@, style@, data@)));
        let last = fonts@.len() - 1;
        assert(fonts@[last].family_name@ == family@ && fonts@[last].style@ == style@);
        assert(before.len() != fonts@.len());
    }
}

/// Embedding is idempotent: embedding a font of a family and style that is
/// embedded already leaves the fonts as they are, so every family and style
/// is embedded at most once.
pub proof fn lemma_embed_idempotent(
    fonts: Seq<(Seq<char>, Seq<char>, Seq<u8>)>,
    family: Seq<char>,
    style: Seq<char>,
    data: Seq<u8>,
)
    ensures
        ({
            let once = if has_font(fonts, family, style) {
                fonts
            } else {
                fonts.push((family, style, data))
            };
            &&& has_font(once, family, style)
            &&& (if has_font(once, family, style) {
                once
            } else {
                once.push((family, style, data))
            }) == once
        }),
{
    if !has_font(fonts, family, style) {
        let once = fonts.push((family, style, data));
        assert(once[fonts.len() as int].0 == family);
    }
}

/// A font counts as embedded already only when one of both the same family
/// and the same style is there: another family of the same style, or
/// another style of the same family, does not count.
pub proof fn lemma_has_font_same_family_and_style(
    fonts: Seq<(Seq<char>, Seq<char>, Seq<u8>)>,
    family: Seq<char>,
    style: Seq<char>,
)
    ensures
        has_font(fonts, family, style) <==> exists|i: int|
            0 <= i < fonts.len() && (#[trigger] fonts[i]).0 == family && fonts[i].1 == style,
{
    if has_font(fonts, family, style) {
        let i = choose|i: int| 0 <= i < fonts.len() && #[trigger] fonts[i].0 == family && fonts[i].1 == style;
        assert(fonts[i].0 == family && fonts[i].1 == style);
    } else {
        assert forall|i: int| 0 <= i < fonts.len() implies !((#[trigger] fonts[i]).0 == family
            && fonts[i].1 == style) by {
            if fonts[i].0 == family && fonts[i].1 == style {
                assert(has_font(fonts, family, style));
            }
        }
    }
}

} // verus!
