//! The font manager: the fonts known to the editor, grouped by family.
use vstd::prelude::*;
use crate::order::{lex_lt, strictly_sorted, chars_lt, lemma_lex_total, lemma_lex_transitive,
    lemma_sorted_unique};
use crate::text::{chars_of, str_eq, string_of};
use crate::filepath::{file_name, extension, file_stem, join, path_file_name, name_extension,
    name_stem, join_path};

verus! {

/// A font known to the manager: family, style, file and the font bytes.
#[derive(Clone, Debug)]
pub struct FontInfo {
    pub family_name: String,
    pub style: String,
    pub file_path: String,
    /// The font file's bytes (TTF/OTF), kept for embedding.
    pub data: Vec<u8>,
}

/// What a font is, as plain values: family, style, file path and bytes.
pub type FontView = (Seq<char>, Seq<char>, Seq<char>, Seq<u8>);

impl View for FontInfo {
    type V = FontView;

    open spec fn view(&self) -> FontView {
        (self.family_name@, self.style@, self.file_path@, self.data@)
    }
}

/// The views of a sequence of fonts.
pub open spec fn fonts_view(v: Seq<FontInfo>) -> Seq<FontView> {
    v.map_values(|f: FontInfo| f@)
}

/// The views of a sequence of strings.
pub open spec fn strings_view(v: Seq<String>) -> Seq<Seq<char>> {
    v.map_values(|s: String| s@)
}

/// The styles of a sequence of fonts.
pub open spec fn styles_of(fonts: Seq<FontView>) -> Seq<Seq<char>> {
    fonts.map_values(|f: FontView| f.1)
}

/// The fonts of one family, in the order they were added.
struct FontGroup {
    name: String,
    fonts: Vec<FontInfo>,
}

/// The font manager: every known font, grouped by family name.
pub struct FontManager {
    groups: Vec<FontGroup>,
    font_dirs: Vec<String>,
}

spec fn names_of(gs: Seq<FontGroup>) -> Seq<Seq<char>> {
    gs.map_values(|g: FontGroup| g.name@)
}

spec fn groups_wf(gs: Seq<FontGroup>) -> bool {
    &&& strictly_sorted(names_of(gs))
    &&& forall|i: int| 0 <= i < gs.len() ==> (#[trigger] gs[i]).fonts@.len() > 0
    &&& forall|i: int, j: int|
        0 <= i < gs.len() && 0 <= j < gs[i].fonts@.len() ==> (#[trigger] gs[i].fonts@[j]).family_name@
            == gs[i].name@
}

spec fn position(names: Seq<Seq<char>>, n: Seq<char>) -> int {
    choose|i: int| 0 <= i < names.len() && names[i] == n
}

spec fn groups_map(gs: Seq<FontGroup>) -> Map<Seq<char>, Seq<FontView>> {
    Map::new(
        |n: Seq<char>| names_of(gs).contains(n),
        |n: Seq<char>| fonts_view(gs[position(names_of(gs), n)].fonts@),
    )
}

proof fn lemma_group_lookup(gs: Seq<FontGroup>, i: int)
    requires
        groups_wf(gs),
        0 <= i < gs.len(),
    ensures
        groups_map(gs).dom().contains(gs[i].name@),
        groups_map(gs)[gs[i].name@] == fonts_view(gs[i].fonts@),
{
    let names = names_of(gs);
    let n = gs[i].name@;
    assert(names[i] == n);
    let p = position(names, n);
    lemma_sorted_unique(names, p, i);
}

/// The fonts recorded under `family` in `m`, or none.
pub open spec fn fonts_of(m: Map<Seq<char>, Seq<FontView>>, family: Seq<char>) -> Seq<FontView> {
    if m.dom().contains(family) {
        m[family]
    } else {
        Seq::empty()
    }
}

/// `m` with the font `f` added at the end of its family.
pub open spec fn add_font(m: Map<Seq<char>, Seq<FontView>>, f: FontView) -> Map<
    Seq<char>,
    Seq<FontView>,
> {
    m.insert(f.0, fonts_of(m, f.0).push(f))
}

/// The first position in `fonts` of a font with the given style.
pub open spec fn style_pos(fonts: Seq<FontView>, style: Seq<char>) -> Option<int>
    decreases fonts.len(),
{
    if fonts.len() == 0 {
        None
    } else if fonts[0].1 == style {
        Some(0)
    } else {
        match style_pos(fonts.drop_first(), style) {
            Some(k) => Some(k + 1),
            None => None,
        }
    }
}

/// The font chosen for a style: the first with that style, or else the
/// first of the family.
pub open spec fn chosen_font(fonts: Seq<FontView>, style: Seq<char>) -> FontView {
    match style_pos(fonts, style) {
        Some(k) => fonts[k],
        None => fonts[0],
    }
}

proof fn lemma_style_pos(fonts: Seq<FontView>, style: Seq<char>, i: int)
    requires
        0 <= i <= fonts.len(),
        forall|j: int| 0 <= j < i ==> (#[trigger] fonts[j]).1 != style,
    ensures
        i < fonts.len() && fonts[i].1 == style ==> style_pos(fonts, style) == Some(i),
        i == fonts.len() ==> style_pos(fonts, style) is None,
    decreases fonts.len(),
{
    if fonts.len() > 0 && i > 0 {
        let rest = fonts.drop_first();
        assert forall|j: int| 0 <= j < i - 1 implies (#[trigger] rest[j]).1 != style by {
            assert(rest[j] == fonts[j + 1]);
        }
        lemma_style_pos(rest, style, i - 1);
        if i < fonts.len() {
            assert(rest[i - 1] == fonts[i]);
        }
    }
}


/// The OpenType name ID of a font's family name.
pub const FAMILY_NAME_ID: u16 = 1;

/// The OpenType name ID of a font's subfamily (style) name.
pub const SUBFAMILY_NAME_ID: u16 = 2;

/// What `ttf_parser` reads from the bytes of a font file: `None` when
/// `Face::parse(data, 0)` refuses them, otherwise the face's name records in
/// the order the name table lists them, each as its name ID and its text
/// (`None` where the record is not Unicode-encoded or its text does not
/// decode).
pub uninterp spec fn font_name_records(data: Seq<u8>) -> Option<Seq<(u16, Option<Seq<char>>)>>;

/// The views of name records.
pub open spec fn records_view(r: Seq<(u16, Option<String>)>) -> Seq<(u16, Option<Seq<char>>)> {
    r.map_values(
        |e: (u16, Option<String>)|
            (
                e.0,
                match e.1 {
                    Some(s) => Some(s@),
                    None => None,
                },
            ),
    )
}

/// The text of the first record with name ID `id`: `None` when there is no
/// such record, `Some(None)` when it has no readable text.
pub open spec fn first_name(recs: Seq<(u16, Option<Seq<char>>)>, id: u16) -> Option<
    Option<Seq<char>>,
>
    decreases recs.len(),
{
    if recs.len() == 0 {
        None
    } else if recs[0].0 == id {
        Some(recs[0].1)
    } else {
        first_name(recs.drop_first(), id)
    }
}

/// The family of a font file: its family name record, or else the stem of
/// the file's name (empty when the path has no file name).
pub open spec fn family_from(recs: Seq<(u16, Option<Seq<char>>)>, path: Seq<char>) -> Seq<char> {
    match first_name(recs, FAMILY_NAME_ID) {
        Some(Some(name)) => name,
        _ => match file_name(path) {
            Some(n) => file_stem(n),
            None => Seq::empty(),
        },
    }
}

/// The style of a font file: its subfamily name record, or else `Regular`.
pub open spec fn style_from(recs: Seq<(u16, Option<Seq<char>>)>) -> Seq<char> {
    match first_name(recs, SUBFAMILY_NAME_ID) {
        Some(Some(name)) => name,
        _ => "Regular"@,
    }
}

/// The font a file yields, given its name records, path and bytes.
pub open spec fn font_from_records(
    recs: Seq<(u16, Option<Seq<char>>)>,
    path: Seq<char>,
    data: Seq<u8>,
) -> FontView {
    (family_from(recs, path), style_from(recs), path, data)
}

/// Whether a file extension is one of a font file.
pub open spec fn is_font_extension(e: Seq<char>) -> bool {
    e == "ttf"@ || e == "otf"@ || e == "ttc"@ || e == "woff"@ || e == "woff2"@
}

/// Whether a path names a font file, judged by its extension.
pub open spec fn font_path(path: Seq<char>) -> bool {
    match file_name(path) {
        Some(n) => match extension(n) {
            Some(e) => is_font_extension(e),
            None => false,
        },
        None => false,
    }
}

/// `m` after reading the file `path` with bytes `data`: font files whose
/// bytes `ttf_parser` accepts are added, anything else is skipped.
pub open spec fn load_font_file(m: Map<Seq<char>, Seq<FontView>>, path: Seq<char>, data: Seq<u8>) -> Map<
    Seq<char>,
    Seq<FontView>,
> {
    if font_path(path) {
        match font_name_records(data) {
            None => m,
            Some(recs) => add_font(m, font_from_records(recs, path, data)),
        }
    } else {
        m
    }
}

/// `m` after reading each file in turn.
pub open spec fn scan_fonts(m: Map<Seq<char>, Seq<FontView>>, files: Seq<(Seq<char>, Seq<u8>)>) -> Map<
    Seq<char>,
    Seq<FontView>,
>
    decreases files.len(),
{
    if files.len() == 0 {
        m
    } else {
        load_font_file(scan_fonts(m, files.drop_last()), files.last().0, files.last().1)
    }
}

/// The views of a list of files given by path and bytes.
pub open spec fn files_view(f: Seq<(String, Vec<u8>)>) -> Seq<(Seq<char>, Seq<u8>)> {
    f.map_values(|e: (String, Vec<u8>)| (e.0@, e.1@))
}

/// The directories searched for fonts, given the `HOME` and `WINDIR`
/// environment values: the Linux, per-user, macOS and Windows font folders.
pub open spec fn default_dirs(home: Option<Seq<char>>, windir: Option<Seq<char>>) -> Seq<Seq<char>> {
    seq!["/usr/share/fonts"@, "/usr/local/share/fonts"@] + match home {
        Some(h) => seq![join(h, ".fonts"@), join(h, ".local/share/fonts"@)],
        None => Seq::empty(),
    } + seq!["/System/Library/Fonts"@, "/Library/Fonts"@] + match windir {
        Some(w) => seq![join(w, "Fonts"@)],
        None => Seq::empty(),
    }
}

/// The name records of a font file's bytes, or `None` when they are not a
/// font.
///
/// Trusted: wraps `ttf_parser::Face::parse(data, 0)` and the face's name
/// table (`Face::names`, `Name::name_id`, `Name::to_string`). The contract
/// only names the result (`font_name_records`); nothing about fonts is
/// stated.
#[verifier::external_body]
fn parse_name_records(data: &[u8]) -> (r: Option<Vec<(u16, Option<String>)>>)
    ensures
        match r {
            Some(v) => font_name_records(data@) == Some(records_view(v@)),
            None => font_name_records(data@) is None,
        },
{
    let face = match ttf_parser::Face::parse(data, 0) {
        Ok(face) => face,
        Err(_) => return None,
    };
    let mut records = Vec::new();
    for name in face.names() {
        records.push((name.name_id, name.to_string()));
    }
    Some(records)
}

fn first_record(records: &[(u16, Option<String>)], id: u16) -> (r: Option<usize>)
    ensures
        match r {
            Some(i) => i < records@.len() && first_name(records_view(records@), id) == Some(
                records_view(records@)[i as int].1,
            ),
            None => first_name(records_view(records@), id) is None,
        },
{
    let ghost rv = records_view(records@);
    let mut i: usize = 0;
    proof {
        assert(rv.skip(0) =~= rv);
    }
    while i < records.len()
        invariant
            0 <= i <= records@.len(),
            rv == records_view(records@),
            first_name(rv, id) == first_name(rv.skip(i as int), id),
        decreases records@.len() - i,
    {
        proof {
            assert(rv.skip(i as int)[0] == rv[i as int]);
            assert(rv.skip(i as int).drop_first() =~= rv.skip(i + 1));
        }
        if records[i].0 == id {
            return Some(i);
        }
        i = i + 1;
    }
    None
}


proof fn lemma_style_pos_push(fonts: Seq<FontView>, f: FontView)
    requires
        style_pos(fonts, f.1) is None,
    ensures
        style_pos(fonts.push(f), f.1) == Some(fonts.len() as int),
    decreases fonts.len(),
{
    if fonts.len() > 0 {
        lemma_style_pos_push(fonts.drop_first(), f);
        assert(fonts.push(f).drop_first() =~= fonts.drop_first().push(f));
    }
}

/// Adding a font records it last in its family and leaves every other
/// family as it was; when the family had no font of that style yet, the
/// font is the one chosen for its family and style, so `get_font_data`
/// gives back exactly the bytes that `load_from_data` was given.
pub proof fn lemma_added_font_is_found(m: Map<Seq<char>, Seq<FontView>>, f: FontView)
    ensures
        add_font(m, f).dom().contains(f.0),
        add_font(m, f)[f.0].last() == f,
        styles_of(add_font(m, f)[f.0]).last() == f.1,
        forall|k: Seq<char>| k != f.0 ==> fonts_of(add_font(m, f), k) == #[trigger] fonts_of(m, k),
        style_pos(fonts_of(m, f.0), f.1) is None ==> chosen_font(add_font(m, f)[f.0], f.1) == f,
{
    let fs = fonts_of(m, f.0).push(f);
    assert(styles_of(fs).last() == styles_of(fs)[fs.len() - 1]);
    if style_pos(fonts_of(m, f.0), f.1) is None {
        lemma_style_pos_push(fonts_of(m, f.0), f);
    }
}

impl View for FontManager {
    type V = Map<Seq<char>, Seq<FontView>>;

    /// Each family name mapped to its fonts, in the order they were added.
    closed spec fn view(&self) -> Map<Seq<char>, Seq<FontView>> {
        groups_map(self.groups@)
    }
}

impl FontManager {
    /// The manager's invariant: families are kept in name order, none is
    /// empty, and every font sits in the family it names.
    pub closed spec fn wf(&self) -> bool {
        groups_wf(self.groups@)
    }

    /// Every family the manager knows has at least one font: a family is
    /// known exactly when it has fonts (and so styles).
    pub proof fn lemma_families_have_fonts(&self)
        requires
            self.wf(),
        ensures
            forall|n: Seq<char>| #[trigger] self@.dom().contains(n) ==> self@[n].len() > 0,
    {
        let gs = self.groups@;
        assert forall|n: Seq<char>| #[trigger] self@.dom().contains(n) implies self@[n].len() > 0 by {
            let names = names_of(gs);
            let i = choose|i: int| 0 <= i < names.len() && names[i] == n;
            lemma_group_lookup(gs, i);
            assert(gs[i].fonts@.len() > 0);
        }
    }

    /// The family names, in the order `font_families` lists them.
    pub closed spec fn family_names(&self) -> Seq<Seq<char>> {
        names_of(self.groups@)
    }

    /// The directories that are searched for fonts.
    pub closed spec fn dirs(&self) -> Seq<String> {
        self.font_dirs@
    }

    /// An empty manager that searches `font_dirs` for fonts.
    pub fn new(font_dirs: Vec<String>) -> (m: Self)
        ensures
            m.wf(),
            m@ == Map::<Seq<char>, Seq<FontView>>::empty(),
            m.dirs() == font_dirs@,
    {
        let m = FontManager { groups: Vec::new(), font_dirs };
        proof {
            assert(m@ =~= Map::<Seq<char>, Seq<FontView>>::empty());
        }
        m
    }

    /// The directories that are searched for fonts.
    pub fn font_dirs(&self) -> (d: &Vec<String>)
        ensures
            d@ == self.dirs(),
    {
        &self.font_dirs
    }

    fn find_group(&self, family: &str) -> (r: Option<usize>)
        ensures
            match r {
                Some(i) => i < self.groups@.len() && self.groups@[i as int].name@ == family@,
                None => !self.family_names().contains(family@),
            },
    {
        let mut i: usize = 0;
        while i < self.groups.len()
            invariant
                0 <= i <= self.groups@.len(),
                forall|j: int| 0 <= j < i ==> self.groups@[j].name@ != family@,
            decreases self.groups@.len() - i,
        {
            if str_eq(self.groups[i].name.as_str(), family) {
                return Some(i);
            }
            i = i + 1;
        }
        proof {
            if self.family_names().contains(family@) {
                let k = choose|k: int|
                    0 <= k < self.family_names().len() && self.family_names()[k] == family@;
                assert(self.groups@[k].name@ == family@);
            }
        }
        None
    }

    /// Adds `info` at the end of the fonts of its family.
    fn insert_font(&mut self, info: FontInfo)
        requires
            old(self).wf(),
        ensures
            final(self).wf(),
            final(self)@ == add_font(old(self)@, info@),
            final(self).dirs() == old(self).dirs(),
    {
        let ghost gs = self.groups@;
        let ghost n = info.family_name@;
        let fam = chars_of(info.family_name.as_str());
        let mut i: usize = 0;
        let len = self.groups.len();
        while i < len
            invariant
                len == gs.len(),
                self.groups@ == gs,
                fam@ == n,
                0 <= i <= len,
                forall|j: int| 0 <= j < i ==> lex_lt(#[trigger] names_of(gs)[j], n),
            ensures
                len == gs.len(),
                self.groups@ == gs,
                0 <= i <= len,
                forall|j: int| 0 <= j < i ==> lex_lt(#[trigger] names_of(gs)[j], n),
                i < len ==> !lex_lt(names_of(gs)[i as int], n),
            decreases len - i,
        {
            let name = chars_of(self.groups[i].name.as_str());
            if !chars_lt(name.as_slice(), fam.as_slice()) {
                proof {
                    assert(names_of(gs)[i as int] == name@);
                }
                break;
            }
            proof {
                assert(names_of(gs)[i as int] == name@);
            }
            i = i + 1;
        }
        proof {
            assert(groups_wf(gs));
        }
        if i < len && str_eq(self.groups[i].name.as_str(), info.family_name.as_str()) {
            let ghost g = gs[i as int];
            let ghost iv = info@;
            self.groups[i].fonts.push(info);
            proof {
                let gs2 = self.groups@;
                assert(gs2 =~= gs.update(i as int, gs2[i as int]));
                assert(names_of(gs2) =~= names_of(gs));
                assert(gs2[i as int].fonts@ =~= g.fonts@.push(gs2[i as int].fonts@.last()));
                assert forall|a: int, b: int|
                    0 <= a < gs2.len() && 0 <= b < gs2[a].fonts@.len() implies (#[trigger] gs2[a].fonts@[
                    b]).family_name@ == gs2[a].name@ by {
                    if a == i as int && b == g.fonts@.len() {
                    } else if a == i as int {
                        assert(gs2[a].fonts@[b] == g.fonts@[b]);
                    }
                }
                assert(groups_wf(gs2));
                lemma_group_lookup(gs, i as int);
                assert(fonts_view(gs2[i as int].fonts@) =~= fonts_view(g.fonts@).push(iv));
                assert forall|k: Seq<char>| #[trigger] groups_map(gs2).dom().contains(k) implies groups_map(
                    gs2,
                )[k] == add_font(groups_map(gs), iv)[k] by {
                    let p = choose|p: int| 0 <= p < names_of(gs2).len() && names_of(gs2)[p] == k;
                    lemma_group_lookup(gs2, p);
                    lemma_group_lookup(gs, p);
                    if k == n {
                        assert(names_of(gs2)[i as int] == n);
                        lemma_sorted_unique(names_of(gs2), p, i as int);
                    } else {
                        assert(p != i);
                        assert(gs2[p] == gs[p]);
                    }
                }
                assert(groups_map(gs2) =~= add_font(groups_map(gs), iv));
            }
        } else {
            let ghost iv = info@;
            let name = string_of(info.family_name.as_str());
            let mut fonts: Vec<FontInfo> = Vec::new();
            fonts.push(info);
            let group = FontGroup { name, fonts };
            self.groups.insert(i, group);
            proof {
                let gs2 = self.groups@;
                let ng = gs2[i as int];
                assert(gs2 =~= gs.insert(i as int, ng));
                let names = names_of(gs);
                let names2 = names_of(gs2);
                assert(names2 =~= names.insert(i as int, n));
                if i < len {
                    assert(names[i as int] != n);
                    lemma_lex_total(names[i as int], n);
                }
                assert forall|c: int| i <= c < len implies lex_lt(n, #[trigger] names[c]) by {
                    if c > i {
                        assert(lex_lt(names[i as int], names[c]));
                        lemma_lex_transitive(n, names[i as int], names[c]);
                    }
                }
                assert forall|a: int, b: int| 0 <= a < b < names2.len() implies lex_lt(
                    #[trigger] names2[a],
                    #[trigger] names2[b],
                ) by {
                    if b < i {
                        assert(names2[a] == names[a] && names2[b] == names[b]);
                    } else if b == i {
                        assert(names2[a] == names[a]);
                    } else if a == i {
                        assert(names2[b] == names[b - 1]);
                        assert(lex_lt(n, names[b - 1]));
                    } else if a < i {
                        assert(names2[a] == names[a] && names2[b] == names[b - 1]);
                        assert(lex_lt(names[a], n));
                        assert(lex_lt(n, names[b - 1]));
                        lemma_lex_transitive(names[a], n, names[b - 1]);
                    } else {
                        assert(names2[a] == names[a - 1] && names2[b] == names[b - 1]);
                    }
                }
                assert forall|a: int, b: int|
                    0 <= a < gs2.len() && 0 <= b < gs2[a].fonts@.len() implies (#[trigger] gs2[a].fonts@[
                    b]).family_name@ == gs2[a].name@ by {
                    if a < i {
                        assert(gs2[a] == gs[a]);
                    } else if a > i {
                        assert(gs2[a] == gs[a - 1]);
                    }
                }
                assert forall|a: int| 0 <= a < gs2.len() implies (#[trigger] gs2[a]).fonts@.len() > 0 by {
                    if a < i {
                        assert(gs2[a] == gs[a]);
                    } else if a > i {
                        assert(gs2[a] == gs[a - 1]);
                    }
                }
                assert(groups_wf(gs2));
                assert(!names.contains(n)) by {
                    if names.contains(n) {
                        let p = choose|p: int| 0 <= p < names.len() && names[p] == n;
                        if p < i {
                            crate::order::lemma_lex_irreflexive(n);
                        } else if p == i {
                        } else {
                            assert(lex_lt(names[i as int], names[p]));
                            lemma_lex_transitive(n, names[i as int], names[p]);
                            crate::order::lemma_lex_irreflexive(n);
                        }
                    }
                }
                lemma_group_lookup(gs2, i as int);
                assert(fonts_view(ng.fonts@) =~= seq![iv]);
                assert forall|k: Seq<char>| #[trigger] groups_map(gs2).dom().contains(k) implies groups_map(
                    gs2,
                )[k] == add_font(groups_map(gs), iv)[k] by {
                    let p = choose|p: int| 0 <= p < names2.len() && names2[p] == k;
                    lemma_group_lookup(gs2, p);
                    if p < i {
                        assert(gs2[p] == gs[p]);
                        lemma_group_lookup(gs, p);
                    } else if p > i {
                        assert(gs2[p] == gs[p - 1]);
                        lemma_group_lookup(gs, p - 1);
                    }
                }
                assert forall|k: Seq<char>| #[trigger] add_font(groups_map(gs), iv).dom().contains(k) implies groups_map(
                    gs2,
                ).dom().contains(k) by {
                    if k != n {
                        let p = choose|p: int| 0 <= p < names.len() && names[p] == k;
                        if p < i {
                            assert(names2[p] == k);
                        } else {
                            assert(names2[p + 1] == k);
                        }
                    } else {
                        assert(names2[i as int] == k);
                    }
                }
                assert(groups_map(gs2) =~= add_font(groups_map(gs), iv));
            }
        }
    }

    /// Records a font given by its bytes under `family` and `style`, as the
    /// fonts embedded in a document are.
    pub fn load_from_data(&mut self, family: &str, style: &str, data: Vec<u8>)
        requires
            old(self).wf(),
        ensures
            final(self).wf(),
            final(self)@ == add_font(old(self)@, (family@, style@, Seq::<char>::empty(), data@)),
            final(self).dirs() == old(self).dirs(),
    {
        let info = FontInfo {
            family_name: string_of(family),
            style: string_of(style),
            file_path: String::new(),
            data,
        };
        self.insert_font(info);
    }

    /// The family names, in ascending order.
    pub fn font_families(&self) -> (r: Vec<String>)
        requires
            self.wf(),
        ensures
            strings_view(r@) == self.family_names(),
            strictly_sorted(self.family_names()),
            forall|n: Seq<char>| self.family_names().contains(n) <==> self@.dom().contains(n),
            forall|n: Seq<char>| #[trigger] self@.dom().contains(n) ==> self@[n].len() > 0,
    {
        proof {
            self.lemma_families_have_fonts();
        }
        let mut r: Vec<String> = Vec::new();
        let mut i: usize = 0;
        while i < self.groups.len()
            invariant
                0 <= i <= self.groups@.len(),
                r@.len() == i,
                strings_view(r@) == names_of(self.groups@).take(i as int),
            decreases self.groups@.len() - i,
        {
            let name = self.groups[i].name.clone();
            let ghost old_r = r@;
            r.push(name);
            proof {
                assert forall|j: int| 0 <= j < i + 1 implies strings_view(r@)[j] == names_of(
                    self.groups@,
                ).take(i + 1)[j] by {
                    if j < i {
                        assert(strings_view(old_r)[j] == names_of(self.groups@).take(i as int)[j]);
                    }
                }
                assert(strings_view(r@) =~= names_of(self.groups@).take(i + 1));
            }
            i = i + 1;
        }
        proof {
            assert(names_of(self.groups@).take(i as int) =~= names_of(self.groups@));
        }
        r
    }

    /// The styles of the fonts of `family`, in the order they were added;
    /// none when the family is unknown.
    pub fn font_styles(&self, family: &str) -> (r: Vec<String>)
        requires
            self.wf(),
        ensures
            strings_view(r@) == styles_of(fonts_of(self@, family@)),
    {
        let mut r: Vec<String> = Vec::new();
        match self.find_group(family) {
            None => {
                proof {
                    assert(styles_of(fonts_of(self@, family@)) =~= Seq::<
                        Seq<char>,
                    >::empty());
                    assert(strings_view(r@) =~= Seq::<Seq<char>>::empty());
                }
                r
            },
            Some(g) => {
                proof {
                    lemma_group_lookup(self.groups@, g as int);
                }
                let fonts = &self.groups[g].fonts;
                let mut i: usize = 0;
                while i < fonts.len()
                    invariant
                        0 <= i <= fonts@.len(),
                        r@.len() == i,
                        strings_view(r@) == styles_of(fonts_view(fonts@)).take(i as int),
                    decreases fonts@.len() - i,
                {
                    let style = fonts[i].style.clone();
                    let ghost old_r = r@;
                    r.push(style);
                    proof {
                        assert forall|j: int| 0 <= j < i + 1 implies strings_view(r@)[j]
                            == styles_of(fonts_view(fonts@)).take(i + 1)[j] by {
                            if j < i {
                                assert(strings_view(old_r)[j] == styles_of(fonts_view(fonts@)).take(
                                    i as int,
                                )[j]);
                            }
                        }
                        assert(strings_view(r@) =~= styles_of(fonts_view(fonts@)).take(i + 1));
                    }
                    i = i + 1;
                }
                proof {
                    assert(styles_of(fonts_view(fonts@)).take(i as int)
                        =~= styles_of(fonts_view(fonts@)));
                }
                r
            },
        }
    }

    /// The font used for `family` and `style`: the first font of the family
    /// with that style, or else the family's first font; none when the family
    /// is unknown.
    pub fn find_font(&self, family: &str, style: &str) -> (r: Option<&FontInfo>)
        requires
            self.wf(),
        ensures
            r is None <==> !self@.dom().contains(family@),
            r matches Some(f) ==> f@ == chosen_font(self@[family@], style@),
    {
        match self.find_group(family) {
            None => {
                proof {
                    if self@.dom().contains(family@) {
                        assert(self.family_names().contains(family@));
                    }
                }
                None
            },
            Some(g) => {
                proof {
                    lemma_group_lookup(self.groups@, g as int);
                }
                let fonts = &self.groups[g].fonts;
                let ghost fv = fonts_view(fonts@);
                assert(self@.dom().contains(family@) && self@[family@] == fv);
                let mut i: usize = 0;
                while i < fonts.len()
                    invariant
                        0 <= i <= fonts@.len(),
                        fv == fonts_view(fonts@),
                        self@.dom().contains(family@),
                        self@[family@] == fv,
                        forall|j: int| 0 <= j < i ==> (#[trigger] fv[j]).1 != style@,
                    decreases fonts@.len() - i,
                {
                    if str_eq(fonts[i].style.as_str(), style) {
                        proof {
                            lemma_style_pos(fv, style@, i as int);
                        }
                        return Some(&fonts[i]);
                    }
                    proof {
                        assert(fv[i as int].1 == fonts@[i as int].style@);
                    }
                    i = i + 1;
                }
                proof {
                    lemma_style_pos(fv, style@, i as int);
                }
                Some(&fonts[0])
            },
        }
    }

    /// The bytes of the font used for `family` and `style` (see `find_font`),
    /// for embedding into a document.
    pub fn get_font_data(&self, family: &str, style: &str) -> (r: Option<&Vec<u8>>)
        requires
            self.wf(),
        ensures
            r is None <==> !self@.dom().contains(family@),
            r is None <==> fonts_of(self@, family@).len() == 0,
            r matches Some(d) ==> d@ == chosen_font(self@[family@], style@).3,
    {
        proof {
            self.lemma_families_have_fonts();
        }
        match self.find_font(family, style) {
            Some(f) => Some(&f.data),
            None => None,
        }
    }

    /// Whether `path` names a font file: its extension is `ttf`, `otf`,
    /// `ttc`, `woff` or `woff2`.
    pub fn is_font_file(path: &str) -> (r: bool)
        ensures
            r == font_path(path@),
    {
        match path_file_name(path) {
            Some(name) => match name_extension(name.as_str()) {
                Some(e) => {
                    let e = e.as_str();
                    str_eq(e, "ttf") || str_eq(e, "otf") || str_eq(e, "ttc") || str_eq(e, "woff")
                        || str_eq(e, "woff2")
                },
                None => false,
            },
            None => false,
        }
    }

    /// Records the font at `path` with bytes `data`, named by its name
    /// records as `ttf_parser` reads them: the family and style records, or
    /// else the file's stem and `Regular`.
    pub fn register_font(&mut self, path: &str, records: &[(u16, Option<String>)], data: Vec<u8>)
        requires
            old(self).wf(),
        ensures
            final(self).wf(),
            final(self)@ == add_font(
                old(self)@,
                font_from_records(records_view(records@), path@, data@),
            ),
            final(self).dirs() == old(self).dirs(),
    {
        let family = match first_record(records, FAMILY_NAME_ID) {
            Some(i) => match &records[i].1 {
                Some(name) => name.clone(),
                None => Self::stem_of(path),
            },
            None => Self::stem_of(path),
        };
        let style = match first_record(records, SUBFAMILY_NAME_ID) {
            Some(i) => match &records[i].1 {
                Some(name) => name.clone(),
                None => string_of("Regular"),
            },
            None => string_of("Regular"),
        };
        let info = FontInfo { family_name: family, style, file_path: string_of(path), data };
        self.insert_font(info);
    }

    fn stem_of(path: &str) -> (r: String)
        ensures
            r@ == match file_name(path@) {
                Some(n) => file_stem(n),
                None => Seq::empty(),
            },
    {
        match path_file_name(path) {
            Some(name) => name_stem(name.as_str()),
            None => String::new(),
        }
    }

    /// Reads a font file's bytes with `ttf_parser` and records the font;
    /// bytes it refuses are skipped.
    pub fn try_load_font(&mut self, path: &str, data: Vec<u8>)
        requires
            old(self).wf(),
        ensures
            final(self).wf(),
            final(self)@ == match font_name_records(data@) {
                None => old(self)@,
                Some(recs) => add_font(old(self)@, font_from_records(recs, path@, data@)),
            },
            final(self).dirs() == old(self).dirs(),
    {
        match parse_name_records(data.as_slice()) {
            None => {},
            Some(records) => self.register_font(path, records.as_slice(), data),
        }
    }

    /// Reads the files found in the font directories, in order, recording
    /// every font file among them (see `load_font_file`).
    pub fn scan_system_fonts(&mut self, files: Vec<(String, Vec<u8>)>)
        requires
            old(self).wf(),
        ensures
            final(self).wf(),
            final(self)@ == scan_fonts(old(self)@, files_view(files@)),
            final(self).dirs() == old(self).dirs(),
    {
        let ghost all = files_view(files@);
        let ghost start = self@;
        let mut rest = files;
        let mut k: usize = 0;
        let n = rest.len();
        proof {
            assert(all.take(0) =~= Seq::<(Seq<char>, Seq<u8>)>::empty());
            assert(files_view(rest@) =~= all.skip(0));
        }
        while rest.len() > 0
            invariant
                self.wf(),
                self.dirs() == old(self).dirs(),
                n == all.len(),
                k + rest@.len() == n,
                files_view(rest@) == all.skip(k as int),
                self@ == scan_fonts(start, all.take(k as int)),
            decreases rest@.len(),
        {
            let ghost before = rest@;
            let (path, data) = rest.remove(0);
            proof {
                assert(all[k as int] == files_view(before)[0]);
                assert forall|j: int| 0 <= j < rest@.len() implies #[trigger] files_view(rest@)[j]
                    == all.skip(k + 1)[j] by {
                    assert(rest@[j] == before[j + 1]);
                    assert(files_view(before)[j + 1] == all.skip(k as int)[j + 1]);
                }
                assert(files_view(rest@) =~= all.skip(k + 1));
                assert(all.take(k + 1).drop_last() =~= all.take(k as int));
            }
            if Self::is_font_file(path.as_str()) {
                self.try_load_font(path.as_str(), data);
            }
            k = k + 1;
        }
        proof {
            assert(all.take(k as int) =~= all);
        }
    }

    /// The directories searched for fonts, given the `HOME` and `WINDIR`
    /// environment values (see `default_dirs`).
    pub fn default_font_dirs(home: Option<String>, windir: Option<String>) -> (r: Vec<String>)
        ensures
            strings_view(r@) == default_dirs(
                match home {
                    Some(h) => Some(h@),
                    None => None,
                },
                match windir {
                    Some(w) => Some(w@),
                    None => None,
                },
            ),
    {
        let mut dirs: Vec<String> = Vec::new();
        dirs.push(string_of("/usr/share/fonts"));
        dirs.push(string_of("/usr/local/share/fonts"));
        match &home {
            Some(h) => {
                dirs.push(join_path(h.as_str(), ".fonts"));
                dirs.push(join_path(h.as_str(), ".local/share/fonts"));
            },
            None => {},
        }
        dirs.push(string_of("/System/Library/Fonts"));
        dirs.push(string_of("/Library/Fonts"));
        match &windir {
            Some(w) => {
                dirs.push(join_path(w.as_str(), "Fonts"));
            },
            None => {},
        }
        proof {
            assert(strings_view(dirs@) =~= default_dirs(
                match home {
                    Some(h) => Some(h@),
                    None => None,
                },
                match windir {
                    Some(w) => Some(w@),
                    None => None,
                },
            ));
        }
        dirs
    }
}

} // verus!
