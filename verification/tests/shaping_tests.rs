use flwing::shaping::{shape_units, split_lines, ShapedUnit};

fn be16(v: u16) -> Vec<u8> {
    v.to_be_bytes().to_vec()
}

/// A small TrueType font mapping `a` and `b` to glyphs 1 and 2, with
/// advances 500, 600 and 700 for glyphs 0 to 2 and a kerning of -50 for the
/// pair (1, 2).
fn font() -> Vec<u8> {
    let mut cmap = Vec::new();
    cmap.extend(be16(0));
    cmap.extend(be16(1));
    cmap.extend(be16(0));
    cmap.extend(be16(3));
    cmap.extend(12u32.to_be_bytes());
    cmap.extend(be16(6));
    cmap.extend(be16(14));
    cmap.extend(be16(0));
    cmap.extend(be16(97));
    cmap.extend(be16(2));
    cmap.extend(be16(1));
    cmap.extend(be16(2));
    let mut head = vec![0u8; 54];
    head[18..20].copy_from_slice(&1000u16.to_be_bytes());
    let mut hhea = vec![0u8; 36];
    hhea[34..36].copy_from_slice(&3u16.to_be_bytes());
    let mut hmtx = Vec::new();
    for adv in [500u16, 600, 700] {
        hmtx.extend(be16(adv));
        hmtx.extend(be16(0));
    }
    let mut kern = Vec::new();
    kern.extend(be16(0));
    kern.extend(be16(1));
    kern.extend(be16(0));
    kern.extend(be16(6 + 8 + 6));
    kern.push(0);
    kern.push(1);
    kern.extend(be16(1));
    kern.extend(be16(6));
    kern.extend(be16(0));
    kern.extend(be16(0));
    kern.extend(be16(1));
    kern.extend(be16(2));
    kern.extend((-50i16).to_be_bytes());
    let mut maxp = Vec::new();
    maxp.extend(0x00005000u32.to_be_bytes());
    maxp.extend(be16(3));
    let tables: Vec<(&[u8; 4], Vec<u8>)> = vec![
        (b"cmap", cmap),
        (b"head", head),
        (b"hhea", hhea),
        (b"hmtx", hmtx),
        (b"kern", kern),
        (b"maxp", maxp),
    ];
    let mut out = Vec::new();
    out.extend(0x00010000u32.to_be_bytes());
    out.extend(be16(tables.len() as u16));
    out.extend([0u8; 6]);
    let mut offset = 12 + 16 * tables.len();
    for (tag, data) in tables.iter() {
        out.extend_from_slice(*tag);
        out.extend(0u32.to_be_bytes());
        out.extend((offset as u32).to_be_bytes());
        out.extend((data.len() as u32).to_be_bytes());
        offset += data.len();
    }
    for (_, data) in tables.iter() {
        out.extend_from_slice(data);
    }
    out
}

fn unit(glyph_id: u16, kerning: Vec<i16>, advance: u16) -> ShapedUnit {
    ShapedUnit { glyph_id, kerning, advance }
}

#[test]
fn lines_like_str_lines() {
    let cases = ["", "a", "a\n", "a\r\nb", "\n\n", "x\ry\n\rz\r", "한\n글"];
    for c in cases {
        let got: Vec<String> = split_lines(c).into_iter().map(|l| l.into_iter().collect()).collect();
        let want: Vec<String> = c.lines().map(|l| l.to_string()).collect();
        assert_eq!(got, want, "{:?}", c);
    }
}

#[test]
fn glyphs_advances_and_kerning() {
    let f = font();
    let lines = shape_units("ab\nba?", &f, true).unwrap();
    assert_eq!(lines.len(), 2);
    assert_eq!(lines[0], vec![unit(1, vec![], 600), unit(2, vec![-50], 700)]);
    assert_eq!(lines[1], vec![unit(2, vec![], 700), unit(1, vec![], 600), unit(0, vec![], 500)]);
    let plain = shape_units("ab", &f, false).unwrap();
    assert_eq!(plain[0], vec![unit(1, vec![], 600), unit(2, vec![], 700)]);
}

#[test]
fn unreadable_font() {
    assert!(shape_units("ab", &[0, 1, 2, 3], true).is_none());
    assert_eq!(shape_units("", &font(), true), Some(vec![]));
}
