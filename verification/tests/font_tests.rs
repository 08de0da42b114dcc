use flwing::fonts::FontManager;

fn be16(v: u16) -> [u8; 2] {
    v.to_be_bytes()
}

fn be32(v: u32) -> [u8; 4] {
    v.to_be_bytes()
}

/// A minimal TrueType font: `head`, `hhea`, `maxp` and a `name` table with
/// the given family and subfamily names.
fn tiny_font(family: &str, style: &str) -> Vec<u8> {
    let mut head = vec![0u8; 54];
    head[18..20].copy_from_slice(&be16(1000));
    let hhea = vec![0u8; 36];
    let mut maxp = Vec::new();
    maxp.extend_from_slice(&be32(0x00005000));
    maxp.extend_from_slice(&be16(1));
    let fam: Vec<u8> = family.encode_utf16().flat_map(|u| u.to_be_bytes()).collect();
    let sty: Vec<u8> = style.encode_utf16().flat_map(|u| u.to_be_bytes()).collect();
    let mut name = Vec::new();
    name.extend_from_slice(&be16(0));
    name.extend_from_slice(&be16(2));
    name.extend_from_slice(&be16(6 + 2 * 12));
    for (id, len, off) in [(1u16, fam.len(), 0usize), (2u16, sty.len(), fam.len())] {
        name.extend_from_slice(&be16(3));
        name.extend_from_slice(&be16(1));
        name.extend_from_slice(&be16(0x409));
        name.extend_from_slice(&be16(id));
        name.extend_from_slice(&be16(len as u16));
        name.extend_from_slice(&be16(off as u16));
    }
    name.extend_from_slice(&fam);
    name.extend_from_slice(&sty);
    let tables: [(&[u8; 4], &Vec<u8>); 4] =
        [(b"head", &head), (b"hhea", &hhea), (b"maxp", &maxp), (b"name", &name)];
    let mut out = Vec::new();
    out.extend_from_slice(&be32(0x00010000));
    out.extend_from_slice(&be16(4));
    out.extend_from_slice(&[0, 0, 0, 0, 0, 0]);
    let mut offset = 12 + 16 * tables.len();
    for (tag, data) in tables.iter() {
        out.extend_from_slice(*tag);
        out.extend_from_slice(&be32(0));
        out.extend_from_slice(&be32(offset as u32));
        out.extend_from_slice(&be32(data.len() as u32));
        offset += data.len();
    }
    for (_, data) in tables.iter() {
        out.extend_from_slice(data);
    }
    out
}

#[test]
fn families_are_sorted_and_styles_kept_in_order() {
    let mut m = FontManager::new(vec![]);
    assert!(m.font_families().is_empty());
    m.load_from_data("Noto", "Regular", vec![1]);
    m.load_from_data("Arial", "Bold", vec![2]);
    m.load_from_data("Noto", "Bold", vec![3]);
    m.load_from_data("Consolas", "Regular", vec![4]);
    assert_eq!(m.font_families(), vec!["Arial", "Consolas", "Noto"]);
    assert_eq!(m.font_styles("Noto"), vec!["Regular", "Bold"]);
    assert!(m.font_styles("Missing").is_empty());
}

#[test]
fn font_data_prefers_style_then_first() {
    let mut m = FontManager::new(vec!["/fonts".to_string()]);
    m.load_from_data("Noto", "Regular", vec![1]);
    m.load_from_data("Noto", "Bold", vec![3]);
    m.load_from_data("Noto", "Bold", vec![5]);
    assert_eq!(m.get_font_data("Noto", "Bold"), Some(&vec![3]));
    assert_eq!(m.get_font_data("Noto", "Italic"), Some(&vec![1]));
    assert_eq!(m.get_font_data("Other", "Bold"), None);
    let f = m.find_font("Noto", "Bold").unwrap();
    assert_eq!(f.family_name, "Noto");
    assert_eq!(f.file_path, "");
    assert_eq!(m.font_dirs(), &vec!["/fonts".to_string()]);
}

#[test]
fn font_file_extensions() {
    assert!(FontManager::is_font_file("/usr/share/fonts/a.ttf"));
    assert!(FontManager::is_font_file("b.otf"));
    assert!(FontManager::is_font_file("dir/c.tar.woff2"));
    assert!(FontManager::is_font_file("x.ttc/"));
    assert!(!FontManager::is_font_file("d.TTF"));
    assert!(!FontManager::is_font_file(".ttf"));
    assert!(!FontManager::is_font_file("fonts/ttf"));
    assert!(!FontManager::is_font_file("a.ttf/.."));
    assert!(!FontManager::is_font_file(""));
}

#[test]
fn default_directories() {
    let dirs = FontManager::default_font_dirs(Some("/home/u".to_string()), Some("C:/Windows".to_string()));
    assert_eq!(
        dirs,
        vec![
            "/usr/share/fonts",
            "/usr/local/share/fonts",
            "/home/u/.fonts",
            "/home/u/.local/share/fonts",
            "/System/Library/Fonts",
            "/Library/Fonts",
            "C:/Windows/Fonts",
        ]
    );
    let dirs = FontManager::default_font_dirs(Some("/root/".to_string()), None);
    assert_eq!(dirs[2], "/root/.fonts");
    assert_eq!(dirs.len(), 6);
    assert_eq!(FontManager::default_font_dirs(None, None).len(), 4);
}

#[test]
fn font_files_are_read_with_their_names() {
    let mut m = FontManager::new(vec![]);
    m.try_load_font("/fonts/x.ttf", tiny_font("TestFam", "Bold"));
    assert_eq!(m.font_families(), vec!["TestFam"]);
    assert_eq!(m.font_styles("TestFam"), vec!["Bold"]);
    let f = m.find_font("TestFam", "Bold").unwrap();
    assert_eq!(f.file_path, "/fonts/x.ttf");
    m.try_load_font("/fonts/junk.ttf", vec![1, 2, 3]);
    assert_eq!(m.font_families(), vec!["TestFam"]);
}

#[test]
fn scan_reads_only_font_files() {
    let mut m = FontManager::new(vec![]);
    m.scan_system_fonts(vec![
        ("/f/readme.txt".to_string(), tiny_font("Ignored", "Regular")),
        ("/f/b.otf".to_string(), tiny_font("Beta", "Italic")),
        ("/f/a.ttf".to_string(), tiny_font("Alpha", "Regular")),
        ("/f/bad.ttf".to_string(), vec![0, 1, 0, 0]),
    ]);
    assert_eq!(m.font_families(), vec!["Alpha", "Beta"]);
    assert_eq!(m.font_styles("Beta"), vec!["Italic"]);
}

#[test]
fn missing_names_fall_back() {
    let mut m = FontManager::new(vec![]);
    m.register_font("/fonts/MyFont-Bold.ttf", &[(3, Some("x".to_string())), (1, None)], vec![7]);
    assert_eq!(m.font_families(), vec!["MyFont-Bold"]);
    assert_eq!(m.font_styles("MyFont-Bold"), vec!["Regular"]);
    m.register_font(
        "/fonts/z.ttf",
        &[(2, Some("Light".to_string())), (1, Some("Zed".to_string())), (1, Some("Later".to_string()))],
        vec![8],
    );
    assert_eq!(m.font_styles("Zed"), vec!["Light"]);
    assert_eq!(m.font_families(), vec!["MyFont-Bold", "Zed"]);
}
