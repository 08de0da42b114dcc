use flwing::geometry::Color;
use flwing::svg::{
    parse_coord_pair, parse_hex_color, parse_number, skip_separator, skip_whitespace,
    svg_path_data_to_bezier, trim_text, SvgCommand, SvgNumber,
};

fn chars(s: &str) -> Vec<char> {
    s.chars().collect()
}

fn num(negative: bool, digits: &str) -> SvgNumber {
    SvgNumber { negative, digits: chars(digits) }
}

fn cmd(letter: char, numbers: Vec<SvgNumber>) -> SvgCommand {
    SvgCommand { letter, numbers }
}

#[test]
fn numbers_keep_their_fractions() {
    let v = chars("-12.5e3");
    assert_eq!(parse_number(&v, 0), (Some(num(true, "12.5")), 5));
    let v = chars(" ,+007.250x");
    assert_eq!(parse_number(&v, 0), (Some(num(false, "007.250")), 10));
    let v = chars("1.");
    assert_eq!(parse_number(&v, 0), (Some(num(false, "1.")), 2));
    let v = chars(".5");
    assert_eq!(parse_number(&v, 0), (Some(num(false, ".5")), 2));
    let v = chars("99999999999999999999999.5");
    assert_eq!(parse_number(&v, 0), (Some(num(false, "99999999999999999999999.5")), 25));
}

#[test]
fn runs_that_are_not_numbers() {
    let v = chars("1.2.3 4");
    assert_eq!(parse_number(&v, 0), (None, 5));
    let v = chars("- 3");
    assert_eq!(parse_number(&v, 0), (None, 1));
    let v = chars(".");
    assert_eq!(parse_number(&v, 0), (None, 1));
    let v = chars("");
    assert_eq!(parse_number(&v, 0), (None, 0));
}

#[test]
fn separators_and_pairs() {
    let v = chars(" \t,\n5");
    assert_eq!(skip_whitespace(&v, 0), 4);
    assert_eq!(skip_separator(&v, 4), 4);
    let v = chars(" 1.5, -2 z");
    assert_eq!(parse_coord_pair(&v, 0), (Some((num(false, "1.5"), num(true, "2"))), 8));
    let v = chars("3 x");
    assert_eq!(parse_coord_pair(&v, 0), (None, 2));
}

#[test]
fn absolute_commands() {
    let cmds = svg_path_data_to_bezier("M10 20 L30,40 C1 2 3 4 5 6 Z");
    assert_eq!(
        cmds,
        vec![
            cmd('M', vec![num(false, "10"), num(false, "20")]),
            cmd('L', vec![num(false, "30"), num(false, "40")]),
            cmd(
                'C',
                vec![
                    num(false, "1"),
                    num(false, "2"),
                    num(false, "3"),
                    num(false, "4"),
                    num(false, "5"),
                    num(false, "6"),
                ]
            ),
            cmd('Z', vec![]),
        ]
    );
}

#[test]
fn relative_commands() {
    let cmds = svg_path_data_to_bezier("m 5 5 l 10 -2.5 z");
    assert_eq!(
        cmds,
        vec![
            cmd('m', vec![num(false, "5"), num(false, "5")]),
            cmd('l', vec![num(false, "10"), num(true, "2.5")]),
            cmd('z', vec![]),
        ]
    );
}

#[test]
fn numbers_and_skipped_commands() {
    let cmds = svg_path_data_to_bezier("M1.9 -2.5 Q 1 2 3 4 L+7 .5 L1.2.3 4 L 8 9 z");
    assert_eq!(
        cmds,
        vec![
            cmd('M', vec![num(false, "1.9"), num(true, "2.5")]),
            cmd('L', vec![num(false, "7"), num(false, ".5")]),
            cmd('L', vec![num(false, "8"), num(false, "9")]),
            cmd('z', vec![]),
        ]
    );
    assert!(svg_path_data_to_bezier("").is_empty());
    assert!(svg_path_data_to_bezier("M . 5 L - 3 C 1 2 3 4").is_empty());
}

#[test]
fn hex_colours() {
    assert_eq!(parse_hex_color("#ff8000"), Some(Color::new(255, 128, 0, 255)));
    assert_eq!(parse_hex_color("  #FF8000ab \n"), Some(Color::new(255, 128, 0, 255)));
    assert_eq!(parse_hex_color("#+12345"), Some(Color::new(1, 0x23, 0x45, 255)));
    assert_eq!(parse_hex_color("#zzzzzz"), Some(Color::new(0, 0, 0, 255)));
    assert_eq!(parse_hex_color("#-12345"), Some(Color::new(0, 0, 0, 255)));
    assert_eq!(parse_hex_color("#fff"), None);
    assert_eq!(parse_hex_color("rgb(1,2,3)"), None);
    assert_eq!(trim_text("\u{3000} a b \t"), "a b");
}
