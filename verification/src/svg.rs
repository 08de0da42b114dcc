//! SVG path data read into commands, and SVG colours.
//!
//! The path reader finds the commands of SVG path data and the numbers they
//! take, and keeps every number exactly as it is written: its sign and its
//! digits, with the decimal point where it stands. Turning the numbers into
//! coordinates (floating-point values, and the sums that relative commands
//! make) is left to the caller.
use vstd::prelude::*;
use crate::text::{chars_of, string_from_chars};
use crate::geometry::Color;
use vstd::utf8::{encode_utf8, is_char_boundary, is_ascii_chars, is_ascii_chars_encode_utf8};

verus! {

/// The characters that separate numbers and commands.
pub open spec fn is_ws(c: char) -> bool {
    c == ' ' || c == ',' || c == '\n' || c == '\r' || c == '\t'
}

/// The characters a number is made of after its sign.
pub open spec fn is_num_char(c: char) -> bool {
    (48 <= (c as int) <= 57) || c == '.'
}

/// The first position at or after `i` that holds no separator.
pub open spec fn skip_ws(s: Seq<char>, i: int) -> int
    decreases s.len() - i,
{
    if 0 <= i < s.len() && is_ws(s[i]) {
        skip_ws(s, i + 1)
    } else {
        i
    }
}

/// The first position at or after `i` that holds no digit or `.`.
pub open spec fn num_end(s: Seq<char>, i: int) -> int
    decreases s.len() - i,
{
    if 0 <= i < s.len() && is_num_char(s[i]) {
        num_end(s, i + 1)
    } else {
        i
    }
}

/// The number of `.` in `t`.
pub open spec fn dots(t: Seq<char>) -> nat
    decreases t.len(),
{
    if t.len() == 0 {
        0
    } else {
        dots(t.drop_last()) + if t.last() == '.' {
            1nat
        } else {
            0nat
        }
    }
}

/// Whether a run of digits and dots is a decimal number: at most one `.`
/// and at least one digit (`5`, `1.5`, `1.` and `.5` are; `.`, `1.2.3` and
/// the empty run are not). These are the runs that `f64`'s `FromStr` reads.
pub open spec fn is_decimal(t: Seq<char>) -> bool {
    dots(t) <= 1 && t.len() > dots(t)
}

/// A number as SVG path data writes it: whether it is negative, and its
/// digits with the decimal point where it stands.
#[derive(Clone, Debug, PartialEq, Eq)]
pub struct SvgNumber {
    pub negative: bool,
    pub digits: Vec<char>,
}

/// A number as plain values: its sign and its digits.
pub type NumberView = (bool, Seq<char>);

impl View for SvgNumber {
    type V = NumberView;

    open spec fn view(&self) -> NumberView {
        (self.negative, self.digits@)
    }
}

/// A command of SVG path data: its letter and the numbers it takes, in the
/// order they are written.
#[derive(Clone, Debug, PartialEq, Eq)]
pub struct SvgCommand {
    pub letter: char,
    pub numbers: Vec<SvgNumber>,
}

/// A command as plain values: its letter and its numbers.
pub type CommandView = (char, Seq<NumberView>);

/// The views of a sequence of numbers.
pub open spec fn numbers_view(v: Seq<SvgNumber>) -> Seq<NumberView> {
    v.map_values(|n: SvgNumber| n@)
}

impl View for SvgCommand {
    type V = CommandView;

    open spec fn view(&self) -> CommandView {
        (self.letter, numbers_view(self.numbers@))
    }
}

/// The views of a sequence of commands.
pub open spec fn commands_view(v: Seq<SvgCommand>) -> Seq<CommandView> {
    v.map_values(|c: SvgCommand| c@)
}

/// Reading a number at `i`: separators are skipped, then an optional sign
/// and a run of digits and dots are consumed whether or not they make a
/// number; gives the number, if any, and the position after the run.
pub open spec fn number_at(s: Seq<char>, i: int) -> (Option<NumberView>, int) {
    let j = skip_ws(s, i);
    let signed = 0 <= j < s.len() && (s[j] == '-' || s[j] == '+');
    let k = if signed {
        j + 1
    } else {
        j
    };
    let e = num_end(s, k);
    let t = s.subrange(k, e);
    (if is_decimal(t) {
        Some((signed && s[j] == '-', t))
    } else {
        None
    }, e)
}

/// Reading a coordinate pair at `i`: two numbers, the second read only when
/// the first is one.
pub open spec fn pair_at(s: Seq<char>, i: int) -> (Option<(NumberView, NumberView)>, int) {
    let (x, i1) = number_at(s, skip_ws(s, i));
    match x {
        None => (None, i1),
        Some(x) => {
            let (y, i2) = number_at(s, skip_ws(s, i1));
            match y {
                None => (None, i2),
                Some(y) => (Some((x, y)), i2),
            }
        },
    }
}

/// Reading one command (or skipping one character) at position `i`: the
/// commands read so far, extended, and the position after what was read.
/// `M`, `m`, `L` and `l` take one coordinate pair; `C` and `c` take three,
/// all three read before deciding; `Z` and `z` take none. A command whose
/// numbers do not all parse is dropped; `Q`, `q` and every other character
/// are skipped.
pub open spec fn step(s: Seq<char>, i: int, cmds: Seq<CommandView>) -> (Seq<CommandView>, int) {
    let c = s[i];
    if c == 'M' || c == 'm' || c == 'L' || c == 'l' {
        let (p, j) = pair_at(s, i + 1);
        match p {
            Some((x, y)) => (cmds.push((c, seq![x, y])), j),
            None => (cmds, j),
        }
    } else if c == 'C' || c == 'c' {
        let (p1, j1) = pair_at(s, i + 1);
        let (p2, j2) = pair_at(s, j1);
        let (p3, j3) = pair_at(s, j2);
        match (p1, p2, p3) {
            (Some(a), Some(b), Some(e)) => (cmds.push((c, seq![a.0, a.1, b.0, b.1, e.0, e.1])), j3),
            _ => (cmds, j3),
        }
    } else if c == 'Z' || c == 'z' {
        (cmds.push((c, Seq::empty())), i + 1)
    } else {
        (cmds, i + 1)
    }
}

pub proof fn lemma_skip_ws(s: Seq<char>, i: int)
    requires
        0 <= i <= s.len(),
    ensures
        i <= skip_ws(s, i) <= s.len(),
        forall|j: int| i <= j < skip_ws(s, i) ==> is_ws(s[j]),
        skip_ws(s, i) < s.len() ==> !is_ws(s[skip_ws(s, i)]),
    decreases s.len() - i,
{
    if i < s.len() && is_ws(s[i]) {
        lemma_skip_ws(s, i + 1);
    }
}

pub proof fn lemma_num_end(s: Seq<char>, i: int)
    requires
        0 <= i <= s.len(),
    ensures
        i <= num_end(s, i) <= s.len(),
        forall|j: int| i <= j < num_end(s, i) ==> is_num_char(s[j]),
    decreases s.len() - i,
{
    if i < s.len() && is_num_char(s[i]) {
        lemma_num_end(s, i + 1);
    }
}

pub proof fn lemma_number_at(s: Seq<char>, i: int)
    requires
        0 <= i <= s.len(),
    ensures
        i <= number_at(s, i).1 <= s.len(),
{
    let j = skip_ws(s, i);
    lemma_skip_ws(s, i);
    let signed = 0 <= j < s.len() && (s[j] == '-' || s[j] == '+');
    let k = if signed {
        j + 1
    } else {
        j
    };
    lemma_num_end(s, k);
}

pub proof fn lemma_pair_at(s: Seq<char>, i: int)
    requires
        0 <= i <= s.len(),
    ensures
        i <= pair_at(s, i).1 <= s.len(),
{
    lemma_skip_ws(s, i);
    let j = skip_ws(s, i);
    lemma_number_at(s, j);
    let i1 = number_at(s, j).1;
    lemma_skip_ws(s, i1);
    lemma_number_at(s, skip_ws(s, i1));
}

/// Every step reads at least one character and stays within the text.
pub proof fn lemma_step_advances(s: Seq<char>, i: int, cmds: Seq<CommandView>)
    requires
        0 <= i < s.len(),
    ensures
        i < step(s, i, cmds).1 <= s.len(),
{
    lemma_pair_at(s, i + 1);
    let j1 = pair_at(s, i + 1).1;
    lemma_pair_at(s, j1);
    let j2 = pair_at(s, j1).1;
    lemma_pair_at(s, j2);
}

/// Reading from position `i` to the end of the text.
pub open spec fn run(s: Seq<char>, i: int, cmds: Seq<CommandView>) -> Seq<CommandView>
    decreases s.len() - i,
{
    if 0 <= i < s.len() {
        let (cmds2, j) = step(s, i, cmds);
        proof {
            lemma_step_advances(s, i, cmds);
        }
        run(s, j, cmds2)
    } else {
        cmds
    }
}

/// The commands of SVG path data, read from the start.
pub open spec fn svg_commands(s: Seq<char>) -> Seq<CommandView> {
    run(s, 0, Seq::empty())
}

/// Whether a number is one that parses: a decimal run of digits.
pub open spec fn number_ok(n: NumberView) -> bool {
    is_decimal(n.1) && forall|k: int| 0 <= k < n.1.len() ==> is_num_char(#[trigger] n.1[k])
}

/// Whether a command is complete: one of the letters read, with the count
/// of numbers that letter takes, each of them a number that parses.
pub open spec fn command_ok(c: CommandView) -> bool {
    &&& (if c.0 == 'M' || c.0 == 'm' || c.0 == 'L' || c.0 == 'l' {
        c.1.len() == 2
    } else if c.0 == 'C' || c.0 == 'c' {
        c.1.len() == 6
    } else {
        (c.0 == 'Z' || c.0 == 'z') && c.1.len() == 0
    })
    &&& forall|k: int| 0 <= k < c.1.len() ==> number_ok(#[trigger] c.1[k])
}

proof fn lemma_number_at_ok(s: Seq<char>, i: int)
    requires
        0 <= i <= s.len(),
    ensures
        number_at(s, i).0 matches Some(n) ==> number_ok(n),
{
    let j = skip_ws(s, i);
    lemma_skip_ws(s, i);
    let signed = 0 <= j < s.len() && (s[j] == '-' || s[j] == '+');
    let k = if signed {
        j + 1
    } else {
        j
    };
    lemma_num_end(s, k);
    let e = num_end(s, k);
    let t = s.subrange(k, e);
    assert forall|m: int| 0 <= m < t.len() implies is_num_char(#[trigger] t[m]) by {
        assert(t[m] == s[k + m]);
    }
}

proof fn lemma_pair_at_ok(s: Seq<char>, i: int)
    requires
        0 <= i <= s.len(),
    ensures
        pair_at(s, i).0 matches Some(p) ==> number_ok(p.0) && number_ok(p.1),
{
    lemma_skip_ws(s, i);
    let j = skip_ws(s, i);
    lemma_number_at(s, j);
    lemma_number_at_ok(s, j);
    let i1 = number_at(s, j).1;
    lemma_skip_ws(s, i1);
    lemma_number_at_ok(s, skip_ws(s, i1));
}

proof fn lemma_step_ok(s: Seq<char>, i: int, cmds: Seq<CommandView>)
    requires
        0 <= i < s.len(),
        forall|k: int| 0 <= k < cmds.len() ==> command_ok(#[trigger] cmds[k]),
    ensures
        forall|k: int| 0 <= k < step(s, i, cmds).0.len() ==> command_ok(#[trigger] step(s, i, cmds).0[k]),
{
    lemma_pair_at(s, i + 1);
    lemma_pair_at_ok(s, i + 1);
    let j1 = pair_at(s, i + 1).1;
    lemma_pair_at(s, j1);
    lemma_pair_at_ok(s, j1);
    let j2 = pair_at(s, j1).1;
    lemma_pair_at(s, j2);
    lemma_pair_at_ok(s, j2);
    let out = step(s, i, cmds).0;
    assert forall|k: int| 0 <= k < out.len() implies command_ok(#[trigger] out[k]) by {
        if k < cmds.len() {
            assert(out[k] == cmds[k]);
        }
    }
}

proof fn lemma_run_ok(s: Seq<char>, i: int, cmds: Seq<CommandView>)
    requires
        forall|k: int| 0 <= k < cmds.len() ==> command_ok(#[trigger] cmds[k]),
    ensures
        forall|k: int| 0 <= k < run(s, i, cmds).len() ==> command_ok(#[trigger] run(s, i, cmds)[k]),
    decreases s.len() - i,
{
    if 0 <= i < s.len() {
        lemma_step_ok(s, i, cmds);
        lemma_step_advances(s, i, cmds);
        let (cmds2, j) = step(s, i, cmds);
        lemma_run_ok(s, j, cmds2);
        assert(run(s, i, cmds) == run(s, j, cmds2));
    }
}

/// Every command read from SVG path data is complete: `M`, `m`, `L` and `l`
/// carry two numbers, `C` and `c` six, `Z` and `z` none, and every number
/// is a decimal that parses.
pub proof fn lemma_svg_commands_complete(s: Seq<char>)
    ensures
        forall|k: int| 0 <= k < svg_commands(s).len() ==> command_ok(#[trigger] svg_commands(s)[k]),
{
    lemma_run_ok(s, 0, Seq::empty());
}

/// Whether `pos` marks, in increasing order, a position of `s` for each
/// command, holding that command's letter.
pub open spec fn letters_at(s: Seq<char>, cmds: Seq<CommandView>, pos: Seq<int>) -> bool {
    &&& pos.len() == cmds.len()
    &&& forall|k: int| 0 <= k < pos.len() ==> 0 <= #[trigger] pos[k] < s.len() && s[pos[k]] == cmds[k].0
    &&& forall|k: int, l: int| 0 <= k < l < pos.len() ==> #[trigger] pos[k] < #[trigger] pos[l]
}

proof fn lemma_run_letters(s: Seq<char>, i: int, cmds: Seq<CommandView>, pos: Seq<int>) -> (out: Seq<int>)
    requires
        0 <= i,
        letters_at(s, cmds, pos),
        forall|k: int| 0 <= k < pos.len() ==> #[trigger] pos[k] < i,
    ensures
        letters_at(s, run(s, i, cmds), out),
    decreases s.len() - i,
{
    if 0 <= i < s.len() {
        lemma_step_advances(s, i, cmds);
        let (cmds2, j) = step(s, i, cmds);
        assert(run(s, i, cmds) == run(s, j, cmds2));
        if cmds2.len() == cmds.len() {
            assert(cmds2 == cmds);
            lemma_run_letters(s, j, cmds2, pos)
        } else {
            assert(cmds2 == cmds.push((s[i], cmds2.last().1)));
            let pos2 = pos.push(i);
            assert forall|k: int| 0 <= k < pos2.len() implies 0 <= #[trigger] pos2[k] < s.len()
                && s[pos2[k]] == cmds2[k].0 by {
                if k < pos.len() {
                    assert(pos2[k] == pos[k]);
                    assert(cmds2[k] == cmds[k]);
                }
            }
            assert forall|k: int, l: int| 0 <= k < l < pos2.len() implies #[trigger] pos2[k]
                < #[trigger] pos2[l] by {
                if l < pos.len() {
                    assert(pos2[k] == pos[k] && pos2[l] == pos[l]);
                } else {
                    assert(pos2[k] == pos[k]);
                }
            }
            lemma_run_letters(s, j, cmds2, pos2)
        }
    } else {
        pos
    }
}

/// Every command read from path data carries the letter written for it in
/// the data, in the order written: the letters of the commands are found at
/// increasing positions of the text. A relative command (`m`, `l`, `c`,
/// `z`) stays relative and an absolute one (`M`, `L`, `C`, `Z`) stays
/// absolute; no command is made up or reordered.
pub proof fn lemma_svg_command_letters(s: Seq<char>)
    ensures
        exists|pos: Seq<int>| letters_at(s, svg_commands(s), pos),
{
    let pos = lemma_run_letters(s, 0, Seq::empty(), Seq::empty());
    assert(letters_at(s, svg_commands(s), pos));
}

/// A number written after a space: the space, a `-` when it is negative,
/// then its digits.
pub open spec fn piece(n: NumberView) -> Seq<char> {
    seq![' '] + (if n.0 {
        seq!['-']
    } else {
        Seq::empty()
    }) + n.1
}

/// Numbers written one after another, each after a space.
pub open spec fn pieces(nums: Seq<NumberView>) -> Seq<char>
    decreases nums.len(),
{
    if nums.len() == 0 {
        Seq::empty()
    } else {
        pieces(nums.drop_last()) + piece(nums.last())
    }
}

proof fn lemma_num_end_run(s: Seq<char>, k: int, e: int)
    requires
        0 <= k <= e <= s.len(),
        forall|m: int| k <= m < e ==> is_num_char(#[trigger] s[m]),
        e == s.len() || !is_num_char(s[e]),
    ensures
        num_end(s, k) == e,
    decreases e - k,
{
    if k < e {
        lemma_num_end_run(s, k + 1, e);
    }
}

proof fn lemma_piece_read(s: Seq<char>, p: int, n: NumberView)
    requires
        number_ok(n),
        0 <= p,
        p + piece(n).len() <= s.len(),
        s.subrange(p, p + piece(n).len()) == piece(n),
        p + piece(n).len() == s.len() || s[p + piece(n).len()] == ' ',
    ensures
        skip_ws(s, p) == p + 1,
        number_at(s, p) == (Some(n), p + piece(n).len()),
        number_at(s, p + 1) == (Some(n), p + piece(n).len()),
{
    let pc = piece(n);
    let e = p + pc.len();
    let sl: int = if n.0 {
        1
    } else {
        0
    };
    assert(pc.len() == 1 + sl + n.1.len());
    assert forall|m: int| 0 <= m < pc.len() implies s[p + m] == #[trigger] pc[m] by {
        assert(s.subrange(p, e)[m] == s[p + m]);
    }
    assert(pc[0] == ' ');
    assert(s[p + 0] == pc[0]);
    assert(n.1.len() > 0);
    let k = p + 1 + sl;
    assert forall|m: int| k <= m < e implies is_num_char(#[trigger] s[m]) by {
        assert(s[p + (m - p)] == pc[m - p]);
        assert(pc[m - p] == n.1[m - k]);
    }
    assert(s[p + 1] == pc[1]);
    if n.0 {
        assert(pc[1] == '-');
    } else {
        assert(pc[1] == n.1[0]);
        assert(is_num_char(n.1[0]));
    }
    assert(!is_ws(s[p + 1]));
    assert(skip_ws(s, p + 1) == p + 1);
    assert(skip_ws(s, p) == skip_ws(s, p + 1));
    lemma_num_end_run(s, k, e);
    assert(s.subrange(k, e) =~= n.1) by {
        assert forall|m: int| 0 <= m < n.1.len() implies s.subrange(k, e)[m] == n.1[m] by {
            assert(s[p + (1 + sl + m)] == pc[1 + sl + m]);
        }
    }
}

proof fn lemma_pair_read(s: Seq<char>, p: int, a: NumberView, b: NumberView)
    requires
        number_ok(a),
        number_ok(b),
        0 <= p,
        p + piece(a).len() + piece(b).len() <= s.len(),
        s.subrange(p, p + piece(a).len() + piece(b).len()) == piece(a) + piece(b),
        p + piece(a).len() + piece(b).len() == s.len() || s[p + piece(a).len() + piece(b).len()]
            == ' ',
    ensures
        pair_at(s, p) == (Some((a, b)), p + piece(a).len() + piece(b).len()),
{
    let la = piece(a).len() as int;
    let lb = piece(b).len() as int;
    let both = piece(a) + piece(b);
    assert(s.subrange(p, p + la) =~= piece(a)) by {
        assert forall|m: int| 0 <= m < la implies s.subrange(p, p + la)[m] == piece(a)[m] by {
            assert(s.subrange(p, p + la + lb)[m] == both[m]);
        }
    }
    assert(s.subrange(p + la, p + la + lb) =~= piece(b)) by {
        assert forall|m: int| 0 <= m < lb implies s.subrange(p + la, p + la + lb)[m] == piece(b)[m] by {
            assert(s.subrange(p, p + la + lb)[la + m] == both[la + m]);
        }
    }
    assert(s[p + la] == ' ') by {
        assert(s.subrange(p, p + la + lb)[la] == both[la]);
    }
    lemma_piece_read(s, p, a);
    lemma_piece_read(s, p + la, b);
}

proof fn lemma_pieces_two(nums: Seq<NumberView>)
    requires
        nums.len() == 2,
    ensures
        pieces(nums) == piece(nums[0]) + piece(nums[1]),
{
    let d1 = nums.drop_last();
    assert(d1.drop_last().len() == 0);
    assert(d1.last() == nums[0]);
    assert(pieces(d1.drop_last()) =~= Seq::<char>::empty());
    assert(pieces(d1) =~= piece(nums[0]));
}

proof fn lemma_pieces_six(nums: Seq<NumberView>)
    requires
        nums.len() == 6,
    ensures
        pieces(nums) == (piece(nums[0]) + piece(nums[1])) + (piece(nums[2]) + piece(nums[3])) + (
        piece(nums[4]) + piece(nums[5])),
{
    let d1 = nums.drop_last();
    let d2 = d1.drop_last();
    let d3 = d2.drop_last();
    let d4 = d3.drop_last();
    lemma_pieces_two(d4);
    assert(d4[0] == nums[0] && d4[1] == nums[1]);
    assert(d3.last() == nums[2] && d2.last() == nums[3] && d1.last() == nums[4] && nums.last()
        == nums[5]);
    assert(pieces(d3) == pieces(d4) + piece(nums[2]));
    assert(pieces(d2) == pieces(d3) + piece(nums[3]));
    assert(pieces(d1) == pieces(d2) + piece(nums[4]));
    assert(pieces(nums) == pieces(d1) + piece(nums[5]));
    assert(pieces(nums) =~= (piece(nums[0]) + piece(nums[1])) + (piece(nums[2]) + piece(nums[3])) + (
    piece(nums[4]) + piece(nums[5])));
}

proof fn lemma_two_number_command(c: char, nums: Seq<NumberView>)
    requires
        c == 'M' || c == 'm' || c == 'L' || c == 'l',
        nums.len() == 2,
        number_ok(nums[0]),
        number_ok(nums[1]),
    ensures
        svg_commands(seq![c] + pieces(nums)) == seq![(c, nums)],
{
    let s = seq![c] + pieces(nums);
    lemma_pieces_two(nums);
    assert(s[0] == c);
    assert(s.subrange(1, s.len() as int) =~= piece(nums[0]) + piece(nums[1]));
    lemma_pair_read(s, 1, nums[0], nums[1]);
    let (cmds, j) = step(s, 0, Seq::empty());
    assert(j == s.len());
    assert(cmds =~= seq![(c, nums)]) by {
        assert(seq![nums[0], nums[1]] =~= nums);
    }
    assert(svg_commands(s) == run(s, j, cmds));
}

proof fn lemma_six_pairs(s: Seq<char>, c: char, nums: Seq<NumberView>)
    requires
        nums.len() == 6,
        forall|k: int| 0 <= k < 6 ==> number_ok(#[trigger] nums[k]),
        s == seq![c] + ((piece(nums[0]) + piece(nums[1])) + (piece(nums[2]) + piece(nums[3])) + (
        piece(nums[4]) + piece(nums[5]))),
    ensures
        ({
            let l1 = (piece(nums[0]) + piece(nums[1])).len() as int;
            let l2 = (piece(nums[2]) + piece(nums[3])).len() as int;
            &&& s[0] == c
            &&& pair_at(s, 1) == (Some((nums[0], nums[1])), 1 + l1)
            &&& pair_at(s, 1 + l1) == (Some((nums[2], nums[3])), 1 + l1 + l2)
            &&& pair_at(s, 1 + l1 + l2) == (Some((nums[4], nums[5])), s.len() as int)
        }),
{
    let p01 = piece(nums[0]) + piece(nums[1]);
    let p23 = piece(nums[2]) + piece(nums[3]);
    let p45 = piece(nums[4]) + piece(nums[5]);
    let l1 = p01.len() as int;
    let l2 = p23.len() as int;
    let l3 = p45.len() as int;
    assert(s.len() == 1 + l1 + l2 + l3);
    assert(number_ok(nums[0]) && number_ok(nums[1]) && number_ok(nums[2]));
    assert(number_ok(nums[3]) && number_ok(nums[4]) && number_ok(nums[5]));
    assert(s[0] == c);
    assert(p23[0] == ' ' && p45[0] == ' ');
    assert(pair_at(s, 1) == (Some((nums[0], nums[1])), 1 + l1)) by {
        assert(s.subrange(1, 1 + l1) =~= p01);
        assert(s[1 + l1] == p23[0]);
        lemma_pair_read(s, 1, nums[0], nums[1]);
    }
    assert(pair_at(s, 1 + l1) == (Some((nums[2], nums[3])), 1 + l1 + l2)) by {
        assert(s.subrange(1 + l1, 1 + l1 + l2) =~= p23);
        assert(s[1 + l1 + l2] == p45[0]);
        lemma_pair_read(s, 1 + l1, nums[2], nums[3]);
    }
    assert(pair_at(s, 1 + l1 + l2) == (Some((nums[4], nums[5])), s.len() as int)) by {
        assert(s.subrange(1 + l1 + l2, 1 + l1 + l2 + l3) =~= p45);
        lemma_pair_read(s, 1 + l1 + l2, nums[4], nums[5]);
    }
}

proof fn lemma_step_cubic(s: Seq<char>, c: char, nums: Seq<NumberView>, j1: int, j2: int)
    requires
        c == 'C' || c == 'c',
        nums.len() == 6,
        s.len() > 0,
        s[0] == c,
        pair_at(s, 1) == (Some((nums[0], nums[1])), j1),
        pair_at(s, j1) == (Some((nums[2], nums[3])), j2),
        pair_at(s, j2) == (Some((nums[4], nums[5])), s.len() as int),
    ensures
        step(s, 0, Seq::empty()) == (seq![(c, nums)], s.len() as int),
{
    assert(seq![nums[0], nums[1], nums[2], nums[3], nums[4], nums[5]] =~= nums);
    assert(step(s, 0, Seq::empty()).0 =~= seq![(c, nums)]);
}

proof fn lemma_six_number_command(c: char, nums: Seq<NumberView>)
    requires
        c == 'C' || c == 'c',
        nums.len() == 6,
        forall|k: int| 0 <= k < 6 ==> number_ok(#[trigger] nums[k]),
    ensures
        svg_commands(seq![c] + pieces(nums)) == seq![(c, nums)],
{
    let s = seq![c] + pieces(nums);
    lemma_pieces_six(nums);
    lemma_six_pairs(s, c, nums);
    let l1 = (piece(nums[0]) + piece(nums[1])).len() as int;
    let l2 = (piece(nums[2]) + piece(nums[3])).len() as int;
    lemma_step_cubic(s, c, nums, 1 + l1, 1 + l1 + l2);
    assert(svg_commands(s) == run(s, s.len() as int, seq![(c, nums)]));
}

/// A text made of one command letter followed by the numbers that command
/// takes, each written after a space, reads as exactly that one command,
/// with that letter and those numbers, in that order: `M`, `m`, `L` and `l`
/// with two numbers and `C` and `c` with six. So `c 1 2 3 4 5 6` reads as
/// a relative cubic, never as an absolute one, and its numbers keep their
/// signs, digits and fractions.
pub proof fn lemma_svg_single_command(c: char, nums: Seq<NumberView>)
    requires
        ((c == 'M' || c == 'm' || c == 'L' || c == 'l') && nums.len() == 2) || ((c == 'C' || c
            == 'c') && nums.len() == 6),
        forall|k: int| 0 <= k < nums.len() ==> number_ok(#[trigger] nums[k]),
    ensures
        svg_commands(seq![c] + pieces(nums)) == seq![(c, nums)],
{
    if nums.len() == 2 {
        assert(number_ok(nums[0]) && number_ok(nums[1]));
        lemma_two_number_command(c, nums);
    } else {
        lemma_six_number_command(c, nums);
    }
}

fn is_ws_char(c: char) -> (r: bool)
    ensures
        r == is_ws(c),
{
    c == ' ' || c == ',' || c == '\n' || c == '\r' || c == '\t'
}

fn is_num_char_exec(c: char) -> (r: bool)
    ensures
        r == is_num_char(c),
{
    (c >= '0' && c <= '9') || c == '.'
}

/// The first position at or after `i` that holds no separator.
pub fn skip_whitespace(v: &Vec<char>, i: usize) -> (r: usize)
    requires
        i <= v@.len(),
    ensures
        r == skip_ws(v@, i as int),
        i <= r <= v@.len(),
{
    let mut j = i;
    proof {
        lemma_skip_ws(v@, i as int);
    }
    while j < v.len() && is_ws_char(v[j])
        invariant
            i <= j <= v@.len(),
            skip_ws(v@, i as int) == skip_ws(v@, j as int),
        decreases v@.len() - j,
    {
        j = j + 1;
    }
    j
}

/// Skips the separators between the two numbers of a pair.
pub fn skip_separator(v: &Vec<char>, i: usize) -> (r: usize)
    requires
        i <= v@.len(),
    ensures
        r == skip_ws(v@, i as int),
        i <= r <= v@.len(),
{
    skip_whitespace(v, i)
}

fn number_end(v: &Vec<char>, i: usize) -> (r: usize)
    requires
        i <= v@.len(),
    ensures
        r == num_end(v@, i as int),
        i <= r <= v@.len(),
{
    let mut j = i;
    while j < v.len() && is_num_char_exec(v[j])
        invariant
            i <= j <= v@.len(),
            num_end(v@, i as int) == num_end(v@, j as int),
        decreases v@.len() - j,
    {
        j = j + 1;
    }
    j
}

/// Reads a number at `i` (see `number_at`): the number, if the run read is
/// one, and the position after the run.
pub fn parse_number(v: &Vec<char>, i: usize) -> (r: (Option<SvgNumber>, usize))
    requires
        i <= v@.len(),
    ensures
        r.1 as int == number_at(v@, i as int).1,
        match r.0 {
            Some(n) => number_at(v@, i as int).0 == Some(n@),
            None => number_at(v@, i as int).0 is None,
        },
{
    let j = skip_whitespace(v, i);
    let signed = j < v.len() && (v[j] == '-' || v[j] == '+');
    let neg = signed && v[j] == '-';
    let k = if signed {
        j + 1
    } else {
        j
    };
    let e = number_end(v, k);
    let mut digits: Vec<char> = Vec::new();
    let mut ndots: usize = 0;
    let mut idx = k;
    while idx < e
        invariant
            k <= idx <= e <= v@.len(),
            digits@ == v@.subrange(k as int, idx as int),
            ndots == dots(digits@),
            ndots <= idx - k,
        decreases e - idx,
    {
        let c = v[idx];
        let ghost pre = digits@;
        digits.push(c);
        proof {
            assert(digits@ =~= v@.subrange(k as int, idx + 1));
            assert(digits@.drop_last() =~= pre);
        }
        if c == '.' {
            ndots = ndots + 1;
        }
        idx = idx + 1;
    }
    if ndots <= 1 && digits.len() > ndots {
        (Some(SvgNumber { negative: neg, digits }), e)
    } else {
        (None, e)
    }
}

/// Reads a coordinate pair at `i` (see `pair_at`).
pub fn parse_coord_pair(v: &Vec<char>, i: usize) -> (r: (Option<(SvgNumber, SvgNumber)>, usize))
    requires
        i <= v@.len(),
    ensures
        r.1 as int == pair_at(v@, i as int).1,
        match r.0 {
            Some((x, y)) => pair_at(v@, i as int).0 == Some((x@, y@)),
            None => pair_at(v@, i as int).0 is None,
        },
        i <= r.1 <= v@.len(),
{
    proof {
        lemma_pair_at(v@, i as int);
    }
    let j = skip_whitespace(v, i);
    let (x, i1) = parse_number(v, j);
    proof {
        lemma_number_at(v@, j as int);
    }
    match x {
        None => (None, i1),
        Some(x) => {
            let i2 = skip_separator(v, i1);
            let (y, i3) = parse_number(v, i2);
            match y {
                None => (None, i3),
                Some(y) => (Some((x, y)), i3),
            }
        },
    }
}

fn step_at(v: &Vec<char>, i: usize, cmds: &mut Vec<SvgCommand>) -> (r: usize)
    requires
        i < v@.len(),
    ensures
        ({
            let (st, j) = step(v@, i as int, commands_view(old(cmds)@));
            &&& commands_view(final(cmds)@) == st
            &&& r as int == j
        }),
{
    let ghost before = commands_view(cmds@);
    let c = v[i];
    let n = v.len();
    assert(i < n);
    let next = i + 1;
    if c == 'M' || c == 'm' || c == 'L' || c == 'l' {
        let (p, j) = parse_coord_pair(v, next);
        match p {
            Some((x, y)) => {
                let numbers = vec![x, y];
                let cmd = SvgCommand { letter: c, numbers };
                proof {
                    assert(numbers_view(cmd.numbers@) =~= seq![x@, y@]);
                }
                cmds.push(cmd);
                proof {
                    assert(commands_view(cmds@) =~= before.push(cmd@));
                }
                j
            },
            None => j,
        }
    } else if c == 'C' || c == 'c' {
        let (p1, j1) = parse_coord_pair(v, next);
        let (p2, j2) = parse_coord_pair(v, j1);
        let (p3, j3) = parse_coord_pair(v, j2);
        match (p1, p2, p3) {
            (Some(a), Some(b), Some(e)) => {
                let numbers = vec![a.0, a.1, b.0, b.1, e.0, e.1];
                let cmd = SvgCommand { letter: c, numbers };
                proof {
                    assert(numbers_view(cmd.numbers@) =~= seq![a.0@, a.1@, b.0@, b.1@, e.0@, e.1@]);
                }
                cmds.push(cmd);
                proof {
                    assert(commands_view(cmds@) =~= before.push(cmd@));
                }
                j3
            },
            _ => j3,
        }
    } else if c == 'Z' || c == 'z' {
        let cmd = SvgCommand { letter: c, numbers: Vec::new() };
        proof {
            assert(numbers_view(cmd.numbers@) =~= Seq::<NumberView>::empty());
        }
        cmds.push(cmd);
        proof {
            assert(commands_view(cmds@) =~= before.push(cmd@));
        }
        next
    } else {
        next
    }
}

/// Reads the commands of SVG path data (see `svg_commands`), each with its
/// numbers exactly as written, ready to be placed as a Bezier path.
pub fn svg_path_data_to_bezier(svg_d: &str) -> (r: Vec<SvgCommand>)
    ensures
        commands_view(r@) == svg_commands(svg_d@),
{
    let v = chars_of(svg_d);
    let mut cmds: Vec<SvgCommand> = Vec::new();
    let mut i: usize = 0;
    proof {
        assert(commands_view(cmds@) =~= Seq::<CommandView>::empty());
    }
    while i < v.len()
        invariant
            v@ == svg_d@,
            0 <= i <= v@.len(),
            svg_commands(v@) == run(v@, i as int, commands_view(cmds@)),
        decreases v@.len() - i,
    {
        let ghost st = commands_view(cmds@);
        let j = step_at(&v, i, &mut cmds);
        proof {
            lemma_step_advances(v@, i as int, st);
            assert(run(v@, i as int, st) == run(v@, j as int, commands_view(cmds@)));
        }
        i = j;
    }
    cmds
}

/// Whether `c` is white space in Unicode's sense (the `White_Space`
/// property), the characters `str::trim` removes.
pub open spec fn is_unicode_ws(c: char) -> bool {
    let u = c as int;
    (9 <= u <= 13) || u == 32 || u == 0x85 || u == 0xA0 || u == 0x1680 || (0x2000 <= u <= 0x200A)
        || u == 0x2028 || u == 0x2029 || u == 0x202F || u == 0x205F || u == 0x3000
}

/// `s` without its leading white space.
pub open spec fn trim_start(s: Seq<char>) -> Seq<char>
    decreases s.len(),
{
    if s.len() > 0 && is_unicode_ws(s[0]) {
        trim_start(s.drop_first())
    } else {
        s
    }
}

/// `s` without its trailing white space.
pub open spec fn trim_end(s: Seq<char>) -> Seq<char>
    decreases s.len(),
{
    if s.len() > 0 && is_unicode_ws(s.last()) {
        trim_end(s.drop_last())
    } else {
        s
    }
}

/// `s` without leading and trailing white space.
pub open spec fn trim(s: Seq<char>) -> Seq<char> {
    trim_end(trim_start(s))
}

/// The value of a hexadecimal digit byte.
pub open spec fn hex_digit(b: u8) -> Option<int> {
    if 48 <= b <= 57 {
        Some(b - 48)
    } else if 97 <= b <= 102 {
        Some(b - 87)
    } else if 65 <= b <= 70 {
        Some(b - 55)
    } else {
        None
    }
}

/// The value of a run of hexadecimal digit bytes, if they all are digits.
pub open spec fn hex_run(d: Seq<u8>) -> Option<int>
    decreases d.len(),
{
    if d.len() == 0 {
        Some(0)
    } else {
        match (hex_run(d.drop_last()), hex_digit(d.last())) {
            (Some(v), Some(x)) => Some(v * 16 + x),
            _ => None,
        }
    }
}

/// What `u32::from_str_radix(text, 16).unwrap_or(0)` gives for the bytes of
/// a six-byte text: an optional `+` and then hexadecimal digits, else 0.
pub open spec fn hex_or_zero(b: Seq<u8>) -> u32 {
    let digits = if b.len() > 0 && b[0] == 43 {
        b.skip(1)
    } else {
        b
    };
    match hex_run(digits) {
        Some(v) => if digits.len() > 0 && 0 <= v <= u32::MAX {
            v as u32
        } else {
            0
        },
        None => 0,
    }
}

/// The opaque colour of `0xRRGGBB`.
pub open spec fn color_of_hex(h: u32) -> Color {
    Color {
        r: ((h / 0x10000) % 0x100) as u8,
        g: ((h / 0x100) % 0x100) as u8,
        b: (h % 0x100) as u8,
        a: 255,
    }
}

/// Whether the trimmed text is a `#` colour: it starts with `#` and is at
/// least seven bytes long in UTF-8.
pub open spec fn is_hex_color_text(t: Seq<char>) -> bool {
    t.len() > 0 && t[0] == '#' && encode_utf8(t).len() >= 7
}

/// The colour a `#RRGGBB` text denotes: the six bytes after the `#` read as
/// a hexadecimal number (0 when they are not one); `None` for texts that
/// are not `#` colours.
pub open spec fn hex_color(s: Seq<char>) -> Option<Color> {
    let t = trim(s);
    if is_hex_color_text(t) {
        Some(color_of_hex(hex_or_zero(encode_utf8(t).subrange(1, 7))))
    } else {
        None
    }
}

proof fn lemma_trim_start(s: Seq<char>, a: int)
    requires
        0 <= a <= s.len(),
        forall|j: int| 0 <= j < a ==> is_unicode_ws(#[trigger] s[j]),
        a < s.len() ==> !is_unicode_ws(s[a]),
    ensures
        trim_start(s) == s.skip(a),
    decreases a,
{
    if a > 0 {
        let r = s.drop_first();
        assert forall|j: int| 0 <= j < a - 1 implies is_unicode_ws(#[trigger] r[j]) by {
            assert(r[j] == s[j + 1]);
        }
        if a - 1 < r.len() {
            assert(r[a - 1] == s[a]);
        }
        lemma_trim_start(r, a - 1);
        assert(r.skip(a - 1) =~= s.skip(a));
    } else {
        assert(s.skip(0) =~= s);
    }
}

proof fn lemma_trim_end(s: Seq<char>, b: int)
    requires
        0 <= b <= s.len(),
        forall|j: int| b <= j < s.len() ==> is_unicode_ws(#[trigger] s[j]),
        b > 0 ==> !is_unicode_ws(s[b - 1]),
    ensures
        trim_end(s) == s.take(b),
    decreases s.len() - b,
{
    if b < s.len() {
        let r = s.drop_last();
        assert forall|j: int| b <= j < r.len() implies is_unicode_ws(#[trigger] r[j]) by {
            assert(r[j] == s[j]);
        }
        assert(is_unicode_ws(s[s.len() - 1]));
        if b > 0 {
            assert(r[b - 1] == s[b - 1]);
        }
        lemma_trim_end(r, b);
        assert(r.take(b) =~= s.take(b));
    } else {
        assert(s.take(b) =~= s);
    }
}

fn is_unicode_ws_char(c: char) -> (r: bool)
    ensures
        r == is_unicode_ws(c),
{
    let u = c as u32;
    (9 <= u && u <= 13) || u == 32 || u == 0x85 || u == 0xA0 || u == 0x1680 || (0x2000 <= u
        && u <= 0x200A) || u == 0x2028 || u == 0x2029 || u == 0x202F || u == 0x205F || u == 0x3000
}

/// `s` without leading and trailing white space (see `trim`).
pub fn trim_text(s: &str) -> (r: String)
    ensures
        r@ == trim(s@),
{
    let v = chars_of(s);
    let mut a: usize = 0;
    while a < v.len() && is_unicode_ws_char(v[a])
        invariant
            0 <= a <= v@.len(),
            forall|j: int| 0 <= j < a ==> is_unicode_ws(#[trigger] v@[j]),
        decreases v@.len() - a,
    {
        a = a + 1;
    }
    let mut b: usize = v.len();
    while b > a && is_unicode_ws_char(v[b - 1])
        invariant
            a <= b <= v@.len(),
            forall|j: int| b <= j < v@.len() ==> is_unicode_ws(#[trigger] v@[j]),
        decreases b,
    {
        b = b - 1;
    }
    let mut out: Vec<char> = Vec::new();
    let mut k: usize = a;
    while k < b
        invariant
            a <= k <= b <= v@.len(),
            out@ == v@.subrange(a as int, k as int),
        decreases b - k,
    {
        out.push(v[k]);
        proof {
            assert(out@ =~= v@.subrange(a as int, k + 1));
        }
        k = k + 1;
    }
    proof {
        lemma_trim_start(v@, a as int);
        let st = v@.skip(a as int);
        assert forall|j: int| b - a <= j < st.len() implies is_unicode_ws(#[trigger] st[j]) by {
            assert(st[j] == v@[j + a]);
        }
        if b > a {
            assert(st[b - a - 1] == v@[b - 1]);
        }
        lemma_trim_end(st, b - a);
        assert(st.take(b - a) =~= v@.subrange(a as int, b as int));
    }
    string_from_chars(out.as_slice())
}

fn hex_digit_exec(b: u8) -> (r: Option<u32>)
    ensures
        match r {
            Some(x) => hex_digit(b) == Some(x as int),
            None => hex_digit(b) is None,
        },
{
    if 48 <= b && b <= 57 {
        Some((b - 48) as u32)
    } else if 97 <= b && b <= 102 {
        Some((b - 87) as u32)
    } else if 65 <= b && b <= 70 {
        Some((b - 55) as u32)
    } else {
        None
    }
}

fn parse_hex6(b: &[u8]) -> (r: u32)
    requires
        b@.len() == 6,
    ensures
        r == hex_or_zero(b@),
{
    let start: usize = if b[0] == 43u8 {
        1
    } else {
        0
    };
    let ghost digits = if b@.len() > 0 && b@[0] == 43 {
        b@.skip(1)
    } else {
        b@
    };
    proof {
        assert(digits =~= b@.subrange(start as int, 6));
    }
    let mut v: u32 = 0;
    let mut i: usize = start;
    while i < 6
        invariant
            start <= i <= 6,
            b@.len() == 6,
            digits == b@.subrange(start as int, 6),
            digits == (if b@.len() > 0 && b@[0] == 43 { b@.skip(1) } else { b@ }),
            hex_run(b@.subrange(start as int, i as int)) == Some(v as int),
            v < pow16((i - start) as nat),
        decreases 6 - i,
    {
        let ghost pre = b@.subrange(start as int, i as int);
        proof {
            assert(b@.subrange(start as int, i + 1).drop_last() =~= pre);
            assert(b@.subrange(start as int, i + 1).last() == b@[i as int]);
        }
        proof {
            assert(digits[i - start] == b@[i as int]);
            reveal_with_fuel(pow16, 7);
            assert(pow16(5) == 1048576);
            assert(pow16((i - start) as nat) <= 1048576) by {
                let k = (i - start) as nat;
                if k == 0 {} else if k == 1 {} else if k == 2 {} else if k == 3 {} else if k == 4 {} else {}
            }
        }
        match hex_digit_exec(b[i]) {
            Some(x) => {
                proof {
                    assert(pow16((i + 1 - start) as nat) == 16 * pow16((i - start) as nat));
                    assert(v * 16 + x < 16 * pow16((i - start) as nat)) by (nonlinear_arith)
                        requires
                            v < pow16((i - start) as nat),
                            x < 16,
                    ;
                }
                v = v * 16 + x;
            },
            None => {
                proof {
                    assert(hex_digit(digits[i - start]) is None);
                    lemma_hex_run_none(digits, (i - start) as int);
                    assert(hex_run(digits) is None);
                }
                return 0;
            },
        }
        i = i + 1;
    }
    proof {
        assert(b@.subrange(start as int, 6) == digits);
    }
    v
}

/// `16` to the power `n`.
pub open spec fn pow16(n: nat) -> nat
    decreases n,
{
    if n == 0 {
        1
    } else {
        16 * pow16((n - 1) as nat)
    }
}

proof fn lemma_hex_run_none(d: Seq<u8>, k: int)
    requires
        0 <= k < d.len(),
        hex_digit(d[k]) is None,
    ensures
        hex_run(d) is None,
    decreases d.len(),
{
    if k == d.len() - 1 {
    } else {
        lemma_hex_run_none(d.drop_last(), k);
    }
}

/// The colour of a `#RRGGBB` text (after trimming white space), or `None`
/// when the text is not a `#` colour (see `hex_color`).
pub fn parse_hex_color(color_str: &str) -> (r: Option<Color>)
    requires
        is_hex_color_text(trim(color_str@)) ==> is_char_boundary(encode_utf8(trim(color_str@)), 7),
    ensures
        r == hex_color(color_str@),
{
    let t = trim_text(color_str);
    let ts = t.as_str();
    let v = chars_of(ts);
    let nbytes = ts.as_bytes().len();
    if v.len() > 0 && v[0] == '#' && nbytes >= 7 {
        let (head, _rest) = ts.split_at(7);
        let hb = head.as_bytes();
        proof {
            assert(hb@ =~= encode_utf8(t@).subrange(0, 7));
        }
        let h = parse_hex6(&hb[1..7]);
        proof {
            assert(hb@.subrange(1, 7) =~= encode_utf8(t@).subrange(1, 7));
        }
        Some(Color::from_hex(h))
    } else {
        None
    }
}

/// Whether `c` is a hexadecimal digit: `0`-`9`, `a`-`f` or `A`-`F`.
pub open spec fn is_hex_char(c: char) -> bool {
    ('0' <= c <= '9') || ('a' <= c <= 'f') || ('A' <= c <= 'F')
}

/// The usual value of a hexadecimal digit: `0`-`9` are 0 to 9, and `a`-`f`
/// and `A`-`F` are 10 to 15.
pub open spec fn hex_char_value(c: char) -> int {
    if '0' <= c <= '9' {
        c as int - '0' as int
    } else if 'a' <= c <= 'f' {
        c as int - 'a' as int + 10
    } else {
        c as int - 'A' as int + 10
    }
}

proof fn lemma_hex_char_byte(c: char)
    requires
        is_hex_char(c),
    ensures
        (c as int) < 128,
        (c as u8) as int == c as int,
        hex_digit(c as u8) == Some(hex_char_value(c)),
        0 <= hex_char_value(c) < 16,
        c as u8 != 43,
{
}

proof fn lemma_hex_bytes(d: Seq<char>, b: Seq<u8>)
    requires
        d.len() == b.len(),
        forall|i: int| 0 <= i < d.len() ==> is_hex_char(#[trigger] d[i]),
        forall|i: int| 0 <= i < d.len() ==> #[trigger] b[i] == d[i] as u8,
    ensures
        hex_run(b) == Some(hex_chars_value(d)),
    decreases d.len(),
{
    if d.len() > 0 {
        let n = d.len() - 1;
        lemma_hex_bytes(d.drop_last(), b.drop_last());
        lemma_hex_char_byte(d[n]);
        assert(b.last() == d[n] as u8);
    }
}

/// The value of a run of hexadecimal digit characters, most significant
/// first.
pub open spec fn hex_chars_value(d: Seq<char>) -> int
    decreases d.len(),
{
    if d.len() == 0 {
        0
    } else {
        hex_chars_value(d.drop_last()) * 16 + hex_char_value(d.last())
    }
}

/// A `#` followed by six hexadecimal digits, upper or lower case, is the
/// opaque colour whose red, green and blue channels are the three digit
/// pairs read as hexadecimal numbers: `#0099ff` is red 0, green 153, blue
/// 255.
pub proof fn lemma_hex_colour_digits(d: Seq<char>)
    requires
        d.len() == 6,
        forall|i: int| 0 <= i < 6 ==> is_hex_char(#[trigger] d[i]),
    ensures
        hex_color(seq!['#'] + d) == Some(
            Color {
                r: (16 * hex_char_value(d[0]) + hex_char_value(d[1])) as u8,
                g: (16 * hex_char_value(d[2]) + hex_char_value(d[3])) as u8,
                b: (16 * hex_char_value(d[4]) + hex_char_value(d[5])) as u8,
                a: 255,
            },
        ),
{
    let t = seq!['#'] + d;
    assert(t.len() == 7);
    assert forall|i: int| 0 <= i < 6 implies #[trigger] t[i + 1] == d[i] by {}
    assert forall|i: int| 0 <= i < 6 implies (d[i] as int) < 128 by {
        lemma_hex_char_byte(d[i]);
    }
    assert(is_ascii_chars(t)) by {
        assert forall|i: int| 0 <= i < t.len() implies '\0' <= #[trigger] t[i] <= '\u{7f}' by {
            if i > 0 {
                assert(t[i] == d[i - 1]);
                lemma_hex_char_byte(d[i - 1]);
            }
        }
    }
    lemma_hex_char_byte(d[5]);
    lemma_trim_start(t, 0);
    assert(t.skip(0) =~= t);
    assert(t[6] == d[5]);
    lemma_trim_end(t, 7);
    assert(t.take(7) =~= t);
    assert(trim(t) == t);
    is_ascii_chars_encode_utf8(t);
    let e = encode_utf8(t);
    assert(is_hex_color_text(t));
    let b = e.subrange(1, 7);
    assert forall|i: int| 0 <= i < 6 implies #[trigger] b[i] == d[i] as u8 by {
        assert(b[i] == e[i + 1]);
        assert(e[i + 1] == t[i + 1] as u8);
    }
    lemma_hex_char_byte(d[0]);
    assert(b[0] != 43);
    lemma_hex_bytes(d, b);
    let v0 = hex_char_value(d[0]);
    let v1 = hex_char_value(d[1]);
    let v2 = hex_char_value(d[2]);
    let v3 = hex_char_value(d[3]);
    let v4 = hex_char_value(d[4]);
    let v5 = hex_char_value(d[5]);
    lemma_hex_char_byte(d[1]);
    lemma_hex_char_byte(d[2]);
    lemma_hex_char_byte(d[3]);
    lemma_hex_char_byte(d[4]);
    reveal_with_fuel(hex_chars_value, 7);
    assert(d.drop_last().drop_last().drop_last().drop_last().drop_last().drop_last().len() == 0);
    let v = hex_chars_value(d);
    let r = 16 * v0 + v1;
    let g = 16 * v2 + v3;
    let bl = 16 * v4 + v5;
    assert(v == r * 65536 + g * 256 + bl) by {
        assert(d.drop_last().last() == d[4]);
        assert(d.drop_last().drop_last().last() == d[3]);
        assert(d.drop_last().drop_last().drop_last().last() == d[2]);
        assert(d.drop_last().drop_last().drop_last().drop_last().last() == d[1]);
        assert(d.drop_last().drop_last().drop_last().drop_last().drop_last().last() == d[0]);
    }
    assert(0 <= r < 256 && 0 <= g < 256 && 0 <= bl < 256);
    assert(v / 65536 == r && v / 256 == r * 256 + g && v % 256 == bl) by (nonlinear_arith)
        requires
            v == r * 65536 + g * 256 + bl,
            0 <= r < 256,
            0 <= g < 256,
            0 <= bl < 256,
    ;
    assert((r * 256 + g) % 256 == g) by (nonlinear_arith)
        requires
            0 <= r < 256,
            0 <= g < 256,
    ;
    assert(hex_or_zero(b) == v as u32);
}

} // verus!
