//! Writing one node's label into the tree: long lines wrap at a fixed width,
//! never inside a location bracket, continuation lines re-indented.
use crate::label::push_char;
use crate::scan::{find_byte, first_of};
use crate::syntax::{text_of, utf8_text};
use crate::text::chars_of;
use colorful::{Color, Colorful};
use vstd::prelude::*;
use vstd::string::*;
use vstd::utf8::encode_utf8;

verus! {

/// The colours that the tree uses.
#[derive(PartialEq, Eq, Structural, Clone, Copy, Debug)]
pub enum Shade {
    LightMagenta,
    LightYellow,
    LightGreen,
    LightCyan,
}

/// The 256-colour palette code of each shade.
pub open spec fn shade_code(shade: Shade) -> Seq<char> {
    match shade {
        Shade::LightGreen => seq!['1', '0'],
        Shade::LightYellow => seq!['1', '1'],
        Shade::LightMagenta => seq!['1', '3'],
        Shade::LightCyan => seq!['1', '4'],
    }
}

/// `s` painted in a foreground shade: `ESC[38;5;<code>m`, the text, then the
/// reset `ESC[0m`.
pub open spec fn painted(s: Seq<char>, shade: Shade) -> Seq<char> {
    seq!['\u{1b}', '[', '3', '8', ';', '5', ';'] + shade_code(shade) + seq!['m'] + s + seq![
        '\u{1b}',
        '[',
        '0',
        'm',
    ]
}

/// Relies on colorful's `Colorful::color` and the `Display` of the coloured
/// string it builds: a foreground colour in 256-colour mode is written as
/// `ESC[38;5;`, the colour's code, `m`, the text and `ESC[0m`; the light
/// green, yellow, magenta and cyan of colorful's palette have codes 10, 11, 13
/// and 14.
#[verifier::external_body]
pub(crate) fn paint_text(s: &str, shade: Shade) -> (r: String)
    ensures
        r@ == painted(s@, shade),
{
    let c = match shade {
        Shade::LightMagenta => Color::LightMagenta,
        Shade::LightYellow => Color::LightYellow,
        Shade::LightGreen => Color::LightGreen,
        Shade::LightCyan => Color::LightCyan,
    };
    format!("{}", s.color(c))
}

/// The characters with the Unicode White_Space property, which
/// `char::is_whitespace` accepts.
pub open spec fn is_white(c: char) -> bool {
    let u = c as u32;
    (0x9 <= u <= 0xd) || u == 0x20 || u == 0x85 || u == 0xa0 || u == 0x1680 || (0x2000 <= u
        <= 0x200a) || u == 0x2028 || u == 0x2029 || u == 0x202f || u == 0x205f || u == 0x3000
}

/// Whether `c` is white space.
pub fn white(c: char) -> (r: bool)
    ensures
        r == is_white(c),
{
    let u = c as u32;
    (0x9 <= u && u <= 0xd) || u == 0x20 || u == 0x85 || u == 0xa0 || u == 0x1680 || (0x2000 <= u
        && u <= 0x200a) || u == 0x2028 || u == 0x2029 || u == 0x202f || u == 0x205f || u == 0x3000
}

/// `s` without its leading white space.
pub open spec fn trim_start(s: Seq<char>) -> Seq<char>
    decreases s.len(),
{
    if s.len() > 0 && is_white(s[0]) {
        trim_start(s.skip(1))
    } else {
        s
    }
}

/// `s` without its trailing white space.
pub open spec fn trim_end(s: Seq<char>) -> Seq<char>
    decreases s.len(),
{
    if s.len() > 0 && is_white(s.last()) {
        trim_end(s.drop_last())
    } else {
        s
    }
}

/// `s` without leading and trailing white space, as `str::trim` gives it.
pub open spec fn trimmed(s: Seq<char>) -> Seq<char> {
    trim_end(trim_start(s))
}

/// `s` without leading and trailing white space.
pub fn trim(s: &str) -> (r: String)
    ensures
        r@ == trimmed(s@),
{
    let cs = chars_of(s);
    let mut lo: usize = 0;
    proof {
        assert(cs@.skip(0) =~= cs@);
    }
    while lo < cs.len() && white(cs[lo])
        invariant
            cs@ == s@,
            lo <= cs@.len(),
            trim_start(cs@) == trim_start(cs@.skip(lo as int)),
        decreases cs.len() - lo,
    {
        proof {
            assert(cs@.skip(lo as int).skip(1) =~= cs@.skip(lo + 1));
        }
        lo = lo + 1;
    }
    let ghost t = cs@.skip(lo as int);
    let mut hi: usize = cs.len();
    proof {
        assert(t.take(t.len() as int) =~= t);
    }
    while hi > lo && white(cs[hi - 1])
        invariant
            cs@ == s@,
            lo <= hi <= cs@.len(),
            t == cs@.skip(lo as int),
            trim_end(t) == trim_end(t.take(hi - lo)),
        decreases hi,
    {
        proof {
            assert(t.take(hi - lo).drop_last() =~= t.take(hi - lo - 1));
        }
        hi = hi - 1;
    }
    let mut r = String::new();
    for i in lo..hi
        invariant
            cs@ == s@,
            lo <= hi <= cs@.len(),
            r@ == cs@.subrange(lo as int, i as int),
    {
        push_char(&mut r, cs[i]);
        proof {
            assert(cs@.subrange(lo as int, i + 1) =~= cs@.subrange(lo as int, i as int).push(
                cs@[i as int],
            ));
        }
    }
    proof {
        assert(t.take(hi - lo) =~= cs@.subrange(lo as int, hi as int));
        if lo < cs@.len() {
            assert(!is_white(t[0]));
            assert(trim_start(t) == t);
        } else {
            assert(t.len() == 0);
        }
        if hi > lo {
            assert(!is_white(t.take(hi - lo).last()));
        }
    }
    r
}

/// The width a label may take on a line.
pub open spec fn display_width() -> int {
    100
}

/// `a - b`, or 0 where `b` is larger.
pub open spec fn minus(a: int, b: int) -> int {
    if a >= b {
        a - b
    } else {
        0
    }
}

/// The first position from `p` on that holds `]`, or `p` where none does
/// before the end.
pub open spec fn close_from(b: Seq<u8>, p: int) -> int
    decreases b.len() - p,
{
    if p >= b.len() || p < 0 {
        p
    } else if b[p] == 93 {
        p
    } else {
        close_from(b, p + 1)
    }
}

/// How a piece of a label is written: trimmed and painted where it has a shade
/// (painted only where the terminal takes colours), as it is otherwise.
pub open spec fn piece_text(p: Seq<char>, shade: Option<Shade>, paint: bool) -> Seq<char> {
    match shade {
        Some(c) => if paint {
            painted(trimmed(p), c)
        } else {
            trimmed(p)
        },
        None => p,
    }
}

/// `n` spaces.
pub open spec fn spaces(n: int) -> Seq<char> {
    Seq::new(if n > 0 {
        n as nat
    } else {
        0
    }, |i: int| ' ')
}

/// Where a piece starting at byte `i` of the line `b` ends: at least the room
/// left on the line, then on to just after the next `]`.
pub open spec fn cut_at(b: Seq<u8>, i: int, width: int, ni: int) -> int {
    let room = minus(display_width(), width);
    let room = if i > 0 {
        minus(room, ni)
    } else {
        room
    };
    let c = close_from(b, i + room) + 1;
    if c < b.len() {
        c
    } else {
        b.len() as int
    }
}

/// The pieces of the line `b` from byte `i` on, each on a line of its own; all
/// but the very first piece of the label start with `indent`, and all but
/// the first piece of a line with `ni` more spaces.
pub open spec fn wrapped(
    b: Seq<u8>,
    i: int,
    first: bool,
    indent: Seq<char>,
    width: int,
    ni: int,
    shade: Option<Shade>,
    paint: bool,
) -> Seq<char>
    decreases b.len() - i,
{
    if i >= b.len() || i < 0 {
        Seq::empty()
    } else {
        let cut = cut_at(b, i, width, ni);
        piece_line(b, i, cut, first, indent, ni, shade, paint) + if cut > i {
            wrapped(b, cut, false, indent, width, ni, shade, paint)
        } else {
            Seq::empty()
        }
    }
}

/// Where the line's name ends: its first space, or 0.
pub open spec fn name_end(b: Seq<u8>) -> int {
    match first_of(b, 32) {
        Some(p) => p,
        None => 0,
    }
}

/// The lines of a label from the `k`-th on, wrapped; `first` tells whether no
/// piece has been written yet.
pub open spec fn wrapped_lines(
    lines: Seq<Seq<char>>,
    k: int,
    first: bool,
    indent: Seq<char>,
    width: int,
    shade: Option<Shade>,
    paint: bool,
) -> Seq<char>
    decreases lines.len() - k,
{
    if k >= lines.len() || k < 0 {
        Seq::empty()
    } else {
        let b = encode_utf8(lines[k]);
        wrapped(b, 0, first, indent, width, name_end(b), shade, paint) + wrapped_lines(
            lines,
            k + 1,
            first && b.len() == 0,
            indent,
            width,
            shade,
            paint,
        )
    }
}

proof fn lemma_close_from(b: Seq<u8>, p: int)
    requires
        0 <= p,
    ensures
        close_from(b, p) >= p,
        close_from(b, p) < b.len() ==> b[close_from(b, p)] == 93,
    decreases b.len() - p,
{
    if p < b.len() && b[p] != 93 {
        lemma_close_from(b, p + 1);
    }
}

/// Appends `n` spaces.
fn push_spaces(s: &mut String, n: usize)
    ensures
        final(s)@ == old(s)@ + spaces(n as int),
{
    let ghost start = s@;
    for i in 0..n
        invariant
            s@ == start + spaces(i as int),
    {
        push_char(s, ' ');
        proof {
            assert(spaces(i + 1) =~= spaces(i as int).push(' '));
        }
    }
}

/// One piece `b[i..cut]` of a line on a line of its own.
pub open spec fn piece_line(
    b: Seq<u8>,
    i: int,
    cut: int,
    first: bool,
    indent: Seq<char>,
    ni: int,
    shade: Option<Shade>,
    paint: bool,
) -> Seq<char> {
    (if first {
        Seq::empty()
    } else {
        indent
    }) + (if i > 0 {
        spaces(ni)
    } else {
        Seq::empty()
    }) + piece_text(utf8_text(b.subrange(i, cut)), shade, paint) + seq!['\n']
}

/// Appends one piece `b[i..cut]` of a line on a line of its own.
fn push_piece(
    s: &mut String,
    b: &[u8],
    i: usize,
    cut: usize,
    first: bool,
    indent: &String,
    ni: usize,
    shade: Option<Shade>,
    paint: bool,
)
    requires
        i <= cut <= b@.len(),
    ensures
        final(s)@ == old(s)@ + piece_line(b@, i as int, cut as int, first, indent@, ni as int, shade, paint),
{
    let ghost before = s@;
    if !first {
        s.append(indent.as_str());
    }
    if i > 0 {
        push_spaces(s, ni);
    }
    let piece = text_of(crate::syntax::slice_of(b, i, cut));
    match shade {
        Some(c) => {
            let t = trim(piece.as_str());
            if paint {
                let p = paint_text(t.as_str(), c);
                s.append(p.as_str());
            } else {
                s.append(t.as_str());
            }
        },
        None => {
            s.append(piece.as_str());
        },
    }
    push_char(s, '\n');
    proof {
        assert(s@ =~= before + piece_line(b@, i as int, cut as int, first, indent@, ni as int, shade, paint));
    }
}

/// Appends the pieces of one line of a label; tells whether a piece was written.
pub(crate) fn push_wrapped(
    s: &mut String,
    line: &Vec<u8>,
    first: bool,
    indent: &String,
    width: usize,
    shade: Option<Shade>,
    paint: bool,
)
    ensures
        final(s)@ == old(s)@ + wrapped(
            line@,
            0,
            first,
            indent@,
            width as int,
            name_end(line@),
            shade,
            paint,
        ),
{
    let b = line.as_slice();
    let n = line.len();
    let ni = match find_byte(b, 0, n, 32) {
        Some(p) => p,
        None => 0,
    };
    proof {
        assert(line@.subrange(0, n as int) =~= line@);
    }
    let ghost start = s@;
    let mut i: usize = 0;
    let mut first_piece = first;
    while i < n
        invariant
            n == line@.len(),
            b@ == line@,
            ni as int == name_end(line@),
            ni <= n,
            i <= n,
            i == 0 ==> first_piece == first,
            i > 0 ==> !first_piece,
            start + wrapped(line@, 0, first, indent@, width as int, ni as int, shade, paint) == s@
                + wrapped(line@, i as int, first_piece, indent@, width as int, ni as int, shade, paint),
        decreases n - i,
    {
        let room: usize = if width <= 100 { 100 - width } else { 0 };
        let room = if i > 0 {
            if room >= ni { room - ni } else { 0 }
        } else {
            room
        };
        let from: usize = if room <= n - i { i + room } else { n };
        let mut close = from;
        while close < n && b[close] != 93
            invariant
                n == b@.len(),
                b@ == line@,
                i <= from <= close <= n,
                close_from(line@, (i + room) as int) == close_from(line@, close as int) || (from == n
                    && close == n),
            decreases n - close,
        {
            close = close + 1;
        }
        let cut: usize = if close < n { close + 1 } else { n };
        proof {
            lemma_close_from(line@, (i + room) as int);
            assert(cut as int == cut_at(line@, i as int, width as int, ni as int));
        }
        let ghost before = s@;
        push_piece(s, b, i, cut, first_piece, indent, ni, shade, paint);
        proof {
            assert(wrapped(line@, i as int, first_piece, indent@, width as int, ni as int, shade, paint)
                == piece_line(line@, i as int, cut as int, first_piece, indent@, ni as int, shade, paint)
                + wrapped(line@, cut as int, false, indent@, width as int, ni as int, shade, paint));
            assert(s@ + wrapped(line@, cut as int, false, indent@, width as int, ni as int, shade, paint)
                =~= before + wrapped(line@, i as int, first_piece, indent@, width as int, ni as int, shade, paint));
        }
        i = cut;
        first_piece = false;
    }
}

} // verus!
