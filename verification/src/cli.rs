//! The program's options, and how they determine the two byte strings to align.
use vstd::prelude::*;
use crate::segments::{lemma_run_end, run_end, runs_from};
use vstd::std_specs::iter::IteratorSpec;

verus! {

broadcast use vstd::string::group_string_axioms;

/// How the report orders its tables.
#[derive(Debug, Clone, Copy, PartialEq, Eq, Structural)]
pub enum SortMode {
    Label,
    LengthDesc,
    Density,
    Fragmentation,
}

/// The program's options.
#[derive(Debug)]
pub struct Args {
    /// Source input as text.
    pub source: Option<String>,
    /// Target input as text.
    pub target: Option<String>,
    /// Source input as whitespace-separated hexadecimal byte values.
    pub source_hex: Option<String>,
    /// Target input as whitespace-separated hexadecimal byte values.
    pub target_hex: Option<String>,
    /// Source input as the path of a file read as raw bytes.
    pub source_file: Option<String>,
    /// Target input as the path of a file read as raw bytes.
    pub target_file: Option<String>,
    /// Which descent to run ("v1" or "mdl", "v2" or "fast").
    pub version: String,
    /// How the report orders its tables.
    pub sort: SortMode,
    /// Whether to report every descent step.
    pub debug: bool,
    /// Whether to print the position mapping table.
    pub show_mapping: bool,
    /// Whether to print without ANSI colors.
    pub no_color: bool,
    /// Whether to print only the final summary.
    pub summary_only: bool,
    /// Whether to print as little as possible.
    pub quiet: bool,
}

/// Where one side's bytes come from: given directly, or the contents of a file.
#[derive(Debug)]
pub enum InputSource {
    Bytes(Vec<u8>),
    File(String),
}

/// Whether `c` has the Unicode `White_Space` property (PropList.txt): U+0009 to U+000D,
/// U+0020, U+0085, U+00A0, U+1680, U+2000 to U+200A, U+2028, U+2029, U+202F, U+205F and
/// U+3000.
pub open spec fn unicode_white_space(c: char) -> bool {
    let x = c as int;
    ||| 0x9 <= x <= 0xD
    ||| x == 0x20
    ||| x == 0x85
    ||| x == 0xA0
    ||| x == 0x1680
    ||| 0x2000 <= x <= 0x200A
    ||| x == 0x2028
    ||| x == 0x2029
    ||| x == 0x202F
    ||| x == 0x205F
    ||| x == 0x3000
}

/// Whether `c` has the Unicode `White_Space` property (what `char::is_whitespace`
/// decides): a check of its code point against the set [`unicode_white_space`] lists.
fn is_white_space(c: char) -> (r: bool)
    ensures
        r == unicode_white_space(c),
{
    let x = c as u32;
    (0x9 <= x && x <= 0xD) || x == 0x20 || x == 0x85 || x == 0xA0 || x == 0x1680
        || (0x2000 <= x && x <= 0x200A) || x == 0x2028 || x == 0x2029 || x == 0x202F
        || x == 0x205F || x == 0x3000
}

/// For each character, whether it belongs to a word (is not white space).
pub open spec fn word_flags(cs: Seq<char>) -> Seq<bool> {
    cs.map_values(|c: char| !unicode_white_space(c))
}

/// The value of a hexadecimal digit (`0-9`, `a-f`, `A-F`).
pub open spec fn hex_digit(c: char) -> Option<nat> {
    if '0' <= c && c <= '9' {
        Some((c as nat - '0' as nat) as nat)
    } else if 'a' <= c && c <= 'f' {
        Some((c as nat - 'a' as nat + 10) as nat)
    } else if 'A' <= c && c <= 'F' {
        Some((c as nat - 'A' as nat + 10) as nat)
    } else {
        None
    }
}

/// The value of a string of hexadecimal digits, if every character is one.
pub open spec fn hex_digits_value(ds: Seq<char>) -> Option<nat>
    decreases ds.len(),
{
    if ds.len() == 0 {
        Some(0)
    } else {
        match (hex_digits_value(ds.drop_last()), hex_digit(ds.last())) {
            (Some(v), Some(d)) => Some(v * 16 + d),
            _ => None,
        }
    }
}

/// `u8::from_str_radix(w, 16)`: an optional `+`, then at least one hexadecimal digit,
/// with a value below 256.
pub open spec fn hex_byte(w: Seq<char>) -> Option<u8> {
    let ds = if w.len() > 0 && w[0] == '+' { w.drop_first() } else { w };
    if ds.len() == 0 {
        None
    } else {
        match hex_digits_value(ds) {
            Some(v) => if v < 256 { Some(v as u8) } else { None },
            None => None,
        }
    }
}

/// The bytes of the words `rs` of `cs` that read as hexadecimal bytes, in order.
pub open spec fn word_bytes(cs: Seq<char>, rs: Seq<(int, int)>) -> Seq<u8>
    decreases rs.len(),
{
    if rs.len() == 0 {
        Seq::empty()
    } else {
        let here = match hex_byte(cs.subrange(rs[0].0, rs[0].1)) {
            Some(b) => seq![b],
            None => Seq::empty(),
        };
        here + word_bytes(cs, rs.drop_first())
    }
}

/// The bytes of a hexadecimal text: its whitespace-separated words, each that reads as
/// a hexadecimal byte giving that byte, the others skipped.
pub open spec fn hex_text_bytes(cs: Seq<char>) -> Seq<u8> {
    word_bytes(cs, runs_from(word_flags(cs), 0, true))
}

/// The characters of a string.
pub(crate) fn chars_of(s: &str) -> (r: Vec<char>)
    ensures
        r@ == s@,
{
    let mut it = s.chars();
    let mut r: Vec<char> = Vec::new();
    loop
        invariant_except_break
            r@ + it.remaining() == s@,
            it.decrease() is Some,
        ensures
            r@ == s@,
        decreases it.decrease()->0,
    {
        let ghost before = it.remaining();
        match it.next() {
            Some(c) => {
                proof {
                    assert(before.len() > 0);
                    assert(r@.push(c) + it.remaining() =~= r@ + before);
                }
                r.push(c);
            },
            None => {
                proof {
                    assert(r@ + before =~= r@);
                }
                break;
            },
        }
    }
    r
}

/// The hexadecimal byte that the characters `cs[a..b]` read as, if any.
fn word_byte(cs: &Vec<char>, a: usize, b: usize) -> (r: Option<u8>)
    requires
        a <= b <= cs@.len(),
    ensures
        r == hex_byte(cs@.subrange(a as int, b as int)),
{
    let ghost w = cs@.subrange(a as int, b as int);
    let mut i = a;
    if i < b && cs[i] == '+' {
        i = i + 1;
    }
    let ghost ds = cs@.subrange(i as int, b as int);
    proof {
        if w.len() > 0 && w[0] == '+' {
            assert(w.drop_first() =~= ds);
        } else {
            assert(w =~= ds);
        }
    }
    if i == b {
        return None;
    }
    let i0 = i;
    let mut v: u32 = 0;
    let mut over = false;
    let mut bad = false;
    proof {
        assert(cs@.subrange(i0 as int, i0 as int) =~= Seq::<char>::empty());
    }
    while i < b
        invariant
            a <= i0 <= i <= b <= cs@.len(),
            ds == cs@.subrange(i0 as int, b as int),
            v < 256,
            bad <==> hex_digits_value(cs@.subrange(i0 as int, i as int)) is None,
            !bad && !over ==> hex_digits_value(cs@.subrange(i0 as int, i as int)) == Some(v as nat),
            !bad && over ==> hex_digits_value(cs@.subrange(i0 as int, i as int))->0 >= 256,
        decreases b - i,
    {
        let c = cs[i];
        let d: u32 = if '0' <= c && c <= '9' {
            c as u32 - '0' as u32
        } else if 'a' <= c && c <= 'f' {
            c as u32 - 'a' as u32 + 10
        } else if 'A' <= c && c <= 'F' {
            c as u32 - 'A' as u32 + 10
        } else {
            16
        };
        proof {
            let p = cs@.subrange(i0 as int, i + 1);
            assert(p.drop_last() =~= cs@.subrange(i0 as int, i as int));
            assert(p.last() == c);
            if d < 16 {
                assert(hex_digit(c) == Some(d as nat));
            } else {
                assert(hex_digit(c) is None);
            }
        }
        if d == 16 {
            bad = true;
        } else if !bad && !over {
            let w2 = v * 16 + d;
            if w2 < 256 {
                v = w2;
            } else {
                over = true;
            }
        }
        i = i + 1;
    }
    proof {
        assert(cs@.subrange(i0 as int, i as int) =~= ds);
    }
    if bad || over {
        None
    } else {
        Some(v as u8)
    }
}

/// The bytes of a hexadecimal text: its whitespace-separated words, each that reads as a
/// hexadecimal byte (an optional `+` and one or more hexadecimal digits with a value
/// below 256) giving that byte, the others skipped.
pub fn parse_hex_string(hex_str: &str) -> (r: Vec<u8>)
    ensures
        r@ == hex_text_bytes(hex_str@),
{
    let cs = chars_of(hex_str);
    let n = cs.len();
    let mut flags: Vec<bool> = Vec::new();
    let mut k: usize = 0;
    while k < n
        invariant
            k <= n,
            n == cs@.len(),
            flags@ == word_flags(cs@).take(k as int),
        decreases n - k,
    {
        let w = !is_white_space(cs[k]);
        flags.push(w);
        proof {
            assert(flags@ =~= word_flags(cs@).take(k + 1));
        }
        k = k + 1;
    }
    let ghost f = flags@;
    proof {
        assert(f =~= word_flags(cs@));
    }
    let ghost goal = hex_text_bytes(cs@);
    let mut out: Vec<u8> = Vec::new();
    let mut i: usize = 0;
    proof {
        assert(out@ + goal =~= goal);
    }
    while i < n
        invariant
            n == cs@.len(),
            f == flags@,
            f == word_flags(cs@),
            i <= n,
            out@ + word_bytes(cs@, runs_from(f, i as int, true)) == goal,
        decreases n - i,
    {
        if flags[i] {
            let s = i;
            proof {
                lemma_run_end(f, s as int, true);
            }
            while i < n && flags[i]
                invariant
                    f == flags@,
                    n == f.len(),
                    s <= i <= n,
                    run_end(f, s as int, true) == run_end(f, i as int, true),
                decreases n - i,
            {
                i = i + 1;
            }
            let ghost before = out@;
            let b = word_byte(&cs, s, i);
            match b {
                Some(x) => out.push(x),
                None => {},
            }
            proof {
                let rest = runs_from(f, i as int, true);
                assert(run_end(f, i as int, true) == i);
                let rs = seq![(s as int, i as int)] + rest;
                assert(runs_from(f, s as int, true) == rs);
                assert(rs[0] == (s as int, i as int));
                assert(rs.drop_first() =~= rest);
                assert(out@ + word_bytes(cs@, rest) =~= before + word_bytes(cs@, rs));
            }
        } else {
            proof {
                assert(runs_from(f, i as int, true) == runs_from(f, i + 1, true));
            }
            i = i + 1;
        }
    }
    proof {
        assert(runs_from(f, i as int, true) =~= Seq::<(int, int)>::empty());
        assert(out@ =~= goal);
    }
    out
}

/// Whether one side names an input at all.
pub open spec fn has_input(hex: Option<String>, file: Option<String>, text: Option<String>) -> bool {
    hex is Some || file is Some || text is Some
}

/// The input of one side: hexadecimal text first, then a file, then plain text (as
/// its UTF-8 bytes).
pub open spec fn input_matches(r: InputSource, hex: Option<String>, file: Option<String>, text: Option<String>) -> bool {
    match hex {
        Some(h) => r matches InputSource::Bytes(b) && b@ == hex_text_bytes(h@),
        None => match file {
            Some(f) => r matches InputSource::File(p) && p@ == f@,
            None => match text {
                Some(t) => r matches InputSource::Bytes(b) && b@ == vstd::utf8::encode_utf8(t@),
                None => false,
            },
        },
    }
}

/// The input of one side, by the priority hexadecimal text, file, plain text.
fn side_input(hex: &Option<String>, file: &Option<String>, text: &Option<String>) -> (r: InputSource)
    requires
        has_input(*hex, *file, *text),
    ensures
        input_matches(r, *hex, *file, *text),
{
    match hex {
        Some(h) => InputSource::Bytes(parse_hex_string(h.as_str())),
        None => match file {
            Some(f) => InputSource::File(f.clone()),
            None => match text {
                Some(t) => InputSource::Bytes(vstd::slice::slice_to_vec(t.as_str().as_bytes())),
                None => {
                    proof {
                        assert(false);
                    }
                    InputSource::Bytes(Vec::new())
                },
            },
        },
    }
}

/// Where the source and the target come from. Each side takes its hexadecimal text if
/// given, else its file, else its plain text as UTF-8 bytes; each side must name one.
pub fn resolve_input(args: &Args) -> (r: (InputSource, InputSource))
    requires
        has_input(args.source_hex, args.source_file, args.source),
        has_input(args.target_hex, args.target_file, args.target),
    ensures
        input_matches(r.0, args.source_hex, args.source_file, args.source),
        input_matches(r.1, args.target_hex, args.target_file, args.target),
{
    let source = side_input(&args.source_hex, &args.source_file, &args.source);
    let target = side_input(&args.target_hex, &args.target_file, &args.target);
    (source, target)
}

} // verus!
