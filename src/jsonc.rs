//! Comments removed from JSON with comments (`//` to the end of the line,
//! nested `/* */` blocks), keeping strings intact.
use vstd::prelude::*;
use crate::text::{chars_of, string_of};

verus! {

/// The scanner's state between two characters.
pub ghost struct Scan {
    pub out: Seq<char>,
    pub depth: nat,
    pub in_string: bool,
    pub last: Option<char>,
    pub skip_line: bool,
}

/// `s` without its trailing spaces.
pub open spec fn trim_spaces(s: Seq<char>) -> Seq<char>
    decreases s.len(),
{
    if s.len() > 0 && s.last() == ' ' {
        trim_spaces(s.drop_last())
    } else {
        s
    }
}

pub open spec fn blanks(preserve: bool, n: nat) -> Seq<char> {
    if preserve {
        Seq::new(n, |i: int| ' ')
    } else {
        Seq::empty()
    }
}

/// One character inside a line. A `"` not after a backslash and outside
/// blocks flips the string flag; outside strings `//` ends the line, `/*`
/// opens a block and `*/` closes one; any other character releases the one
/// held before it, which is written unless inside a block.
pub open spec fn scan_char(st: Scan, c: char, preserve: bool) -> Scan {
    let in_string = if st.depth == 0 && st.last != Some('\\') && c == '"' { !st.in_string } else { st.in_string };
    if !in_string && st.last == Some('/') && c == '/' {
        Scan { out: st.out + blanks(preserve, 2), in_string, last: None, skip_line: true, ..st }
    } else if !in_string && st.last == Some('/') && c == '*' {
        Scan { out: st.out + blanks(preserve, 2), depth: st.depth + 1, in_string, last: None, ..st }
    } else if !in_string && st.last == Some('*') && c == '/' {
        Scan {
            out: st.out + blanks(preserve, 2),
            depth: if st.depth > 0 { (st.depth - 1) as nat } else { 0 },
            in_string,
            last: None,
            ..st
        }
    } else {
        let out = if st.depth == 0 {
            match st.last {
                Some(l) => st.out.push(l),
                None => st.out,
            }
        } else {
            st.out + blanks(preserve, 1)
        };
        Scan { out, in_string, last: Some(c), ..st }
    }
}

/// The end of a line: the held character is released, trailing spaces are
/// dropped and a newline is written.
pub open spec fn end_line(st: Scan, preserve: bool) -> Scan {
    let out = match st.last {
        Some(l) => if st.depth == 0 {
            st.out.push(l)
        } else {
            st.out + blanks(preserve, 1)
        },
        None => st.out,
    };
    Scan { out: trim_spaces(out).push('\n'), last: None, skip_line: false, ..st }
}

pub open spec fn scan_step(st: Scan, c: char, preserve: bool) -> Scan {
    if c == '\n' {
        end_line(st, preserve)
    } else if st.skip_line {
        st
    } else {
        scan_char(st, c, preserve)
    }
}

pub open spec fn scan_all(s: Seq<char>, preserve: bool) -> Scan
    decreases s.len(),
{
    if s.len() == 0 {
        Scan { out: Seq::empty(), depth: 0, in_string: false, last: None, skip_line: false }
    } else {
        scan_step(scan_all(s.drop_last(), preserve), s.last(), preserve)
    }
}

/// The text with its comments removed; with `preserve_locations` each removed
/// character becomes a space so that positions stay where they were. Every
/// line, the last one included, ends with a newline and has no trailing
/// spaces.
pub open spec fn stripped(s: Seq<char>, preserve: bool) -> Seq<char> {
    end_line(scan_all(s, preserve), preserve).out
}

fn push_blanks(out: &mut Vec<char>, preserve: bool, n: usize)
    ensures
        final(out)@ == old(out)@ + blanks(preserve, n as nat),
{
    if preserve {
        let mut i: usize = 0;
        let ghost start = out@;
        while i < n
            invariant
                i <= n,
                out@ == start + Seq::new(i as nat, |k: int| ' '),
            decreases n - i,
        {
            out.push(' ');
            assert(out@ =~= start + Seq::new((i + 1) as nat, |k: int| ' '));
            i = i + 1;
        }
    } else {
        assert(out@ =~= out@ + blanks(preserve, n as nat));
    }
}

fn finish_line(out: &mut Vec<char>, last: Option<char>, depth: usize, preserve: bool)
    ensures
        final(out)@ == end_line(
            Scan { out: old(out)@, depth: depth as nat, in_string: false, last, skip_line: false },
            preserve,
        ).out,
{
    let ghost st = Scan { out: out@, depth: depth as nat, in_string: false, last, skip_line: false };
    match last {
        Some(l) => {
            if depth == 0 {
                out.push(l);
            } else {
                push_blanks(out, preserve, 1);
            }
        }
        None => {}
    }
    while out.len() > 0 && out[out.len() - 1] == ' '
        invariant
            trim_spaces(out@) == trim_spaces(
                match last {
                    Some(l) => if depth == 0 { st.out.push(l) } else { st.out + blanks(preserve, 1) },
                    None => st.out,
                },
            ),
        decreases out.len(),
    {
        out.pop();
    }
    out.push('\n');
}

/// Removes `//` and `/* */` comments from JSON text, leaving strings alone.
pub fn strip_jsonc_comments(jsonc_input: &str, preserve_locations: bool) -> (r: String)
    ensures
        r@ == stripped(jsonc_input@, preserve_locations),
{
    let cs = chars_of(jsonc_input);
    let preserve = preserve_locations;
    let mut out: Vec<char> = Vec::new();
    let mut depth: usize = 0;
    let mut in_string = false;
    let mut last: Option<char> = None;
    let mut skip_line = false;
    let mut i: usize = 0;
    assert(cs@.take(0) =~= Seq::<char>::empty());
    while i < cs.len()
        invariant
            i <= cs.len(),
            depth <= i,
            scan_all(cs@.take(i as int), preserve) == (Scan { out: out@, depth: depth as nat, in_string, last, skip_line }),
        decreases cs.len() - i,
    {
        let c = cs[i];
        assert(cs@.take(i + 1).drop_last() =~= cs@.take(i as int));
        if c == '\n' {
            finish_line(&mut out, last, depth, preserve);
            last = None;
            skip_line = false;
        } else if skip_line {
        } else {
            if depth == 0 && last != Some('\\') && c == '"' {
                in_string = !in_string;
            }
            if !in_string && last == Some('/') && c == '/' {
                last = None;
                push_blanks(&mut out, preserve, 2);
                skip_line = true;
            } else if !in_string && last == Some('/') && c == '*' {
                depth = depth + 1;
                last = None;
                push_blanks(&mut out, preserve, 2);
            } else if !in_string && last == Some('*') && c == '/' {
                if depth > 0 {
                    depth = depth - 1;
                }
                last = None;
                push_blanks(&mut out, preserve, 2);
            } else {
                if depth == 0 {
                    match last {
                        Some(l) => out.push(l),
                        None => {}
                    }
                } else {
                    push_blanks(&mut out, preserve, 1);
                }
                last = Some(c);
            }
        }
        i = i + 1;
    }
    assert(cs@.take(cs.len() as int) =~= cs@);
    finish_line(&mut out, last, depth, preserve);
    string_of(&out)
}

} // verus!
