//! How the engine reads the text of a pattern, as far as the tokenizer has
//! to know it before it hands a pattern over: where escapes, comments,
//! classes, groups, flags and repeats stand, which parts are
//! back-references, conditions on groups or keep-outs, and how large the
//! least match grows. The tokenizer takes no pattern with one of those
//! three forms, nor one whose least match has no size that fits.

use crate::pattern::escaped;
use vstd::prelude::*;
use vstd::string::StrSliceExecFns;

verus! {

/// A decimal digit.
pub open spec fn is_digit_char(c: char) -> bool {
    '0' <= c && c <= '9'
}

/// A hexadecimal digit.
pub open spec fn is_hex_char(c: char) -> bool {
    is_digit_char(c) || ('a' <= c && c <= 'f') || ('A' <= c && c <= 'F')
}

/// White space that the engine passes over where the flag `x` is set.
pub open spec fn is_blank_char(c: char) -> bool {
    c == ' ' || c == '\t' || c == '\r' || c == '\n'
}

/// A letter of the Latin alphabet.
pub open spec fn is_letter_char(c: char) -> bool {
    ('a' <= c && c <= 'z') || ('A' <= c && c <= 'Z')
}

/// A letter that may follow a backslash.
pub open spec fn is_escape_letter(c: char) -> bool {
    c == 'A' || c == 'z' || c == 'b' || c == 'B' || c == 'd' || c == 'D' || c == 's' || c == 'S'
        || c == 'w' || c == 'W' || c == 'a' || c == 'f' || c == 'n' || c == 'r' || c == 't' || c
        == 'v' || c == 'e' || c == 'h' || c == 'H' || c == 'G'
}

/// The value of a decimal digit.
pub open spec fn digit_value(c: char) -> usize {
    if c == '1' {
        1
    } else if c == '2' {
        2
    } else if c == '3' {
        3
    } else if c == '4' {
        4
    } else if c == '5' {
        5
    } else if c == '6' {
        6
    } else if c == '7' {
        7
    } else if c == '8' {
        8
    } else if c == '9' {
        9
    } else {
        0
    }
}

/// The place after the `)` that ends a comment `(?#` whose text begins at
/// `i`; a backslash takes the next character with it.
pub open spec fn comment_end(p: Seq<char>, i: usize) -> Option<usize>
    decreases p.len() - i,
    when p.len() <= usize::MAX
{
    if i >= p.len() {
        None
    } else if p[i as int] == ')' {
        Some((i + 1) as usize)
    } else if p[i as int] == '\\' {
        if i + 1 >= p.len() {
            None
        } else {
            comment_end(p, (i + 2) as usize)
        }
    } else {
        comment_end(p, (i + 1) as usize)
    }
}

/// The place after the end of the line that holds place `i`.
pub open spec fn line_end(p: Seq<char>, i: usize) -> usize
    decreases p.len() - i,
    when p.len() <= usize::MAX
{
    if i >= p.len() {
        i
    } else if p[i as int] == '\n' {
        (i + 1) as usize
    } else {
        line_end(p, (i + 1) as usize)
    }
}

/// The place at or after `i` where the engine goes on reading: after
/// comments `(?#..)` and, where the flag `x` is set, after white space and
/// comments from `#` to the end of the line. None where a comment does not
/// end.
pub open spec fn skip_space(p: Seq<char>, i: usize, x: bool) -> Option<usize>
    decreases p.len() - i,
    when p.len() <= usize::MAX
{
    if i >= p.len() {
        Some(i)
    } else if x && p[i as int] == '#' {
        let n = line_end(p, i);
        if n <= i || n > p.len() {
            None
        } else {
            skip_space(p, n, x)
        }
    } else if x && is_blank_char(p[i as int]) {
        skip_space(p, (i + 1) as usize, x)
    } else if p[i as int] == '(' && i + 2 < p.len() && p[i + 1] == '?' && p[i + 2] == '#' {
        match comment_end(p, (i + 3) as usize) {
            None => None,
            Some(e) => if e <= i || e > p.len() {
                None
            } else {
                skip_space(p, e, x)
            },
        }
    } else {
        Some(i)
    }
}

/// The place after the first `c` at or after `i`.
pub open spec fn after_char(p: Seq<char>, i: usize, c: char) -> Option<usize>
    decreases p.len() - i,
    when p.len() <= usize::MAX
{
    if i >= p.len() {
        None
    } else if p[i as int] == c {
        Some((i + 1) as usize)
    } else {
        after_char(p, (i + 1) as usize, c)
    }
}

/// The `n` characters from `i` on are hexadecimal digits.
pub open spec fn all_hex(p: Seq<char>, i: usize, n: usize) -> bool
    decreases n,
{
    n == 0 || (i < p.len() && is_hex_char(p[i as int]) && all_hex(
        p,
        (i + 1) as usize,
        (n - 1) as usize,
    ))
}

/// The place after a number in braces whose digits begin at `start`, read
/// up to `e`: one to eight hexadecimal digits and `}`.
pub open spec fn hex_braced(p: Seq<char>, start: usize, e: usize) -> Option<usize>
    decreases p.len() - e,
    when p.len() <= usize::MAX
{
    if e >= p.len() || e < start {
        None
    } else if e > start && p[e as int] == '}' {
        Some((e + 1) as usize)
    } else if is_hex_char(p[e as int]) && e - start < 8 {
        hex_braced(p, start, (e + 1) as usize)
    } else {
        None
    }
}

/// The place after the number of a character that begins at `i`: `digits`
/// hexadecimal digits, or a number in braces.
pub open spec fn hex_end(p: Seq<char>, i: usize, digits: usize) -> Option<usize> {
    if i >= p.len() || p.len() > usize::MAX {
        None
    } else if digits <= p.len() - i && all_hex(p, i, digits) {
        Some((i + digits) as usize)
    } else if p[i as int] == '{' {
        hex_braced(p, (i + 1) as usize, (i + 1) as usize)
    } else {
        None
    }
}

/// The place after the escape whose backslash stands at `j`, with the
/// least size of what it matches. None where the engine takes the escape
/// for a back-reference (a digit or `k` follows) or a keep-out (`K`), or
/// does not take it at all.
pub open spec fn escape_end(p: Seq<char>, j: usize) -> Option<(usize, usize)> {
    if j + 1 >= p.len() || p.len() > usize::MAX {
        None
    } else {
        let b = p[j + 1];
        if is_digit_char(b) || b == 'k' || b == 'K' {
            None
        } else if b == 'x' || b == 'u' || b == 'U' {
            match hex_end(
                p,
                (j + 2) as usize,
                if b == 'x' {
                    2
                } else if b == 'u' {
                    4
                } else {
                    8
                },
            ) {
                Some(e) => Some((e, 1usize)),
                None => None,
            }
        } else if b == 'p' || b == 'P' {
            if j + 2 >= p.len() {
                None
            } else if p[j + 2] == '{' {
                match after_char(p, (j + 3) as usize, '}') {
                    Some(e) => Some((e, 1usize)),
                    None => None,
                }
            } else {
                Some(((j + 3) as usize, 1usize))
            }
        } else if b == 'A' || b == 'z' || b == 'b' || b == 'B' || b == 'G' {
            Some(((j + 2) as usize, 0usize))
        } else if is_letter_char(b) && !is_escape_letter(b) {
            None
        } else {
            Some(((j + 2) as usize, 1usize))
        }
    }
}

/// The place after the `]` that ends a class, read up to `k` with `nest`
/// brackets open.
pub open spec fn class_body(p: Seq<char>, k: usize, nest: usize) -> Option<usize>
    decreases p.len() - k,
    when p.len() <= usize::MAX
{
    if k >= p.len() || nest == 0 || nest > k {
        None
    } else if p[k as int] == '\\' {
        match escape_end(p, k) {
            None => None,
            Some(e) => if e.0 <= k || e.0 > p.len() {
                None
            } else {
                class_body(p, e.0, nest)
            },
        }
    } else if p[k as int] == '[' {
        class_body(p, (k + 1) as usize, (nest + 1) as usize)
    } else if p[k as int] == ']' {
        if nest == 1 {
            Some((k + 1) as usize)
        } else {
            class_body(p, (k + 1) as usize, (nest - 1) as usize)
        }
    } else {
        class_body(p, (k + 1) as usize, nest)
    }
}

/// The place after the class whose `[` stands at `i`. A `^` and then a
/// `]` right after the `[` belong to the class.
pub open spec fn class_end(p: Seq<char>, i: usize) -> Option<usize> {
    if i >= p.len() || p.len() > usize::MAX {
        None
    } else {
        let a = if i + 1 < p.len() && p[i + 1] == '^' {
            i + 2
        } else {
            i + 1
        };
        let b = if a < p.len() && p[a] == ']' {
            a + 1
        } else {
            a
        };
        class_body(p, b as usize, 1)
    }
}

/// The digits from `i` on read as a decimal number, with the place after
/// them: `acc` is the number read so far, none once it no longer fits.
pub open spec fn decimal_from(p: Seq<char>, i: usize, acc: Option<usize>) -> (usize, Option<usize>)
    decreases p.len() - i,
    when p.len() <= usize::MAX
{
    if i >= p.len() || !is_digit_char(p[i as int]) {
        (i, acc)
    } else {
        let d = digit_value(p[i as int]);
        let more = match acc {
            Some(a) => if a > (usize::MAX - d) / 10 {
                None
            } else {
                Some((a * 10 + d) as usize)
            },
            None => None,
        };
        decimal_from(p, (i + 1) as usize, more)
    }
}

/// The decimal number at `i` with the place after it, where there is one
/// that fits.
pub open spec fn decimal_at(p: Seq<char>, i: usize) -> Option<(usize, usize)> {
    let r = decimal_from(p, i, Some(0usize));
    match r.1 {
        Some(v) => if r.0 == i {
            None
        } else {
            Some((r.0, v))
        },
        None => None,
    }
}

/// The place after the repeat in braces whose `{` stands at `j`, with its
/// lower bound: `{n}`, `{n,}`, `{n,m}` or `{,m}`. None where the braces
/// are no repeat; the engine then takes the `{` for itself.
pub open spec fn repeat_at(p: Seq<char>, j: usize, x: bool) -> Option<(usize, usize)> {
    if j >= p.len() || p.len() > usize::MAX {
        None
    } else {
        match skip_space(p, (j + 1) as usize, x) {
            None => None,
            Some(a) => if a >= p.len() {
                None
            } else {
                let first = if p[a as int] == ',' {
                    Some((a, 0usize))
                } else {
                    decimal_at(p, a)
                };
                match first {
                    None => None,
                    Some(lo) => match skip_space(p, lo.0, x) {
                        None => None,
                        Some(b) => if b >= p.len() {
                            None
                        } else if p[b as int] == '}' {
                            Some(((b + 1) as usize, lo.1))
                        } else if p[b as int] == ',' {
                            match skip_space(p, (b + 1) as usize, x) {
                                None => None,
                                Some(e) => {
                                    let end = match decimal_at(p, e) {
                                        Some(hi) => hi.0,
                                        None => e,
                                    };
                                    match skip_space(p, end, x) {
                                        None => None,
                                        Some(c) => if c < p.len() && p[c as int] == '}' {
                                            Some(((c + 1) as usize, lo.1))
                                        } else {
                                            None
                                        },
                                    }
                                },
                            }
                        } else {
                            None
                        },
                    },
                }
            },
        }
    }
}

/// The end of the flags of a group `(?..` read from `f` on, where they
/// began at `start`: the place after the `)` or `:` that ends them, the
/// flag `x` as they leave it, and whether it was a `:`, after which the
/// group goes on. None where the engine does not take the flags.
pub open spec fn flags_from(p: Seq<char>, f: usize, start: usize, x: bool, neg: bool) -> Option<
    (usize, bool, bool),
>
    decreases p.len() - f,
    when p.len() <= usize::MAX
{
    match skip_space(p, f, x) {
        None => None,
        Some(g) => if g >= p.len() || g < f {
            None
        } else {
            let b = p[g as int];
            if b == 'i' || b == 'm' || b == 's' || b == 'U' {
                flags_from(p, (g + 1) as usize, start, x, neg)
            } else if b == 'x' {
                flags_from(p, (g + 1) as usize, start, !neg, neg)
            } else if b == 'u' {
                if neg {
                    None
                } else {
                    flags_from(p, (g + 1) as usize, start, x, neg)
                }
            } else if b == '-' {
                if neg {
                    None
                } else {
                    flags_from(p, (g + 1) as usize, start, x, true)
                }
            } else if b == ')' {
                if g == start || (neg && g == start + 1) {
                    None
                } else {
                    Some(((g + 1) as usize, x, false))
                }
            } else if b == ':' {
                if neg && g == start + 1 {
                    None
                } else {
                    Some(((g + 1) as usize, x, true))
                }
            } else {
                None
            }
        },
    }
}

/// What is kept of the surrounding pattern while a group is read.
#[derive(Clone, Copy)]
pub struct Frame {
    /// The least size of what stands before the group in its branch.
    pub total: usize,
    /// The least size of the branches before this one, if any.
    pub best: Option<usize>,
    /// The flag `x` as it was, where the group sets flags for itself.
    pub restore: Option<bool>,
    /// The group looks ahead or behind and so matches no text itself.
    pub look: bool,
}

/// Where the reading of a pattern stands.
#[derive(Clone, Copy)]
pub struct Walk {
    /// The place that is read next.
    pub i: usize,
    /// The flag `x`: white space and comments are passed over.
    pub x: bool,
    /// Something that can be repeated was just read.
    pub after: bool,
    /// The least size of the branch so far, without what was read last.
    pub total: usize,
    /// The least size of what was read last.
    pub last: usize,
    /// The least size of the branches before this one, if any.
    pub best: Option<usize>,
}

/// What a step does to the groups that are open.
#[derive(Clone, Copy)]
pub enum Nesting {
    Same,
    Open(Frame),
    Close,
}

/// What a step of reading comes to.
#[derive(Clone, Copy)]
pub enum Step {
    /// The pattern is not taken.
    Refuse,
    /// The pattern is read to its end.
    Done,
    /// Reading goes on.
    Next(Walk, Nesting),
}

/// The smaller of `v` and `best`, where there is one.
pub open spec fn least(best: Option<usize>, v: usize) -> usize {
    match best {
        Some(b) => if b < v {
            b
        } else {
            v
        },
        None => v,
    }
}

/// Reading goes on at `e` after something of least size `size` that can be
/// repeated: what was read before it is added to the branch.
pub open spec fn after_atom(w: Walk, e: usize, size: usize) -> Step {
    if w.last > usize::MAX - w.total {
        Step::Refuse
    } else {
        Step::Next(
            Walk {
                i: e,
                x: w.x,
                after: true,
                total: (w.total + w.last) as usize,
                last: size,
                best: w.best,
            },
            Nesting::Same,
        )
    }
}

/// Reading goes on at `e` inside a group that was opened.
pub open spec fn into_group(w: Walk, e: usize, x: bool, restore: Option<bool>, look: bool) -> Step {
    if w.last > usize::MAX - w.total {
        Step::Refuse
    } else {
        Step::Next(
            Walk { i: e, x: x, after: false, total: 0, last: 0, best: None },
            Nesting::Open(
                Frame {
                    total: (w.total + w.last) as usize,
                    best: w.best,
                    restore: restore,
                    look: look,
                },
            ),
        )
    }
}

/// The place after a repeat sign that was read up to `k`: a `?` and then
/// a `+` may follow it.
pub open spec fn repeat_tail(p: Seq<char>, k: usize, x: bool) -> Option<usize> {
    match skip_space(p, k, x) {
        None => None,
        Some(a) => {
            let b = if a < p.len() && p[a as int] == '?' {
                a + 1
            } else {
                a as int
            };
            let c = if b < p.len() && p[b] == '+' {
                b + 1
            } else {
                b
            };
            if c > usize::MAX {
                None
            } else {
                Some(c as usize)
            }
        },
    }
}

/// What was read last is repeated at least `lo` times, by a repeat sign
/// that ends at `k`.
pub open spec fn after_repeat(p: Seq<char>, w: Walk, k: usize, lo: usize) -> Step {
    if w.last != 0 && lo > usize::MAX / w.last {
        Step::Refuse
    } else {
        match repeat_tail(p, k, w.x) {
            None => Step::Refuse,
            Some(e) => Step::Next(
                Walk {
                    i: e,
                    x: w.x,
                    after: false,
                    total: w.total,
                    last: (w.last * lo) as usize,
                    best: w.best,
                },
                Nesting::Same,
            ),
        }
    }
}

/// The step at the `(` of a group at `j`. None of the forms `(?P=` and
/// `(?(` is taken.
pub open spec fn group_step(p: Seq<char>, w: Walk, j: usize) -> Step {
    if j >= p.len() || p.len() > usize::MAX {
        Step::Refuse
    } else {
        match skip_space(p, (j + 1) as usize, w.x) {
            None => Step::Refuse,
            Some(k) => if k >= p.len() || p[k as int] != '?' {
                into_group(w, k, w.x, None, false)
            } else if k + 1 >= p.len() {
                Step::Refuse
            } else {
                let b = p[k + 1];
                if b == '=' || b == '!' {
                    into_group(w, (k + 2) as usize, w.x, None, true)
                } else if b == '<' {
                    if k + 2 < p.len() && (p[k + 2] == '=' || p[k + 2] == '!') {
                        into_group(w, (k + 3) as usize, w.x, None, true)
                    } else {
                        match after_char(p, (k + 2) as usize, '>') {
                            None => Step::Refuse,
                            Some(e) => into_group(w, e, w.x, None, false),
                        }
                    }
                } else if b == 'P' {
                    if k + 2 < p.len() && p[k + 2] == '<' {
                        match after_char(p, (k + 3) as usize, '>') {
                            None => Step::Refuse,
                            Some(e) => into_group(w, e, w.x, None, false),
                        }
                    } else {
                        Step::Refuse
                    }
                } else if b == '>' {
                    into_group(w, (k + 2) as usize, w.x, None, false)
                } else if b == '(' {
                    Step::Refuse
                } else {
                    match flags_from(p, (k + 1) as usize, (k + 1) as usize, w.x, false) {
                        None => Step::Refuse,
                        Some(f) => if f.2 {
                            into_group(w, f.0, f.1, Some(w.x), false)
                        } else {
                            after_atom(
                                Walk {
                                    i: w.i,
                                    x: f.1,
                                    after: w.after,
                                    total: w.total,
                                    last: w.last,
                                    best: w.best,
                                },
                                f.0,
                                0,
                            )
                        },
                    }
                }
            },
        }
    }
}

/// The step at `j`, where something begins or a branch or group ends.
pub open spec fn atom_step(p: Seq<char>, w: Walk, top: Option<Frame>, j: usize) -> Step {
    if j >= p.len() || p.len() > usize::MAX {
        Step::Refuse
    } else {
        let c = p[j as int];
        if c == '.' {
            after_atom(w, (j + 1) as usize, 1)
        } else if c == '^' || c == '$' {
            after_atom(w, (j + 1) as usize, 0)
        } else if c == '(' {
            group_step(p, w, j)
        } else if c == '\\' {
            match escape_end(p, j) {
                None => Step::Refuse,
                Some(e) => after_atom(w, e.0, e.1),
            }
        } else if c == '+' || c == '*' || c == '?' {
            Step::Refuse
        } else if c == '|' {
            if w.last > usize::MAX - w.total {
                Step::Refuse
            } else {
                Step::Next(
                    Walk {
                        i: (j + 1) as usize,
                        x: w.x,
                        after: false,
                        total: 0,
                        last: 0,
                        best: Some(least(w.best, (w.total + w.last) as usize)),
                    },
                    Nesting::Same,
                )
            }
        } else if c == ')' {
            match top {
                None => Step::Refuse,
                Some(frame) => if w.last > usize::MAX - w.total {
                    Step::Refuse
                } else {
                    Step::Next(
                        Walk {
                            i: (j + 1) as usize,
                            x: match frame.restore {
                                Some(old) => old,
                                None => w.x,
                            },
                            after: true,
                            total: frame.total,
                            last: if frame.look {
                                0
                            } else {
                                least(w.best, (w.total + w.last) as usize)
                            },
                            best: frame.best,
                        },
                        Nesting::Close,
                    )
                },
            }
        } else if c == '[' {
            match class_end(p, j) {
                None => Step::Refuse,
                Some(e) => after_atom(w, e, 1),
            }
        } else {
            after_atom(w, (j + 1) as usize, 1)
        }
    }
}

/// One step of reading the pattern as the engine reads it, with the
/// innermost open group in `top`.
pub open spec fn step(p: Seq<char>, w: Walk, top: Option<Frame>) -> Step {
    match skip_space(p, w.i, w.x) {
        None => Step::Refuse,
        Some(j) => if j >= p.len() {
            if w.last > usize::MAX - w.total {
                Step::Refuse
            } else {
                Step::Done
            }
        } else if w.after && (p[j as int] == '?' || p[j as int] == '*') {
            after_repeat(p, w, (j + 1) as usize, 0)
        } else if w.after && p[j as int] == '+' {
            after_repeat(p, w, (j + 1) as usize, 1)
        } else if w.after && p[j as int] == '{' {
            match repeat_at(p, j, w.x) {
                Some(e) => after_repeat(p, w, e.0, e.1),
                None => atom_step(p, w, top, j),
            }
        } else {
            atom_step(p, w, top, j)
        },
    }
}

/// The innermost of the open groups.
pub open spec fn top_of(stack: Seq<Frame>) -> Option<Frame> {
    if stack.len() == 0 {
        None
    } else {
        Some(stack.last())
    }
}

/// The pattern is read from `w` on to its end and taken.
pub open spec fn read_from(p: Seq<char>, w: Walk, stack: Seq<Frame>) -> bool
    decreases p.len() - w.i,
{
    match step(p, w, top_of(stack)) {
        Step::Refuse => false,
        Step::Done => true,
        Step::Next(next, nesting) => if next.i <= w.i || next.i > p.len() {
            false
        } else {
            match nesting {
                Nesting::Same => read_from(p, next, stack),
                Nesting::Open(frame) => read_from(p, next, stack.push(frame)),
                Nesting::Close => if stack.len() == 0 {
                    false
                } else {
                    read_from(p, next, stack.drop_last())
                },
            }
        },
    }
}

/// The start of reading: at the first character, no flag set, nothing
/// read.
pub open spec fn start_walk() -> Walk {
    Walk { i: 0, x: false, after: false, total: 0, last: 0, best: None }
}

/// The engine reads `pattern` to its end and finds in it no
/// back-reference, no condition on a group and no keep-out, and the least
/// size of a match of each of its parts fits in a machine word.
pub open spec fn safe_pattern(pattern: Seq<char>) -> bool {
    pattern.len() <= usize::MAX && read_from(pattern, start_walk(), Seq::empty())
}

/// The pattern that matches any one of `literals`: each escaped, with `|`
/// between them.
pub open spec fn alternation(literals: Seq<Seq<char>>) -> Seq<char>
    decreases literals.len(),
{
    if literals.len() == 0 {
        Seq::empty()
    } else if literals.len() == 1 {
        escaped(literals[0])
    } else {
        alternation(literals.drop_last()) + seq!['|'] + escaped(literals.last())
    }
}

/// `pattern` is the alternation of some literals, each escaped.
pub open spec fn is_literal_alternation(pattern: Seq<char>) -> bool {
    exists|literals: Seq<Seq<char>>| literals.len() > 0 && pattern == alternation(literals)
}

/// The characters of `text`.
pub fn chars_of(text: &str) -> (chars: Vec<char>)
    ensures
        chars@ == text@,
{
    let n = text.unicode_len();
    let mut chars: Vec<char> = Vec::new();
    let mut i: usize = 0;
    while i < n
        invariant
            n == text@.len(),
            i <= n,
            chars@ == text@.take(i as int),
        decreases n - i,
    {
        chars.push(text.get_char(i));
        assert(text@.take(i + 1) =~= text@.take(i as int).push(text@[i as int]));
        i += 1;
    }
    assert(text@.take(n as int) =~= text@);
    chars
}

/// Tells whether `c` is a decimal digit.
pub fn digit_char(c: char) -> (b: bool)
    ensures
        b == is_digit_char(c),
{
    '0' <= c && c <= '9'
}

/// Tells whether `c` is a hexadecimal digit.
pub fn hex_char(c: char) -> (b: bool)
    ensures
        b == is_hex_char(c),
{
    ('0' <= c && c <= '9') || ('a' <= c && c <= 'f') || ('A' <= c && c <= 'F')
}

/// The value of the decimal digit `c`.
pub fn value_of_digit(c: char) -> (d: usize)
    ensures
        d == digit_value(c),
        d <= 9,
{
    if c == '1' {
        1
    } else if c == '2' {
        2
    } else if c == '3' {
        3
    } else if c == '4' {
        4
    } else if c == '5' {
        5
    } else if c == '6' {
        6
    } else if c == '7' {
        7
    } else if c == '8' {
        8
    } else if c == '9' {
        9
    } else {
        0
    }
}

/// The place after the `)` that ends a comment whose text begins at `i`.
pub fn find_comment_end(p: &Vec<char>, i: usize) -> (r: Option<usize>)
    ensures
        r == comment_end(p@, i),
        r matches Some(e) ==> i < e <= p.len(),
    decreases p.len() - i,
{
    if i >= p.len() {
        None
    } else if p[i] == ')' {
        Some(i + 1)
    } else if p[i] == '\\' {
        if i + 1 >= p.len() {
            None
        } else {
            find_comment_end(p, i + 2)
        }
    } else {
        find_comment_end(p, i + 1)
    }
}

/// The place after the end of the line that holds place `i`.
pub fn find_line_end(p: &Vec<char>, i: usize) -> (r: usize)
    ensures
        r == line_end(p@, i),
        i <= r,
        i < p.len() ==> i < r <= p.len(),
    decreases p.len() - i,
{
    if i >= p.len() {
        i
    } else if p[i] == '\n' {
        i + 1
    } else {
        find_line_end(p, i + 1)
    }
}

/// The place at or after `i` where the engine goes on reading.
pub fn pass_space(p: &Vec<char>, i: usize, x: bool) -> (r: Option<usize>)
    requires
        i <= p.len(),
    ensures
        r == skip_space(p@, i, x),
        r matches Some(j) ==> i <= j <= p.len(),
    decreases p.len() - i,
{
    if i >= p.len() {
        Some(i)
    } else if x && p[i] == '#' {
        let n = find_line_end(p, i);
        if n <= i || n > p.len() {
            None
        } else {
            pass_space(p, n, x)
        }
    } else if x && (p[i] == ' ' || p[i] == '\t' || p[i] == '\r' || p[i] == '\n') {
        pass_space(p, i + 1, x)
    } else if p[i] == '(' && p.len() - i > 2 && p[i + 1] == '?' && p[i + 2] == '#' {
        match find_comment_end(p, i + 3) {
            None => None,
            Some(e) => if e <= i || e > p.len() {
                None
            } else {
                pass_space(p, e, x)
            },
        }
    } else {
        Some(i)
    }
}

/// The place after the first `c` at or after `i`.
pub fn find_after_char(p: &Vec<char>, i: usize, c: char) -> (r: Option<usize>)
    ensures
        r == after_char(p@, i, c),
        r matches Some(e) ==> i < e <= p.len(),
    decreases p.len() - i,
{
    if i >= p.len() {
        None
    } else if p[i] == c {
        Some(i + 1)
    } else {
        find_after_char(p, i + 1, c)
    }
}

/// Tells whether the `n` characters from `i` on are hexadecimal digits.
pub fn check_all_hex(p: &Vec<char>, i: usize, n: usize) -> (b: bool)
    requires
        i <= p.len(),
        n <= p.len() - i,
    ensures
        b == all_hex(p@, i, n),
    decreases n,
{
    if n == 0 {
        true
    } else if i < p.len() && hex_char(p[i]) {
        check_all_hex(p, i + 1, n - 1)
    } else {
        false
    }
}

/// The place after a number in braces whose digits begin at `start`.
pub fn find_hex_braced(p: &Vec<char>, start: usize, e: usize) -> (r: Option<usize>)
    ensures
        r == hex_braced(p@, start, e),
        r matches Some(n) ==> e < n <= p.len(),
    decreases p.len() - e,
{
    if e >= p.len() || e < start {
        None
    } else if e > start && p[e] == '}' {
        Some(e + 1)
    } else if hex_char(p[e]) && e - start < 8 {
        find_hex_braced(p, start, e + 1)
    } else {
        None
    }
}

/// The place after the number of a character that begins at `i`.
pub fn find_hex_end(p: &Vec<char>, i: usize, digits: usize) -> (r: Option<usize>)
    ensures
        r == hex_end(p@, i, digits),
        r matches Some(e) ==> i <= e <= p.len(),
{
    if i >= p.len() {
        None
    } else if digits <= p.len() - i && check_all_hex(p, i, digits) {
        Some(i + digits)
    } else if p[i] == '{' {
        find_hex_braced(p, i + 1, i + 1)
    } else {
        None
    }
}

/// The place after the escape whose backslash stands at `j`, with the
/// least size of what it matches.
pub fn find_escape_end(p: &Vec<char>, j: usize) -> (r: Option<(usize, usize)>)
    requires
        j < p.len(),
    ensures
        r == escape_end(p@, j),
        r matches Some(e) ==> j < e.0 <= p.len() && e.1 <= 1,
{
    if p.len() - j <= 1 {
        None
    } else {
        let b = p[j + 1];
        if digit_char(b) || b == 'k' || b == 'K' {
            None
        } else if b == 'x' || b == 'u' || b == 'U' {
            let digits: usize = if b == 'x' {
                2
            } else if b == 'u' {
                4
            } else {
                8
            };
            match find_hex_end(p, j + 2, digits) {
                Some(e) => Some((e, 1)),
                None => None,
            }
        } else if b == 'p' || b == 'P' {
            if p.len() - j <= 2 {
                None
            } else if p[j + 2] == '{' {
                match find_after_char(p, j + 3, '}') {
                    Some(e) => Some((e, 1)),
                    None => None,
                }
            } else {
                Some((j + 3, 1))
            }
        } else if b == 'A' || b == 'z' || b == 'b' || b == 'B' || b == 'G' {
            Some((j + 2, 0))
        } else if (('a' <= b && b <= 'z') || ('A' <= b && b <= 'Z')) && !(b == 'A' || b == 'z' || b
            == 'b' || b == 'B' || b == 'd' || b == 'D' || b == 's' || b == 'S' || b == 'w' || b
            == 'W' || b == 'a' || b == 'f' || b == 'n' || b == 'r' || b == 't' || b == 'v' || b
            == 'e' || b == 'h' || b == 'H' || b == 'G') {
            None
        } else {
            Some((j + 2, 1))
        }
    }
}

/// The place after the `]` that ends a class, read up to `k`.
pub fn find_class_body(p: &Vec<char>, k: usize, nest: usize) -> (r: Option<usize>)
    ensures
        r == class_body(p@, k, nest),
        r matches Some(e) ==> k < e <= p.len(),
    decreases p.len() - k,
{
    if k >= p.len() || nest == 0 || nest > k {
        None
    } else if p[k] == '\\' {
        match find_escape_end(p, k) {
            None => None,
            Some(e) => if e.0 <= k || e.0 > p.len() {
                None
            } else {
                find_class_body(p, e.0, nest)
            },
        }
    } else if p[k] == '[' {
        find_class_body(p, k + 1, nest + 1)
    } else if p[k] == ']' {
        if nest == 1 {
            Some(k + 1)
        } else {
            find_class_body(p, k + 1, nest - 1)
        }
    } else {
        find_class_body(p, k + 1, nest)
    }
}

/// The place after the class whose `[` stands at `i`.
pub fn find_class_end(p: &Vec<char>, i: usize) -> (r: Option<usize>)
    ensures
        r == class_end(p@, i),
        r matches Some(e) ==> i < e <= p.len(),
{
    if i >= p.len() {
        None
    } else {
        let a = if p.len() - i > 1 && p[i + 1] == '^' {
            i + 2
        } else {
            i + 1
        };
        let b = if a < p.len() && p[a] == ']' {
            a + 1
        } else {
            a
        };
        find_class_body(p, b, 1)
    }
}

/// The digits from `i` on read as a decimal number, with the place after
/// them.
pub fn read_decimal_from(p: &Vec<char>, i: usize, acc: Option<usize>) -> (r: (usize, Option<usize>))
    requires
        i <= p.len(),
    ensures
        r == decimal_from(p@, i, acc),
        i <= r.0 <= p.len(),
    decreases p.len() - i,
{
    if i >= p.len() || !digit_char(p[i]) {
        (i, acc)
    } else {
        let d = value_of_digit(p[i]);
        let more = match acc {
            Some(a) => if a > (usize::MAX - d) / 10 {
                None
            } else {
                Some(a * 10 + d)
            },
            None => None,
        };
        read_decimal_from(p, i + 1, more)
    }
}

/// The decimal number at `i` with the place after it.
pub fn read_decimal_at(p: &Vec<char>, i: usize) -> (r: Option<(usize, usize)>)
    requires
        i <= p.len(),
    ensures
        r == decimal_at(p@, i),
        r matches Some(d) ==> i < d.0 <= p.len(),
{
    let r = read_decimal_from(p, i, Some(0));
    match r.1 {
        Some(v) => if r.0 == i {
            None
        } else {
            Some((r.0, v))
        },
        None => None,
    }
}

/// The place after the repeat in braces whose `{` stands at `j`, with its
/// lower bound.
pub fn find_repeat_at(p: &Vec<char>, j: usize, x: bool) -> (r: Option<(usize, usize)>)
    ensures
        r == repeat_at(p@, j, x),
        r matches Some(e) ==> j < e.0 <= p.len(),
{
    if j >= p.len() {
        return None;
    }
    let a = match pass_space(p, j + 1, x) {
        None => {
            return None;
        },
        Some(a) => a,
    };
    if a >= p.len() {
        return None;
    }
    let first = if p[a] == ',' {
        Some((a, 0))
    } else {
        read_decimal_at(p, a)
    };
    let lo = match first {
        None => {
            return None;
        },
        Some(lo) => lo,
    };
    let b = match pass_space(p, lo.0, x) {
        None => {
            return None;
        },
        Some(b) => b,
    };
    if b >= p.len() {
        None
    } else if p[b] == '}' {
        Some((b + 1, lo.1))
    } else if p[b] == ',' {
        let e = match pass_space(p, b + 1, x) {
            None => {
                return None;
            },
            Some(e) => e,
        };
        let end = match read_decimal_at(p, e) {
            Some(hi) => hi.0,
            None => e,
        };
        match pass_space(p, end, x) {
            None => None,
            Some(c) => if c < p.len() && p[c] == '}' {
                Some((c + 1, lo.1))
            } else {
                None
            },
        }
    } else {
        None
    }
}

/// The end of the flags of a group read from `f` on.
pub fn read_flags_from(p: &Vec<char>, f: usize, start: usize, x: bool, neg: bool) -> (r: Option<
    (usize, bool, bool),
>)
    requires
        f <= p.len(),
    ensures
        r == flags_from(p@, f, start, x, neg),
        r matches Some(e) ==> f < e.0 <= p.len(),
    decreases p.len() - f,
{
    match pass_space(p, f, x) {
        None => None,
        Some(g) => if g >= p.len() || g < f {
            None
        } else {
            let b = p[g];
            if b == 'i' || b == 'm' || b == 's' || b == 'U' {
                read_flags_from(p, g + 1, start, x, neg)
            } else if b == 'x' {
                read_flags_from(p, g + 1, start, !neg, neg)
            } else if b == 'u' {
                if neg {
                    None
                } else {
                    read_flags_from(p, g + 1, start, x, neg)
                }
            } else if b == '-' {
                if neg {
                    None
                } else {
                    read_flags_from(p, g + 1, start, x, true)
                }
            } else if b == ')' {
                if g == start || (neg && g > start && g - start == 1) {
                    None
                } else {
                    Some((g + 1, x, false))
                }
            } else if b == ':' {
                if neg && g > start && g - start == 1 {
                    None
                } else {
                    Some((g + 1, x, true))
                }
            } else {
                None
            }
        },
    }
}

/// The smaller of `v` and `best`, where there is one.
pub fn least_of(best: Option<usize>, v: usize) -> (r: usize)
    ensures
        r == least(best, v),
{
    match best {
        Some(b) => if b < v {
            b
        } else {
            v
        },
        None => v,
    }
}

/// Reading goes on at `e` after something of least size `size` that can be
/// repeated.
pub fn go_after_atom(w: Walk, e: usize, size: usize) -> (r: Step)
    ensures
        r == after_atom(w, e, size),
{
    if w.last > usize::MAX - w.total {
        Step::Refuse
    } else {
        Step::Next(
            Walk { i: e, x: w.x, after: true, total: w.total + w.last, last: size, best: w.best },
            Nesting::Same,
        )
    }
}

/// Reading goes on at `e` inside a group that was opened.
pub fn go_into_group(w: Walk, e: usize, x: bool, restore: Option<bool>, look: bool) -> (r: Step)
    ensures
        r == into_group(w, e, x, restore, look),
{
    if w.last > usize::MAX - w.total {
        Step::Refuse
    } else {
        Step::Next(
            Walk { i: e, x: x, after: false, total: 0, last: 0, best: None },
            Nesting::Open(
                Frame { total: w.total + w.last, best: w.best, restore: restore, look: look },
            ),
        )
    }
}

/// The place after a repeat sign that was read up to `k`.
pub fn find_repeat_tail(p: &Vec<char>, k: usize, x: bool) -> (r: Option<usize>)
    requires
        k <= p.len(),
    ensures
        r == repeat_tail(p@, k, x),
        r matches Some(e) ==> k <= e <= p.len(),
{
    match pass_space(p, k, x) {
        None => None,
        Some(a) => {
            let b = if a < p.len() && p[a] == '?' {
                a + 1
            } else {
                a
            };
            let c = if b < p.len() && p[b] == '+' {
                b + 1
            } else {
                b
            };
            Some(c)
        },
    }
}

/// What was read last is repeated at least `lo` times.
pub fn go_after_repeat(p: &Vec<char>, w: Walk, k: usize, lo: usize) -> (r: Step)
    requires
        k <= p.len(),
    ensures
        r == after_repeat(p@, w, k, lo),
        r matches Step::Next(next, _) ==> k <= next.i <= p.len(),
{
    if w.last != 0 && lo > usize::MAX / w.last {
        Step::Refuse
    } else {
        match find_repeat_tail(p, k, w.x) {
            None => Step::Refuse,
            Some(e) => {
                assert(w.last * lo <= usize::MAX) by (nonlinear_arith)
                    requires
                        w.last == 0 || (lo as int) <= (usize::MAX as int) / (w.last as int),
                ;
                Step::Next(
                    Walk {
                        i: e,
                        x: w.x,
                        after: false,
                        total: w.total,
                        last: w.last * lo,
                        best: w.best,
                    },
                    Nesting::Same,
                )
            },
        }
    }
}

/// The step at the `(` of a group at `j`.
pub fn take_group_step(p: &Vec<char>, w: Walk, j: usize) -> (r: Step)
    ensures
        r == group_step(p@, w, j),
        r matches Step::Next(next, _) ==> j < next.i <= p.len(),
{
    if j >= p.len() {
        return Step::Refuse;
    }
    let k = match pass_space(p, j + 1, w.x) {
        None => {
            return Step::Refuse;
        },
        Some(k) => k,
    };
    if k >= p.len() || p[k] != '?' {
        go_into_group(w, k, w.x, None, false)
    } else if p.len() - k <= 1 {
        Step::Refuse
    } else {
        let b = p[k + 1];
        if b == '=' || b == '!' {
            go_into_group(w, k + 2, w.x, None, true)
        } else if b == '<' {
            if p.len() - k > 2 && (p[k + 2] == '=' || p[k + 2] == '!') {
                go_into_group(w, k + 3, w.x, None, true)
            } else {
                match find_after_char(p, k + 2, '>') {
                    None => Step::Refuse,
                    Some(e) => go_into_group(w, e, w.x, None, false),
                }
            }
        } else if b == 'P' {
            if p.len() - k > 2 && p[k + 2] == '<' {
                match find_after_char(p, k + 3, '>') {
                    None => Step::Refuse,
                    Some(e) => go_into_group(w, e, w.x, None, false),
                }
            } else {
                Step::Refuse
            }
        } else if b == '>' {
            go_into_group(w, k + 2, w.x, None, false)
        } else if b == '(' {
            Step::Refuse
        } else {
            match read_flags_from(p, k + 1, k + 1, w.x, false) {
                None => Step::Refuse,
                Some(f) => if f.2 {
                    go_into_group(w, f.0, f.1, Some(w.x), false)
                } else {
                    go_after_atom(
                        Walk {
                            i: w.i,
                            x: f.1,
                            after: w.after,
                            total: w.total,
                            last: w.last,
                            best: w.best,
                        },
                        f.0,
                        0,
                    )
                },
            }
        }
    }
}

/// The step at `j`, where something begins or a branch or group ends.
pub fn take_atom_step(p: &Vec<char>, w: Walk, top: Option<Frame>, j: usize) -> (r: Step)
    ensures
        r == atom_step(p@, w, top, j),
        r matches Step::Next(next, _) ==> j < next.i <= p.len(),
{
    if j >= p.len() {
        return Step::Refuse;
    }
    let c = p[j];
    if c == '.' {
        go_after_atom(w, j + 1, 1)
    } else if c == '^' || c == '$' {
        go_after_atom(w, j + 1, 0)
    } else if c == '(' {
        take_group_step(p, w, j)
    } else if c == '\\' {
        match find_escape_end(p, j) {
            None => Step::Refuse,
            Some(e) => go_after_atom(w, e.0, e.1),
        }
    } else if c == '+' || c == '*' || c == '?' {
        Step::Refuse
    } else if c == '|' {
        if w.last > usize::MAX - w.total {
            Step::Refuse
        } else {
            Step::Next(
                Walk {
                    i: j + 1,
                    x: w.x,
                    after: false,
                    total: 0,
                    last: 0,
                    best: Some(least_of(w.best, w.total + w.last)),
                },
                Nesting::Same,
            )
        }
    } else if c == ')' {
        match top {
            None => Step::Refuse,
            Some(frame) => if w.last > usize::MAX - w.total {
                Step::Refuse
            } else {
                Step::Next(
                    Walk {
                        i: j + 1,
                        x: match frame.restore {
                            Some(old) => old,
                            None => w.x,
                        },
                        after: true,
                        total: frame.total,
                        last: if frame.look {
                            0
                        } else {
                            least_of(w.best, w.total + w.last)
                        },
                        best: frame.best,
                    },
                    Nesting::Close,
                )
            },
        }
    } else if c == '[' {
        match find_class_end(p, j) {
            None => Step::Refuse,
            Some(e) => go_after_atom(w, e, 1),
        }
    } else {
        go_after_atom(w, j + 1, 1)
    }
}

/// One step of reading the pattern as the engine reads it.
pub fn take_step(p: &Vec<char>, w: Walk, top: Option<Frame>) -> (r: Step)
    requires
        w.i <= p.len(),
    ensures
        r == step(p@, w, top),
        r matches Step::Next(next, _) ==> w.i < next.i <= p.len(),
{
    match pass_space(p, w.i, w.x) {
        None => Step::Refuse,
        Some(j) => {
            if j >= p.len() {
                if w.last > usize::MAX - w.total {
                    Step::Refuse
                } else {
                    Step::Done
                }
            } else if w.after && (p[j] == '?' || p[j] == '*') {
                go_after_repeat(p, w, j + 1, 0)
            } else if w.after && p[j] == '+' {
                go_after_repeat(p, w, j + 1, 1)
            } else if w.after && p[j] == '{' {
                match find_repeat_at(p, j, w.x) {
                    Some(e) => go_after_repeat(p, w, e.0, e.1),
                    None => take_atom_step(p, w, top, j),
                }
            } else {
                take_atom_step(p, w, top, j)
            }
        },
    }
}

/// Tells whether the engine reads `pattern` to its end and finds in it no
/// back-reference, no condition on a group and no keep-out, with least
/// sizes that fit.
pub fn is_safe_pattern(pattern: &str) -> (b: bool)
    ensures
        b == safe_pattern(pattern@),
{
    let p = chars_of(pattern);
    let mut w = Walk { i: 0, x: false, after: false, total: 0, last: 0, best: None };
    let mut stack: Vec<Frame> = Vec::new();
    assert(stack@ =~= Seq::<Frame>::empty());
    loop
        invariant
            p@ == pattern@,
            w.i <= p.len(),
            safe_pattern(pattern@) == read_from(p@, w, stack@),
        decreases p.len() - w.i,
    {
        let top = if stack.len() == 0 {
            None
        } else {
            Some(stack[stack.len() - 1])
        };
        match take_step(&p, w, top) {
            Step::Refuse => {
                return false;
            },
            Step::Done => {
                return true;
            },
            Step::Next(next, nesting) => {
                match nesting {
                    Nesting::Same => {},
                    Nesting::Open(frame) => {
                        stack.push(frame);
                    },
                    Nesting::Close => {
                        if stack.len() == 0 {
                            return false;
                        }
                        let ghost before = stack@;
                        stack.pop();
                        assert(stack@ =~= before.drop_last());
                    },
                }
                w = next;
            },
        }
    }
}

} // verus!
