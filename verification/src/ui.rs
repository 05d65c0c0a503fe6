//! ANSI coloring helpers. Whether color is wanted (a terminal, no
//! `NO_COLOR`) is decided by the caller and passed in as `enabled`.

use vstd::prelude::*;

use crate::text::{chars_of, push_char, push_str, starts_with, trim_start, trim_start_chars};

verus! {

/// `s` wrapped in the escape sequence for `code` and the reset sequence, when
/// color is enabled; `s` itself otherwise.
pub open spec fn painted(enabled: bool, code: Seq<char>, s: Seq<char>) -> Seq<char> {
    if enabled {
        seq!['\u{1b}'] + "["@ + code + "m"@ + s + seq!['\u{1b}'] + "[0m"@
    } else {
        s
    }
}

pub fn paint(enabled: bool, code: &str, s: &str) -> (r: String)
    ensures
        r@ == painted(enabled, code@, s@),
{
    let mut r = String::new();
    if enabled {
        push_char(&mut r, '\u{1b}');
        push_str(&mut r, "[");
        push_str(&mut r, code);
        push_str(&mut r, "m");
        push_str(&mut r, s);
        push_char(&mut r, '\u{1b}');
        push_str(&mut r, "[0m");
    } else {
        push_str(&mut r, s);
    }
    assert(r@ =~= painted(enabled, code@, s@));
    r
}

pub fn dim(enabled: bool, s: &str) -> (r: String)
    ensures
        r@ == painted(enabled, "2"@, s@),
{
    paint(enabled, "2", s)
}

pub fn cyan(enabled: bool, s: &str) -> (r: String)
    ensures
        r@ == painted(enabled, "36"@, s@),
{
    paint(enabled, "36", s)
}

pub fn yellow(enabled: bool, s: &str) -> (r: String)
    ensures
        r@ == painted(enabled, "33"@, s@),
{
    paint(enabled, "33", s)
}

pub fn green(enabled: bool, s: &str) -> (r: String)
    ensures
        r@ == painted(enabled, "32"@, s@),
{
    paint(enabled, "32", s)
}

pub fn red(enabled: bool, s: &str) -> (r: String)
    ensures
        r@ == painted(enabled, "31"@, s@),
{
    paint(enabled, "31", s)
}

/// Colors a diff-preview line by its leading marker, ignoring indentation:
/// `+` green, `-` red, anything else dim.
pub fn diff_line(enabled: bool, line: &str) -> (r: String)
    ensures
        r@ == (if starts_with(trim_start(line@), seq!['+']) {
            painted(enabled, "32"@, line@)
        } else if starts_with(trim_start(line@), seq!['-']) {
            painted(enabled, "31"@, line@)
        } else {
            painted(enabled, "2"@, line@)
        }),
{
    let l = chars_of(line);
    let t = trim_start_chars(&l);
    proof {
        if t@.len() > 0 {
            assert(t@.take(1) =~= seq![t@[0]]);
            if t@[0] == '+' {
                assert(t@.take(1) =~= seq!['+']);
            } else {
                assert(t@.take(1)[0] != seq!['+'][0]);
            }
            if t@[0] == '-' {
                assert(t@.take(1) =~= seq!['-']);
            } else {
                assert(t@.take(1)[0] != seq!['-'][0]);
            }
        }
    }
    if t.len() > 0 && t[0] == '+' {
        green(enabled, line)
    } else if t.len() > 0 && t[0] == '-' {
        red(enabled, line)
    } else {
        dim(enabled, line)
    }
}

} // verus!
