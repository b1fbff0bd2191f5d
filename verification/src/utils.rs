//! Text in terminal columns.
use vstd::prelude::*;
use vstd::string::StringExecFns;
use unicode_width::UnicodeWidthStr;
use crate::text::{self, repeat_char};

verus! {

/// The number of terminal columns that a text takes, by the rules of the
/// `unicode-width` crate.
pub uninterp spec fn columns(s: Seq<char>) -> nat;

/// The display width of `s`, where East Asian wide characters take two
/// columns.
///
/// This is `unicode_width::UnicodeWidthStr::width`. Its result depends on the
/// text alone. A space takes one column and joins with no character next to
/// it, so spaces at either end add their number to the width; and a text of
/// printable ASCII characters takes one column for each.
#[verifier::external_body]
pub fn display_width(s: &str) -> (w: usize)
    ensures
        w == columns(s@),
        forall|l: nat, r: nat|
            l + w + r <= usize::MAX ==> #[trigger] columns(
                text::repeated(' ', l) + s@ + text::repeated(' ', r),
            ) == l + w + r,
        (forall|i: int| 0 <= i < s@.len() ==> 0x20 <= #[trigger] s@[i] as u32 <= 0x7e) ==> w
            == s@.len(),
{
    UnicodeWidthStr::width(s)
}

/// How many spaces a text lacks to take `width` columns.
pub open spec fn missing(s: Seq<char>, width: nat) -> nat {
    if columns(s) >= width {
        0
    } else {
        (width - columns(s)) as nat
    }
}

/// `s` with the missing spaces behind it.
pub open spec fn padded_right(s: Seq<char>, width: nat) -> Seq<char> {
    s + text::repeated(' ', missing(s, width))
}

/// `s` with the missing spaces before it.
pub open spec fn padded_left(s: Seq<char>, width: nat) -> Seq<char> {
    text::repeated(' ', missing(s, width)) + s
}

/// `s` between the missing spaces; if their number is odd, one more stands
/// behind it than before it.
pub open spec fn padded_center(s: Seq<char>, width: nat) -> Seq<char> {
    let lack = missing(s, width);
    text::repeated(' ', lack / 2) + s + text::repeated(' ', (lack - lack / 2) as nat)
}

/// The larger of two widths.
pub open spec fn wider(a: nat, b: nat) -> nat {
    if a >= b {
        a
    } else {
        b
    }
}

/// Pads `s` on the right to the display width `width`. A text that is wider
/// stays as it is.
pub fn pad_right(s: &str, width: usize) -> (padded: String)
    ensures
        padded@ == padded_right(s@, width as nat),
        columns(padded@) == wider(columns(s@), width as nat),
{
    let w: usize = display_width(s);
    let lack: usize = if w >= width {
        0
    } else {
        width - w
    };
    let mut padded: String = s.to_owned();
    padded.append(repeat_char(' ', lack).as_str());
    assert(padded@ =~= text::repeated(' ', 0) + s@ + text::repeated(' ', lack as nat));
    padded
}

/// Pads `s` on the left to the display width `width`. A text that is wider
/// stays as it is.
pub fn pad_left(s: &str, width: usize) -> (padded: String)
    ensures
        padded@ == padded_left(s@, width as nat),
        columns(padded@) == wider(columns(s@), width as nat),
{
    let w: usize = display_width(s);
    let lack: usize = if w >= width {
        0
    } else {
        width - w
    };
    let mut padded: String = repeat_char(' ', lack);
    padded.append(s);
    assert(padded@ =~= text::repeated(' ', lack as nat) + s@ + text::repeated(' ', 0));
    padded
}

/// Centers `s` in the display width `width`. A text that is wider stays as it
/// is.
pub fn pad_center(s: &str, width: usize) -> (padded: String)
    ensures
        padded@ == padded_center(s@, width as nat),
        columns(padded@) == wider(columns(s@), width as nat),
{
    let w: usize = display_width(s);
    let lack: usize = if w >= width {
        0
    } else {
        width - w
    };
    let left: usize = lack / 2;
    let right: usize = lack - left;
    let mut padded: String = repeat_char(' ', left);
    padded.append(s);
    padded.append(repeat_char(' ', right).as_str());
    padded
}

/// A text that is at least `width` columns wide is not changed by padding.
pub proof fn law_wide_text_unchanged(s: Seq<char>, width: nat)
    requires
        columns(s) >= width,
    ensures
        padded_right(s, width) == s,
        padded_left(s, width) == s,
        padded_center(s, width) == s,
{
    assert(padded_right(s, width) =~= s);
    assert(padded_left(s, width) =~= s);
    assert(padded_center(s, width) =~= s);
}

/// A text that is not `width` columns wide gets as many spaces as it lacks:
/// behind it, before it, or half of them on each side, with an odd one behind
/// it. The text itself stays whole.
pub proof fn law_padding(s: Seq<char>, width: nat, left: nat, right: nat)
    requires
        columns(s) + left + right == width,
        left <= right <= left + 1,
    ensures
        padded_right(s, width) == s + Seq::new(left + right, |i: int| ' '),
        padded_left(s, width) == Seq::new(left + right, |i: int| ' ') + s,
        padded_center(s, width) == Seq::new(left, |i: int| ' ') + s + Seq::new(right, |i: int| ' '),
{
    assert(missing(s, width) == left + right);
    assert((left + right) / 2 == left);
    assert(text::repeated(' ', left + right) =~= Seq::new(left + right, |i: int| ' '));
    assert(text::repeated(' ', left) =~= Seq::new(left, |i: int| ' '));
    assert(text::repeated(' ', right) =~= Seq::new(right, |i: int| ' '));
}

/// The larger of two widths is one of them, and not smaller than either.
pub proof fn law_wider(a: nat, b: nat)
    ensures
        wider(a, b) == a || wider(a, b) == b,
        wider(a, b) >= a,
        wider(a, b) >= b,
{
}

} // verus!
