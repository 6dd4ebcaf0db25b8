//! Extraction of the first bracket-balanced region of a text.
//!
//! The scan keeps a bracket depth counter: an opening bracket raises it, a
//! closing bracket lowers it, and every character seen while the depth is
//! positive is collected.  The collected region is returned as soon as a
//! closing bracket brings the depth back to exactly zero; if that never
//! happens, nothing is returned.  An unmatched closing bracket before the
//! first opening one drives the depth negative, so a later single opening
//! bracket only restores it to zero — a quirk of the counter that is part of
//! the behaviour.

use vstd::prelude::*;

verus! {

/// The scan state after `i` characters: `depth` open brackets (possibly
/// negative), `acc` the collected region so far.  Returns the completed
/// region, or nothing when the text ends first.
pub open spec fn bracket_fold(text: Seq<char>, i: int, depth: int, acc: Seq<char>) -> Option<
    Seq<char>,
>
    decreases text.len() - i,
{
    if i < 0 || i >= text.len() {
        Option::None
    } else {
        let c = text[i];
        let d1 = if c == '[' {
            depth + 1
        } else {
            depth
        };
        let acc1 = if d1 > 0 {
            acc.push(c)
        } else {
            acc
        };
        if c == ']' {
            if d1 - 1 == 0 {
                Option::Some(acc1)
            } else {
                bracket_fold(text, i + 1, d1 - 1, acc1)
            }
        } else {
            bracket_fold(text, i + 1, d1, acc1)
        }
    }
}

/// The first balanced bracket region of the text, if the scan completes one.
pub open spec fn bracket_region(text: Seq<char>) -> Option<Seq<char>> {
    bracket_fold(text, 0, 0, Seq::<char>::empty())
}

/// Returns the first balanced bracket region of `text` as a one-element list,
/// or an empty list when the scan never closes a region.
pub fn get_list(text: &str) -> (result: Vec<String>)
    ensures
        bracket_region(text@) is Some ==> result@.len() == 1 && result@[0]@ == bracket_region(
            text@,
        )->Some_0,
        bracket_region(text@) is None ==> result@.len() == 0,
{
    let n = text.unicode_len();
    let mut i: usize = 0;
    let mut depth: i128 = 0;
    let mut start: usize = 0;
    let ghost mut acc_v: Seq<char> = Seq::<char>::empty();
    while i < n
        invariant
            i <= n,
            n as nat == text@.len(),
            -(i as int) <= depth as int <= i as int,
            depth > 0 ==> start <= i && acc_v == text@.subrange(start as int, i as int),
            depth <= 0 ==> acc_v == Seq::<char>::empty(),
            bracket_region(text@) == bracket_fold(text@, i as int, depth as int, acc_v),
        decreases n - i,
    {
        let ghost is = i as int;
        let ghost d0 = depth as int;
        let ghost acc0 = acc_v;
        let c = text.get_char(i);
        if c == '[' {
            if depth == 0 {
                start = i;
            }
            depth += 1;
            proof {
                if depth > 0 {
                    acc_v = acc_v.push(c);
                    assert(acc0.push(c) =~= text@.subrange(start as int, is + 1));
                }
                assert(bracket_fold(text@, is, d0, acc0) == bracket_fold(
                    text@,
                    is + 1,
                    depth as int,
                    acc_v,
                ));
            }
        } else if c == ']' {
            if depth == 1 {
                let seg = text.substring_char(start, i + 1);
                let region = seg.to_owned();
                let mut result: Vec<String> = Vec::new();
                result.push(region);
                proof {
                    assert(acc0.push(c) =~= text@.subrange(start as int, is + 1));
                    assert(bracket_fold(text@, is, d0, acc0) == Option::Some(
                        text@.subrange(start as int, is + 1),
                    ));
                }
                return result;
            }
            proof {
                if depth as int > 0 {
                    acc_v = acc_v.push(c);
                    assert(acc0.push(c) =~= text@.subrange(start as int, is + 1));
                }
                assert(bracket_fold(text@, is, d0, acc0) == bracket_fold(
                    text@,
                    is + 1,
                    d0 - 1,
                    acc_v,
                ));
            }
            depth -= 1;
        } else {
            proof {
                if depth as int > 0 {
                    acc_v = acc_v.push(c);
                    assert(acc0.push(c) =~= text@.subrange(start as int, is + 1));
                }
                assert(bracket_fold(text@, is, d0, acc0) == bracket_fold(
                    text@,
                    is + 1,
                    d0,
                    acc_v,
                ));
            }
        }
        i += 1;
    }
    let result: Vec<String> = Vec::new();
    result
}

} // verus!
