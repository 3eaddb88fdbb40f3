//! The grammar of a custom UFS trace line (CSV):
//!
//! `^(?P<opcode>0x[0-9a-f]+),(?P<lba>\d+),(?P<size>\d+),(?P<start_time>\d+(?:\.\d+)?),(?P<end_time>\d+(?:\.\d+)?)$`
//!
//! Every part of it has one way to match, so a line either matches in one
//! way or not at all.
use vstd::prelude::*;
use crate::scan::{CharClass, Caps, caps_match, caps_shape, pairs, run_end, scan};
use crate::text::occurs_at;
use crate::ufs_line::lit_at;

verus! {

broadcast use vstd::string::group_string_axioms;

/// End of `\d+(?:\.\d+)?` starting at `j`, or -1 where there is no digit.
pub open spec fn number_end(s: Seq<char>, j: int) -> int {
    let a = run_end(s, j, CharClass::Nd);
    if a > j {
        if a < s.len() && s[a] == '.' && run_end(s, a + 1, CharClass::Nd) > a + 1 {
            run_end(s, a + 1, CharClass::Nd)
        } else {
            a
        }
    } else {
        -1
    }
}

/// The captures of a custom line, from `end_time` back to `opcode`:
/// `[end_time, start_time, size, lba, opcode]`.
pub open spec fn custom_captures(s: Seq<char>) -> Option<Caps> {
    if occurs_at(s, 0, "0x"@) {
        let h = run_end(s, 2, CharClass::LowerHex);
        let l = run_end(s, h + 1, CharClass::Nd);
        let z = run_end(s, l + 1, CharClass::Nd);
        if h > 2 && h < s.len() && s[h] == ',' && l > h + 1 && l < s.len() && s[l] == ',' && z > l
            + 1 && z < s.len() && s[z] == ',' {
            let st = number_end(s, z + 1);
            if st > z + 1 && st < s.len() && s[st] == ',' {
                let en = number_end(s, st + 1);
                if en > st + 1 && en == s.len() {
                    Some(seq![(st + 1, en), (z + 1, st), (l + 1, z), (h + 1, l), (0, h)])
                } else {
                    None
                }
            } else {
                None
            }
        } else {
            None
        }
    } else {
        None
    }
}

fn number_end_exec(chars: &[char], j: usize) -> (r: Option<usize>)
    requires
        j <= chars@.len(),
    ensures
        match r {
            Some(e) => e as int == number_end(chars@, j as int) && e <= chars@.len(),
            None => number_end(chars@, j as int) == -1,
        },
{
    let a = scan(chars, j, CharClass::Nd);
    if a > j {
        if a < chars.len() && chars[a] == '.' {
            let b = scan(chars, a + 1, CharClass::Nd);
            if b > a + 1 {
                return Some(b);
            }
        }
        Some(a)
    } else {
        None
    }
}

/// The captures of a custom line (see `custom_captures`).
pub fn custom_captures_exec(chars: &[char]) -> (res: Option<Vec<(usize, usize)>>)
    ensures
        caps_match(res, custom_captures(chars@)),
        caps_shape(res, chars@.len() as int, 5),
{
    proof {
        reveal_strlit("0x");
        assert("0x"@.len() == 2);
    }
    let n = chars.len();
    if !lit_at(chars, 0, "0x") {
        return None;
    }
    let h = scan(chars, 2, CharClass::LowerHex);
    if !(h > 2 && h < n && chars[h] == ',') {
        return None;
    }
    let l = scan(chars, h + 1, CharClass::Nd);
    if !(l > h + 1 && l < n && chars[l] == ',') {
        return None;
    }
    let z = scan(chars, l + 1, CharClass::Nd);
    if !(z > l + 1 && z < n && chars[z] == ',') {
        return None;
    }
    let st = match number_end_exec(chars, z + 1) {
        Some(st) => st,
        None => {
            return None;
        },
    };
    if !(st > z + 1 && st < n && chars[st] == ',') {
        return None;
    }
    let en = match number_end_exec(chars, st + 1) {
        Some(en) => en,
        None => {
            return None;
        },
    };
    if !(en > st + 1 && en == n) {
        return None;
    }
    let mut v: Vec<(usize, usize)> = Vec::new();
    v.push((st + 1, en));
    v.push((z + 1, st));
    v.push((l + 1, z));
    v.push((h + 1, l));
    v.push((0, h));
    assert(pairs(v@) =~= seq![
        ((st + 1) as int, en as int),
        ((z + 1) as int, st as int),
        ((l + 1) as int, z as int),
        ((h + 1) as int, l as int),
        (0int, h as int),
    ]);
    Some(v)
}

} // verus!
