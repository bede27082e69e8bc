//! Normalization of configuration option names: underscores become
//! hyphens and trailing hyphens are dropped, key by key; values are copied
//! unchanged.

use vstd::prelude::*;

use crate::encodings::{chars_to_string, string_to_chars};

verus! {

/// One character of a key after hyphenation.
pub open spec fn hyphen_char(c: char) -> char {
    if c == '_' {
        '-'
    } else {
        c
    }
}

/// A key with every underscore replaced by a hyphen.
pub open spec fn map_hyphen(s: Seq<char>) -> Seq<char> {
    s.map_values(|c: char| hyphen_char(c))
}

/// A key with every trailing hyphen removed.
pub open spec fn strip_trailing_hyphens(s: Seq<char>) -> Seq<char>
    decreases s.len(),
{
    if s.len() > 0 && s.last() == '-' {
        strip_trailing_hyphens(s.drop_last())
    } else {
        s
    }
}

/// The normalized form of an option key: hyphens for underscores, then no
/// trailing hyphens.
pub open spec fn hyphenated_key(s: Seq<char>) -> Seq<char> {
    strip_trailing_hyphens(map_hyphen(s))
}

/// Normalize one option key.
pub fn hyphenate_key(key: &str) -> (r: String)
    ensures
        r@ == hyphenated_key(key@),
{
    let chars = string_to_chars(key);
    let n = chars.len();
    let mut mapped: Vec<char> = Vec::new();
    let mut i: usize = 0;
    while i < n
        invariant
            i <= n,
            n == chars@.len(),
            chars@ == key@,
            mapped@.len() == i,
            forall|j: int| 0 <= j < i ==> mapped@[j] == hyphen_char(chars@[j]),
        decreases n - i,
    {
        let c = chars[i];
        mapped.push(if c == '_' {
            '-'
        } else {
            c
        });
        i = i + 1;
    }
    proof {
        assert(mapped@ =~= map_hyphen(key@));
        assert(mapped@.take(n as int) =~= mapped@);
    }
    let mut end = n;
    while end > 0 && mapped[end - 1] == '-'
        invariant
            end <= n == mapped@.len(),
            strip_trailing_hyphens(mapped@) == strip_trailing_hyphens(mapped@.take(end as int)),
        decreases end,
    {
        proof {
            let cur = mapped@.take(end as int);
            assert(cur.last() == mapped@[end - 1]);
            assert(cur.drop_last() =~= mapped@.take(end - 1));
        }
        end = end - 1;
    }
    proof {
        let cur = mapped@.take(end as int);
        if end > 0 {
            assert(cur.last() == mapped@[end - 1]);
        }
        assert(strip_trailing_hyphens(cur) == cur);
    }
    let mut kept: Vec<char> = Vec::new();
    let mut j: usize = 0;
    while j < end
        invariant
            j <= end <= mapped@.len(),
            kept@.len() == j,
            forall|x: int| 0 <= x < j ==> kept@[x] == mapped@[x],
        decreases end - j,
    {
        kept.push(mapped[j]);
        j = j + 1;
    }
    proof {
        assert(kept@ =~= mapped@.take(end as int));
    }
    chars_to_string(&kept)
}

/// Normalize every key of an option mapping, copying values unchanged.
/// Where two keys collide after normalization, both pairs are kept in
/// their original order; a reader that walks the result front to back sees
/// the later pair last.
pub fn hyphenatedict(input: &Vec<(String, String)>) -> (r: Vec<(String, String)>)
    ensures
        r@.len() == input@.len(),
        forall|i: int|
            0 <= i < input@.len() ==> (#[trigger] r@[i]).0@ == hyphenated_key(input@[i].0@)
                && r@[i].1@ == input@[i].1@,
{
    let n = input.len();
    let mut out: Vec<(String, String)> = Vec::new();
    let mut i: usize = 0;
    while i < n
        invariant
            i <= n == input@.len(),
            out@.len() == i,
            forall|j: int|
                0 <= j < i ==> (#[trigger] out@[j]).0@ == hyphenated_key(input@[j].0@)
                    && out@[j].1@ == input@[j].1@,
        decreases n - i,
    {
        let key = hyphenate_key(input[i].0.as_str());
        let value = input[i].1.clone();
        out.push((key, value));
        i = i + 1;
    }
    out
}

/// Apply [`hyphenatedict`] to every mapping in the list, independently.
pub fn hyphenatelist(list: &Vec<Vec<(String, String)>>) -> (r: Vec<Vec<(String, String)>>)
    ensures
        r@.len() == list@.len(),
        forall|i: int|
            0 <= i < list@.len() ==> {
                &&& (#[trigger] r@[i])@.len() == list@[i]@.len()
                &&& forall|j: int|
                    0 <= j < list@[i]@.len() ==> (#[trigger] r@[i]@[j]).0@ == hyphenated_key(
                        list@[i]@[j].0@,
                    ) && r@[i]@[j].1@ == list@[i]@[j].1@
            },
{
    let n = list.len();
    let mut out: Vec<Vec<(String, String)>> = Vec::new();
    let mut i: usize = 0;
    while i < n
        invariant
            i <= n == list@.len(),
            out@.len() == i,
            forall|x: int|
                0 <= x < i ==> {
                    &&& (#[trigger] out@[x])@.len() == list@[x]@.len()
                    &&& forall|j: int|
                        0 <= j < list@[x]@.len() ==> (#[trigger] out@[x]@[j]).0@ == hyphenated_key(
                            list@[x]@[j].0@,
                        ) && out@[x]@[j].1@ == list@[x]@[j].1@
                },
        decreases n - i,
    {
        out.push(hyphenatedict(&list[i]));
        i = i + 1;
    }
    out
}

} // verus!
