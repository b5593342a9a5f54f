//! Parsing of separated tabular text: rows and fields of a character-
//! separated file, and the request/response shapes around an import.

use vstd::prelude::*;

use crate::error::PrimeclueErr;
use crate::numbers::{parse_usize, spec_parse_usize};
use crate::serialization::serializator::is_ws_char;

verus! {

/// Index of the first occurrence of a character.
pub open spec fn find_char(s: Seq<char>, c: char) -> Option<int>
    decreases s.len(),
{
    if s.len() == 0 {
        None
    } else if s[0] == c {
        Some(0)
    } else {
        match find_char(s.drop_first(), c) {
            Some(i) => Some(i + 1),
            None => None,
        }
    }
}

/// The first occurrence lies inside the sequence.
pub proof fn lemma_find_char_bounds(s: Seq<char>, c: char)
    ensures
        match find_char(s, c) {
            Some(i) => 0 <= i < s.len() && s[i] == c,
            None => true,
        },
    decreases s.len(),
{
    if s.len() > 0 && s[0] != c {
        lemma_find_char_bounds(s.drop_first(), c);
    }
}

/// Splits at every occurrence of a character, keeping empty pieces, as
/// `str::split` does.
pub open spec fn split_char(s: Seq<char>, c: char) -> Seq<Seq<char>>
    decreases s.len(),
    via split_char_decreases
{
    match find_char(s, c) {
        None => seq![s],
        Some(i) => seq![s.take(i)] + split_char(s.skip(i + 1), c),
    }
}

#[via_fn]
proof fn split_char_decreases(s: Seq<char>, c: char) {
    lemma_find_char_bounds(s, c);
}

/// Index of the first occurrence of a pattern.
pub open spec fn find_sub(s: Seq<char>, p: Seq<char>) -> Option<int>
    decreases s.len(),
{
    if p.len() == 0 {
        Some(0)
    } else if s.len() < p.len() {
        None
    } else if s.take(p.len() as int) == p {
        Some(0)
    } else {
        match find_sub(s.drop_first(), p) {
            Some(i) => Some(i + 1),
            None => None,
        }
    }
}

/// The first pattern occurrence lies inside the sequence.
pub proof fn lemma_find_sub_bounds(s: Seq<char>, p: Seq<char>)
    requires
        p.len() > 0,
    ensures
        match find_sub(s, p) {
            Some(i) => 0 <= i && i + p.len() <= s.len() && s.subrange(i, i + p.len() as int) == p,
            None => true,
        },
    decreases s.len(),
{
    if s.len() >= p.len() {
        if s.take(p.len() as int) == p {
            assert(s.subrange(0, p.len() as int) =~= s.take(p.len() as int));
        } else {
            lemma_find_sub_bounds(s.drop_first(), p);
            match find_sub(s.drop_first(), p) {
                Some(i) => {
                    assert(s.subrange(i + 1, i + 1 + p.len() as int) =~= s.drop_first().subrange(
                        i,
                        i + p.len() as int,
                    ));
                },
                None => {},
            }
        }
    }
}

/// Splits at every occurrence of a non-empty pattern, keeping empty pieces,
/// as `str::split` does with a string pattern.
pub open spec fn split_sub(s: Seq<char>, p: Seq<char>) -> Seq<Seq<char>>
    decreases s.len(),
    via split_sub_decreases
{
    if p.len() == 0 {
        seq![s]
    } else {
        match find_sub(s, p) {
            None => seq![s],
            Some(i) => seq![s.take(i)] + split_sub(s.skip(i + p.len() as int), p),
        }
    }
}

#[via_fn]
proof fn split_sub_decreases(s: Seq<char>, p: Seq<char>) {
    if p.len() > 0 {
        lemma_find_sub_bounds(s, p);
    }
}

/// The number of leading whitespace characters.
pub open spec fn lead_ws(s: Seq<char>) -> int
    decreases s.len(),
{
    if s.len() == 0 || !is_ws_char(s[0]) {
        0
    } else {
        1 + lead_ws(s.drop_first())
    }
}

/// The number of trailing whitespace characters.
pub open spec fn trail_ws(s: Seq<char>) -> int
    decreases s.len(),
{
    if s.len() == 0 || !is_ws_char(s.last()) {
        0
    } else {
        1 + trail_ws(s.drop_last())
    }
}

/// The leading whitespace fits in the sequence.
pub proof fn lemma_lead_ws_bounds(s: Seq<char>)
    ensures
        0 <= lead_ws(s) <= s.len(),
        forall|i: int| 0 <= i < lead_ws(s) ==> is_ws_char(#[trigger] s[i]),
        lead_ws(s) < s.len() ==> !is_ws_char(s[lead_ws(s)]),
    decreases s.len(),
{
    if s.len() > 0 && is_ws_char(s[0]) {
        lemma_lead_ws_bounds(s.drop_first());
        assert forall|i: int| 0 <= i < lead_ws(s) implies is_ws_char(#[trigger] s[i]) by {
            if i > 0 {
                assert(s.drop_first()[i - 1] == s[i]);
                assert(is_ws_char(s.drop_first()[i - 1]));
            }
        }
        if lead_ws(s) < s.len() {
            assert(s.drop_first()[lead_ws(s) - 1] == s[lead_ws(s)]);
        }
    }
}

/// The trailing whitespace fits in the sequence.
pub proof fn lemma_trail_ws_bounds(s: Seq<char>)
    ensures
        0 <= trail_ws(s) <= s.len(),
        forall|i: int| s.len() - trail_ws(s) <= i < s.len() ==> is_ws_char(#[trigger] s[i]),
        trail_ws(s) < s.len() ==> !is_ws_char(s[s.len() - trail_ws(s) - 1]),
    decreases s.len(),
{
    if s.len() > 0 && is_ws_char(s.last()) {
        lemma_trail_ws_bounds(s.drop_last());
        assert forall|i: int| s.len() - trail_ws(s) <= i < s.len() implies is_ws_char(
            #[trigger] s[i],
        ) by {
            if i < s.len() - 1 {
                assert(s.drop_last()[i] == s[i]);
                assert(is_ws_char(s.drop_last()[i]));
            }
        }
        if trail_ws(s) < s.len() {
            assert(s.drop_last()[s.len() - trail_ws(s) - 1] == s[s.len() - trail_ws(s) - 1]);
        }
    }
}

/// The sequence with its surrounding whitespace removed, as `str::trim`
/// does on ASCII text.
pub open spec fn spec_trim(s: Seq<char>) -> Seq<char> {
    let t = s.skip(lead_ws(s));
    t.take(t.len() - trail_ws(t))
}

/// The rows of separated text: lines trimmed, empty lines dropped, the
/// first remaining line dropped when it is a header, and each line cut at
/// the separator.
pub open spec fn spec_split_to_vec(
    content: Seq<char>,
    separator: Seq<char>,
    ignore_first_row: bool,
) -> Seq<Seq<Seq<char>>> {
    let rows = split_char(content, '\n').map_values(|l: Seq<char>| spec_trim(l)).filter(
        |l: Seq<char>| l.len() != 0,
    );
    let rows = if ignore_first_row && rows.len() > 0 {
        rows.drop_first()
    } else {
        rows
    };
    rows.map_values(|l: Seq<char>| split_sub(l, separator))
}

/// The header row of separated text: the fields of the first line when it
/// is a header, else as many empty names as the first line has fields;
/// extra names follow either way.
pub open spec fn spec_get_header_row(
    content: Seq<char>,
    separator: Seq<char>,
    ignore_first_row: bool,
    names: Seq<Seq<char>>,
) -> Seq<Seq<char>> {
    let first = spec_trim(split_char(content, '\n')[0]);
    let header = if ignore_first_row {
        split_sub(first, separator)
    } else {
        Seq::new(split_sub(first, separator).len(), |i: int| Seq::<char>::empty())
    };
    header + names
}

/// Whether a character occurs in a string slice.
fn str_find_char(s: &str, c: char) -> (r: Option<usize>)
    ensures
        match r {
            Some(i) => find_char(s@, c) == Some(i as int),
            None => find_char(s@, c) is None,
        },
{
    let len = s.unicode_len();
    let mut i: usize = 0;
    while i < len
        invariant
            i <= len == s@.len(),
            forall|j: int| 0 <= j < i ==> s@[j] != c,
        decreases len - i,
    {
        if s.get_char(i) == c {
            proof {
                lemma_find_char_scan(s@, c, i as int);
            }
            return Some(i);
        }
        i = i + 1;
    }
    proof {
        lemma_find_char_scan(s@, c, len as int);
    }
    None
}

/// A linear scan that stops at the first hit computes `find_char`.
proof fn lemma_find_char_scan(s: Seq<char>, c: char, i: int)
    requires
        0 <= i <= s.len(),
        forall|j: int| 0 <= j < i ==> s[j] != c,
        i < s.len() ==> s[i] == c,
    ensures
        i < s.len() ==> find_char(s, c) == Some(i),
        i == s.len() ==> find_char(s, c) is None,
    decreases s.len(),
{
    if s.len() == 0 {
    } else if i == 0 {
    } else {
        assert(forall|j: int| 0 <= j < i - 1 ==> #[trigger] s.drop_first()[j] == s[j + 1]);
        lemma_find_char_scan(s.drop_first(), c, i - 1);
    }
}

/// Splits a string slice at every occurrence of a character.
fn split_by_char<'a>(s: &'a str, c: char) -> (r: Vec<&'a str>)
    ensures
        r.deep_view() == split_char(s@, c),
    decreases s@.len(),
{
    let len = s.unicode_len();
    match str_find_char(s, c) {
        None => {
            let mut out: Vec<&'a str> = Vec::new();
            out.push(s);
            proof {
                assert(out.deep_view() =~= split_char(s@, c));
            }
            out
        },
        Some(i) => {
            proof {
                lemma_find_char_bounds(s@, c);
            }
            let head = s.substring_char(0, i);
            let rest = s.substring_char(i + 1, len);
            proof {
                assert(rest@ =~= s@.skip(i + 1));
                assert(head@ =~= s@.take(i as int));
            }
            let tail = split_by_char(rest, c);
            let mut out: Vec<&'a str> = Vec::new();
            out.push(head);
            let mut tail = tail;
            out.append(&mut tail);
            proof {
                assert(out.deep_view() =~= split_char(s@, c));
            }
            out
        },
    }
}

/// Whether the pattern stands at the given position of the slice.
fn matches_at(s: &str, p: &str, at: usize) -> (r: bool)
    requires
        at + p@.len() <= s@.len(),
        s@.len() <= usize::MAX,
    ensures
        r == (s@.subrange(at as int, at + p@.len() as int) == p@),
{
    let m = p.unicode_len();
    let mut j: usize = 0;
    while j < m
        invariant
            j <= m == p@.len(),
            at + m <= s@.len(),
            s@.len() <= usize::MAX,
            forall|k: int| 0 <= k < j ==> s@[at + k] == p@[k],
        decreases m - j,
    {
        if s.get_char(at + j) != p.get_char(j) {
            proof {
                assert(s@.subrange(at as int, at + p@.len() as int)[j as int] != p@[j as int]);
            }
            return false;
        }
        j = j + 1;
    }
    proof {
        assert(s@.subrange(at as int, at + p@.len() as int) =~= p@);
    }
    true
}

/// Index of the first occurrence of a pattern in a slice.
fn str_find_sub(s: &str, p: &str) -> (r: Option<usize>)
    requires
        p@.len() > 0,
    ensures
        match r {
            Some(i) => find_sub(s@, p@) == Some(i as int),
            None => find_sub(s@, p@) is None,
        },
{
    let len = s.unicode_len();
    let m = p.unicode_len();
    if len < m {
        return None;
    }
    let mut i: usize = 0;
    while i <= len - m
        invariant
            m == p@.len() > 0,
            m <= len == s@.len(),
            i <= len - m + 1,
            forall|j: int|
                0 <= j < i ==> (#[trigger] s@.subrange(j, j + p@.len() as int)) != p@,
        decreases len - i,
    {
        if matches_at(s, p, i) {
            proof {
                lemma_find_sub_scan(s@, p@, i as int);
            }
            return Some(i);
        }
        i = i + 1;
    }
    proof {
        assert forall|j: int| 0 <= j <= s@.len() - p@.len() implies (#[trigger] s@.subrange(
            j,
            j + p@.len() as int,
        )) != p@ by {}
        lemma_find_sub_scan(s@, p@, i as int);
    }
    None
}

/// A linear scan that stops at the first pattern hit computes `find_sub`.
proof fn lemma_find_sub_scan(s: Seq<char>, p: Seq<char>, i: int)
    requires
        p.len() > 0,
        0 <= i,
        i + p.len() <= s.len() + 1,
        forall|j: int| 0 <= j < i ==> (#[trigger] s.subrange(j, j + p.len() as int)) != p,
        i + p.len() <= s.len() ==> s.subrange(i, i + p.len() as int) == p,
    ensures
        i + p.len() <= s.len() ==> find_sub(s, p) == Some(i),
        i + p.len() > s.len() ==> find_sub(s, p) is None,
    decreases s.len(),
{
    if s.len() < p.len() {
    } else if i == 0 {
        if s.take(p.len() as int) != p {
            assert(s.subrange(0, p.len() as int) =~= s.take(p.len() as int));
        } else {
            assert(s.take(p.len() as int) =~= s.subrange(0, p.len() as int));
        }
    } else {
        let zero: int = 0;
        assert(s.subrange(zero, zero + p.len() as int) != p);
        assert(s.take(p.len() as int) =~= s.subrange(zero, zero + p.len() as int));
        assert forall|j: int| 0 <= j < i - 1 implies (#[trigger] s.drop_first().subrange(
            j,
            j + p.len() as int,
        )) != p by {
            assert(s.subrange(j + 1, j + 1 + p.len() as int) != p);
            assert(s.drop_first().subrange(j, j + p.len() as int) =~= s.subrange(
                j + 1,
                j + 1 + p.len() as int,
            )) by {
                assert forall|k: int| 0 <= k < p.len() implies #[trigger] s.drop_first().subrange(
                    j,
                    j + p.len() as int,
                )[k] == s.subrange(j + 1, j + 1 + p.len() as int)[k] by {
                    assert(s.drop_first()[j + k] == s[j + 1 + k]);
                }
            }
        }
        if i - 1 + p.len() <= s.drop_first().len() {
            assert(s.drop_first().subrange(i - 1, i - 1 + p.len() as int) =~= s.subrange(
                i,
                i + p.len() as int,
            )) by {
                assert forall|k: int| 0 <= k < p.len() implies #[trigger] s.drop_first().subrange(
                    i - 1,
                    i - 1 + p.len() as int,
                )[k] == s.subrange(i, i + p.len() as int)[k] by {
                    assert(s.drop_first()[i - 1 + k] == s[i + k]);
                }
            }
        }
        lemma_find_sub_scan(s.drop_first(), p, i - 1);
    }
}

/// Splits a string slice at every occurrence of a non-empty separator.
pub fn split_by_str<'a>(s: &'a str, p: &str) -> (r: Vec<&'a str>)
    requires
        p@.len() > 0,
    ensures
        r.deep_view() == split_sub(s@, p@),
    decreases s@.len(),
{
    let len = s.unicode_len();
    match str_find_sub(s, p) {
        None => {
            let mut out: Vec<&'a str> = Vec::new();
            out.push(s);
            proof {
                assert(out.deep_view() =~= split_sub(s@, p@));
            }
            out
        },
        Some(i) => {
            proof {
                lemma_find_sub_bounds(s@, p@);
            }
            let m = p.unicode_len();
            let head = s.substring_char(0, i);
            let rest = s.substring_char(i + m, len);
            proof {
                assert(rest@ =~= s@.skip(i + p@.len() as int));
                assert(head@ =~= s@.take(i as int));
            }
            let tail = split_by_str(rest, p);
            let mut out: Vec<&'a str> = Vec::new();
            out.push(head);
            let mut tail = tail;
            out.append(&mut tail);
            proof {
                assert(out.deep_view() =~= split_sub(s@, p@));
            }
            out
        },
    }
}

/// Removes the surrounding whitespace of a slice.
pub fn trim_str<'a>(s: &'a str) -> (r: &'a str)
    ensures
        r@ == spec_trim(s@),
{
    proof {
        lemma_lead_ws_bounds(s@);
    }
    let len = s.unicode_len();
    let mut a: usize = 0;
    while a < len && is_ws_c(s.get_char(a))
        invariant
            len == s@.len(),
            a <= len,
            forall|j: int| 0 <= j < a ==> is_ws_char(#[trigger] s@[j]),
        decreases len - a,
    {
        a = a + 1;
    }
    proof {
        lemma_lead_ws_scan(s@, a as int);
        lemma_trail_ws_bounds(s@.skip(a as int));
    }
    let mut b: usize = len;
    while b > a && is_ws_c(s.get_char(b - 1))
        invariant
            len == s@.len(),
            a <= b <= len,
            a as int == lead_ws(s@),
            forall|j: int| b <= j < len ==> is_ws_char(#[trigger] s@[j]),
        decreases b,
    {
        b = b - 1;
    }
    proof {
        lemma_trail_ws_scan(s@.skip(a as int), (b - a) as int);
    }
    let r = s.substring_char(a, b);
    proof {
        assert(r@ =~= spec_trim(s@));
    }
    r
}

/// Whether a character is whitespace.
fn is_ws_c(c: char) -> (r: bool)
    ensures
        r == is_ws_char(c),
{
    c == ' ' || c == '\t' || c == '\n' || c == '\r' || c == '\u{b}' || c == '\u{c}'
}

/// A scan to the first non-whitespace computes `lead_ws`.
proof fn lemma_lead_ws_scan(s: Seq<char>, a: int)
    requires
        0 <= a <= s.len(),
        forall|j: int| 0 <= j < a ==> is_ws_char(#[trigger] s[j]),
        a < s.len() ==> !is_ws_char(s[a]),
    ensures
        lead_ws(s) == a,
    decreases a,
{
    if a == 0 {
    } else {
        assert(is_ws_char(s[0]));
        assert(forall|j: int| 0 <= j < a - 1 ==> #[trigger] s.drop_first()[j] == s[j + 1]);
        lemma_lead_ws_scan(s.drop_first(), a - 1);
    }
}

/// A scan back to the first non-whitespace computes `trail_ws`.
proof fn lemma_trail_ws_scan(s: Seq<char>, b: int)
    requires
        0 <= b <= s.len(),
        forall|j: int| b <= j < s.len() ==> is_ws_char(#[trigger] s[j]),
        b > 0 ==> !is_ws_char(s[b - 1]),
    ensures
        trail_ws(s) == s.len() - b,
    decreases s.len() - b,
{
    if b == s.len() {
    } else {
        assert(is_ws_char(s.last()));
        assert(forall|j: int| 0 <= j < s.len() - 1 ==> #[trigger] s.drop_last()[j] == s[j]);
        lemma_trail_ws_scan(s.drop_last(), b);
    }
}

/// The rows of separated text, split from lines.
pub fn split_to_vec<'a>(content: &'a str, separator: &str, ignore_first_row: bool) -> (r: Vec<
    Vec<&'a str>,
>)
    requires
        separator@.len() > 0,
    ensures
        r.deep_view() == spec_split_to_vec(content@, separator@, ignore_first_row),
{
    broadcast use vstd::seq_lib::group_seq_lib_default;

    let lines = split_by_char(content, '\n');
    let ghost all_lines = split_char(content@, '\n');
    let mut rows: Vec<&'a str> = Vec::new();
    let mut i: usize = 0;
    let ghost tf = |l: Seq<char>| spec_trim(l);
    let ghost pf = |l: Seq<char>| l.len() != 0;
    proof {
        assert(all_lines.take(0) =~= Seq::<Seq<char>>::empty());
        assert(all_lines.take(0).map_values(tf).filter(pf) =~= Seq::<Seq<char>>::empty());
    }
    while i < lines.len()
        invariant
            lines.deep_view() == all_lines,
            i <= lines@.len(),
            lines@.len() == all_lines.len(),
            rows.deep_view() == all_lines.take(i as int).map_values(tf).filter(pf),
            tf == (|l: Seq<char>| spec_trim(l)),
            pf == (|l: Seq<char>| l.len() != 0),
        decreases lines@.len() - i,
    {
        let t = trim_str(lines[i]);
        let ghost prev = all_lines.take(i as int).map_values(tf);
        proof {
            assert(lines.deep_view()[i as int] == lines@[i as int]@);
            assert(all_lines.take(i as int + 1) =~= all_lines.take(i as int).push(
                all_lines[i as int],
            ));
            assert(all_lines.take(i as int + 1).map_values(tf) =~= prev.push(
                tf(all_lines[i as int]),
            ));
            reveal_with_fuel(Seq::<Seq<char>>::filter, 2);
            assert(prev.push(tf(all_lines[i as int])).drop_last() =~= prev);
            assert(prev.push(tf(all_lines[i as int])).last() == tf(all_lines[i as int]));
        }
        if !t.is_empty() {
            rows.push(t);
            proof {
                assert(rows.deep_view() =~= all_lines.take(i as int + 1).map_values(tf).filter(
                    pf,
                ));
            }
        } else {
            proof {
                assert(rows.deep_view() =~= all_lines.take(i as int + 1).map_values(tf).filter(
                    pf,
                ));
            }
        }
        i = i + 1;
    }
    proof {
        assert(all_lines.take(all_lines.len() as int) =~= all_lines);
    }
    if ignore_first_row && rows.len() > 0 {
        rows.remove(0);
        proof {
            assert(rows.deep_view() =~= all_lines.map_values(tf).filter(pf).drop_first());
        }
    }
    let ghost trimmed = {
        let rs = all_lines.map_values(tf).filter(pf);
        if ignore_first_row && rs.len() > 0 {
            rs.drop_first()
        } else {
            rs
        }
    };
    proof {
        assert(rows.deep_view() == trimmed);
    }
    let mut out: Vec<Vec<&'a str>> = Vec::new();
    let mut i: usize = 0;
    while i < rows.len()
        invariant
            separator@.len() > 0,
            rows.deep_view() == trimmed,
            i <= rows@.len(),
            rows@.len() == trimmed.len(),
            out@.len() == i as int,
            forall|k: int|
                0 <= k < i as int ==> (#[trigger] out@[k]).deep_view() == split_sub(
                    trimmed[k],
                    separator@,
                ),
        decreases rows@.len() - i,
    {
        let fields = split_by_str(rows[i], separator);
        let ghost o0 = out@;
        out.push(fields);
        proof {
            assert(rows.deep_view()[i as int] == rows@[i as int]@);
            assert forall|k: int| 0 <= k < i as int + 1 implies (#[trigger] out@[k]).deep_view()
                == split_sub(trimmed[k], separator@) by {
                if k < i as int {
                    assert(out@[k] == o0[k]);
                } else {
                    assert(out@[k] == fields);
                }
            }
        }
        i = i + 1;
    }
    proof {
        let target = spec_split_to_vec(content@, separator@, ignore_first_row);
        assert(out.deep_view() =~= target) by {
            assert forall|k: int| 0 <= k < trimmed.len() implies #[trigger] out.deep_view()[k]
                == target[k] by {
                assert(out.deep_view()[k] == out@[k].deep_view());
            }
        }
    }
    out
}

/// The header row: field names when the first line is a header, else as
/// many empty names as the first line has fields; extra names follow.
pub fn get_header_row(
    content: &str,
    separator: &str,
    ignore_first_row: bool,
    names: Vec<String>,
) -> (r: Vec<String>)
    requires
        separator@.len() > 0,
    ensures
        r.deep_view() == spec_get_header_row(content@, separator@, ignore_first_row, names.deep_view()),
{
    broadcast use vstd::seq_lib::group_seq_lib_default;

    let lines = split_by_char(content, '\n');
    proof {
        assert(split_char(content@, '\n').len() >= 1) by {
            lemma_find_char_bounds(content@, '\n');
        }
        assert(lines.deep_view()[0] == lines@[0]@);
    }
    let first = trim_str(lines[0]);
    let fields = split_by_str(first, separator);
    let mut header: Vec<String> = Vec::new();
    let ghost target = spec_get_header_row(
        content@,
        separator@,
        ignore_first_row,
        names.deep_view(),
    );
    let n = fields.len();
    let mut i: usize = 0;
    while i < n
        invariant
            n == fields@.len(),
            fields.deep_view() == split_sub(
                spec_trim(split_char(content@, '\n')[0]),
                separator@,
            ),
            i <= n,
            header@.len() == i as int,
            ignore_first_row ==> forall|j: int|
                0 <= j < i ==> (#[trigger] header@[j])@ == fields.deep_view()[j],
            !ignore_first_row ==> forall|j: int|
                0 <= j < i ==> (#[trigger] header@[j])@ == Seq::<char>::empty(),
        decreases n - i,
    {
        let ghost h0 = header@;
        if ignore_first_row {
            let f = fields[i];
            header.push(f.to_owned());
            proof {
                assert(fields.deep_view()[i as int] == fields@[i as int]@);
            }
        } else {
            header.push(String::new());
        }
        proof {
            assert(forall|j: int| 0 <= j < i as int ==> (#[trigger] header@[j]) == h0[j]);
        }
        i = i + 1;
    }
    let ghost ndv = names.deep_view();
    let mut names = names;
    let ghost names0 = names@;
    let ghost header0 = header@;
    header.append(&mut names);
    proof {
        assert(header.deep_view() =~= target) by {
            assert forall|j: int| 0 <= j < header@.len() implies #[trigger] header.deep_view()[j]
                == target[j] by {
                assert(header.deep_view()[j] == header@[j]@);
                if j < header0.len() {
                    assert(header@[j] == header0[j]);
                } else {
                    assert(header@[j] == names0[j - header0.len()]);
                    assert(ndv[j - header0.len()] == names0[j - header0.len()]@);
                }
            }
        }
    }
    header
}

/// What a caller asks the importer to do with one block of separated text.
pub struct ClassRequest {
    pub content: String,
    pub expression: String,
    pub class_column: usize,
    pub separator: String,
    pub ignore_first_row: bool,
    pub rows_per_set: usize,
    pub import_columns: Vec<bool>,
    pub data_name: String,
    pub custom_reward_penalty_columns: bool,
    pub reward_column: usize,
    pub penalty_column: usize,
}

impl ClassRequest {
    /// A request for the simple layout: comma separated, every column but
    /// the last imported, the last column the class label.  The content
    /// must hold at least one non-empty row with at least one field.
    pub fn simple_csv_request(name: &str, content: String, ignore_first_row: bool) -> (r:
        ClassRequest)
        requires
            ({
                let rows = spec_split_to_vec(content@, ","@, ignore_first_row);
                rows.len() > 0 && rows[0].len() > 0
            }),
        ensures
            r.content@ == content@,
            r.expression@ == Seq::<char>::empty(),
            r.class_column == spec_split_to_vec(content@, ","@, ignore_first_row)[0].len(),
            r.separator@ == ","@,
            r.ignore_first_row == ignore_first_row,
            r.rows_per_set == 1,
            r.import_columns@.len() == spec_split_to_vec(
                content@,
                ","@,
                ignore_first_row,
            )[0].len(),
            forall|i: int|
                0 <= i < r.import_columns@.len() ==> (#[trigger] r.import_columns@[i] == (i
                    < r.import_columns@.len() - 1)),
            r.data_name@ == name@,
            r.custom_reward_penalty_columns == false,
            r.reward_column == 0,
            r.penalty_column == 0,
    {
        proof {
            reveal_strlit(",");
        }
        let rows = split_to_vec(content.as_str(), ",", ignore_first_row);
        let line: &Vec<&str> = &rows[0];
        let len = line.len();
        proof {
            assert(rows.deep_view()[0] =~= rows@[0].deep_view());
        }
        let mut import_columns: Vec<bool> = Vec::new();
        let mut i: usize = 0;
        while i < len
            invariant
                i <= len,
                import_columns@.len() == i as int,
                forall|j: int|
                    0 <= j < i ==> (#[trigger] import_columns@[j] == (j < len - 1)),
            decreases len - i,
        {
            import_columns.push(i < len - 1);
            i = i + 1;
        }
        ClassRequest {
            content,
            expression: String::new(),
            class_column: len,
            separator: ",".to_owned(),
            ignore_first_row,
            rows_per_set: 1,
            import_columns,
            data_name: name.to_owned(),
            custom_reward_penalty_columns: false,
            reward_column: 0,
            penalty_column: 0,
        }
    }
}

/// The class labels found for each row of an import, in row order.
pub struct ClassResponse {
    classes: Vec<String>,
}

impl ClassResponse {
    /// The labels of an import.
    pub fn new(classes: Vec<String>) -> (r: ClassResponse)
        ensures
            r.labels() == classes.deep_view(),
    {
        ClassResponse { classes }
    }

    /// The labels, for specifications.
    pub closed spec fn labels(&self) -> Seq<Seq<char>> {
        self.classes.deep_view()
    }
}

/// The pieces of a sequence list that are non-empty.
pub open spec fn nonempty_pieces(ls: Seq<Seq<char>>) -> Seq<Seq<char>> {
    ls.filter(|c: Seq<char>| c.len() != 0)
}

/// A chunk that names a valid one-based column index.
pub open spec fn good_chunk(c: Seq<char>) -> bool {
    spec_parse_usize(c) matches Some(n) && n >= 1
}

/// The column indexes named in a space-separated text of one-based numbers:
/// `Ok` exactly when every piece parses as a number of one or more, each
/// mapped to its zero-based index.
pub fn parse_forbidden_columns(text: &str) -> (r: Result<Vec<usize>, PrimeclueErr>)
    ensures
        ({
            let chunks = nonempty_pieces(split_char(text@, ' '));
            match r {
                Ok(cols) => (forall|i: int|
                    0 <= i < chunks.len() ==> good_chunk(#[trigger] chunks[i])) && cols@.len()
                    == chunks.len() && (forall|i: int|
                    0 <= i < chunks.len() ==> #[trigger] cols@[i] == spec_parse_usize(
                        chunks[i],
                    ).unwrap() - 1),
                Err(_) => exists|i: int| 0 <= i < chunks.len() && !good_chunk(#[trigger] chunks[i]),
            }
        }),
{
    broadcast use vstd::seq_lib::group_seq_lib_default;

    let pieces = split_by_char(text, ' ');
    let ghost all = split_char(text@, ' ');
    let mut columns: Vec<usize> = Vec::new();
    let mut i: usize = 0;
    proof {
        reveal(Seq::filter);
        assert(nonempty_pieces(all.take(0)) =~= Seq::<Seq<char>>::empty());
    }
    while i < pieces.len()
        invariant
            all == split_char(text@, ' '),
            pieces.deep_view() == all,
            i <= pieces@.len(),
            pieces@.len() == all.len(),
            forall|j: int|
                0 <= j < nonempty_pieces(all.take(i as int)).len() ==> good_chunk(
                    #[trigger] nonempty_pieces(all.take(i as int))[j],
                ),
            columns@.len() == nonempty_pieces(all.take(i as int)).len(),
            forall|j: int|
                0 <= j < columns@.len() ==> #[trigger] columns@[j] == spec_parse_usize(
                    nonempty_pieces(all.take(i as int))[j],
                ).unwrap() - 1,
        decreases pieces@.len() - i,
    {
        let piece = pieces[i];
        proof {
            assert(pieces.deep_view()[i as int] == pieces@[i as int]@);
            assert(all.take(i as int + 1) =~= all.take(i as int).push(all[i as int]));
            reveal_with_fuel(Seq::<Seq<char>>::filter, 2);
            assert(all.take(i as int).push(all[i as int]).drop_last() =~= all.take(i as int));
            assert(all.take(i as int).push(all[i as int]).last() == all[i as int]);
            assert(nonempty_pieces(all.take(i as int + 1)) == (if all[i as int].len() != 0 {
                nonempty_pieces(all.take(i as int)).push(all[i as int])
            } else {
                nonempty_pieces(all.take(i as int))
            }));
        }
        if !piece.is_empty() {
            match parse_usize(piece) {
                Some(column) => {
                    if column < 1 {
                        proof {
                            lemma_chunk_stays(all, i as int);
                            let j = choose|j: int|
                                0 <= j < nonempty_pieces(all).len() && #[trigger] nonempty_pieces(
                                    all,
                                )[j] == all[i as int];
                            assert(!good_chunk(nonempty_pieces(all)[j]));
                            assert(all == split_char(text@, ' '));
                            assert(exists|k: int|
                                0 <= k < nonempty_pieces(split_char(text@, ' ')).len()
                                    && !good_chunk(
                                    #[trigger] nonempty_pieces(split_char(text@, ' '))[k],
                                ));
                        }
                        return PrimeclueErr::result(
                            "Column indexing starts from 1".to_owned(),
                        );
                    }
                    columns.push(column - 1);
                },
                None => {
                    proof {
                        lemma_chunk_stays(all, i as int);
                        let j = choose|j: int|
                            0 <= j < nonempty_pieces(all).len() && #[trigger] nonempty_pieces(
                                all,
                            )[j] == all[i as int];
                        assert(!good_chunk(nonempty_pieces(all)[j]));
                        assert(all == split_char(text@, ' '));
                        assert(exists|k: int|
                            0 <= k < nonempty_pieces(split_char(text@, ' ')).len() && !good_chunk(
                                #[trigger] nonempty_pieces(split_char(text@, ' '))[k],
                            ));
                    }
                    let mut m = "Unable to parse '".to_owned();
                    m.append(piece);
                    m.append("' to column index");
                    return PrimeclueErr::result(m);
                },
            }
        }
        i = i + 1;
    }
    proof {
        assert(all.take(all.len() as int) =~= all);
    }
    Ok(columns)
}

/// A non-empty piece at some index stays among the non-empty pieces.
proof fn lemma_chunk_stays(all: Seq<Seq<char>>, i: int)
    requires
        0 <= i < all.len(),
        all[i].len() != 0,
    ensures
        exists|j: int|
            0 <= j < nonempty_pieces(all).len() && #[trigger] nonempty_pieces(all)[j] == all[i],
    decreases all.len(),
{
    reveal_with_fuel(Seq::<Seq<char>>::filter, 2);
    if i == all.len() - 1 {
        assert(all.drop_last().push(all.last()) =~= all);
        assert(nonempty_pieces(all).last() == all[i]);
        assert(nonempty_pieces(all)[nonempty_pieces(all).len() - 1] == all[i]);
    } else {
        lemma_chunk_stays(all.drop_last(), i);
        let j = choose|j: int|
            0 <= j < nonempty_pieces(all.drop_last()).len() && #[trigger] nonempty_pieces(
                all.drop_last(),
            )[j] == all.drop_last()[i];
        assert(nonempty_pieces(all)[j] == all[i]);
    }
}

} // verus!
