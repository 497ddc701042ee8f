//! The names of the files in a queue's directory.
//!
//! Segment 7 is the file `nesso.00007.wal`. A compaction writes to
//! `nesso.00001.compacting` before it takes the place of segment 1. Whatever
//! ends in `.compacting` or `.tmp` when a queue is opened was left behind by a
//! crash.

use crate::text::{chars_of, law_number_round_trip, law_numbers_are_written_in_full, padded, parse_chars, parsed_number, push_padded};
use vstd::prelude::*;

verus! {

/// Whether `text` starts with `prefix`.
pub open spec fn starts_with(text: Seq<char>, prefix: Seq<char>) -> bool {
    prefix.len() <= text.len() && text.take(prefix.len() as int) == prefix
}

/// Whether `text` ends with `suffix`.
pub open spec fn ends_with(text: Seq<char>, suffix: Seq<char>) -> bool {
    suffix.len() <= text.len() && text.skip(text.len() - suffix.len()) == suffix
}

/// The name of a segment's file.
pub open spec fn segment_name(id: u64) -> Seq<char> {
    "nesso."@ + padded(id as nat, 5) + ".wal"@
}

/// The segment that a file name stands for: `nesso.`, a number, and `.wal`.
pub open spec fn segment_of_name(name: Seq<char>) -> Option<u64> {
    if !starts_with(name, "nesso."@) {
        None
    } else {
        let rest = name.skip("nesso."@.len() as int);
        if !ends_with(rest, ".wal"@) {
            None
        } else {
            parsed_number(rest.take(rest.len() - ".wal"@.len()), u64::MAX)
        }
    }
}

/// Whether a file was left behind by a compaction that did not finish.
pub open spec fn leftover_name(name: Seq<char>) -> bool {
    ends_with(name, ".compacting"@) || ends_with(name, ".tmp"@)
}

/// Whether `text` holds `part` at `at`.
fn holds_at(text: &Vec<char>, at: usize, part: &Vec<char>) -> (holds: bool)
    requires
        at + part@.len() <= text@.len(),
    ensures
        holds == (text@.subrange(at as int, at + part@.len()) == part@),
{
    let n: usize = text.len();
    let mut i: usize = 0;
    while i < part.len()
        invariant
            i <= part@.len(),
            n == text@.len(),
            at + part@.len() <= n,
            forall|j: int| 0 <= j < i ==> text@[at + j] == #[trigger] part@[j],
        decreases part@.len() - i,
    {
        if text[at + i] != part[i] {
            assert(text@.subrange(at as int, at + part@.len())[i as int] != part@[i as int]);
            return false;
        }
        i = i + 1;
    }
    assert(text@.subrange(at as int, at + part@.len()) =~= part@);
    true
}

fn text_starts_with(text: &Vec<char>, prefix: &str) -> (starts: bool)
    ensures
        starts == starts_with(text@, prefix@),
{
    let prefix_chars = chars_of(prefix);
    if prefix_chars.len() > text.len() {
        return false;
    }
    assert(text@.take(prefix@.len() as int) =~= text@.subrange(0, prefix@.len() as int));
    holds_at(text, 0, &prefix_chars)
}

fn text_ends_with(text: &Vec<char>, suffix: &str) -> (ends: bool)
    ensures
        ends == ends_with(text@, suffix@),
{
    let suffix_chars = chars_of(suffix);
    if suffix_chars.len() > text.len() {
        return false;
    }
    let at: usize = text.len() - suffix_chars.len();
    assert(text@.skip(at as int) =~= text@.subrange(at as int, at + suffix@.len()));
    holds_at(text, at, &suffix_chars)
}

/// The segment that a file name stands for.
pub fn parse_segment_name(name: &str) -> (id: Option<u64>)
    ensures
        id == segment_of_name(name@),
{
    let chars = chars_of(name);
    proof {
        reveal_strlit("nesso.");
        reveal_strlit(".wal");
    }
    if !text_starts_with(&chars, "nesso.") {
        return None;
    }
    let n: usize = chars.len();
    let ghost rest = name@.skip(6);
    if n < 10 {
        return None;
    }
    let wal = chars_of(".wal");
    assert(rest.skip(rest.len() - 4) =~= chars@.subrange(n - 4, n - 4 + 4));
    if !holds_at(&chars, n - 4, &wal) {
        return None;
    }
    assert(rest.take(rest.len() - 4) =~= chars@.subrange(6, n - 4));
    parse_chars(&chars[6..n - 4], u64::MAX)
}

/// Whether a file was left behind by a compaction that did not finish.
pub fn is_leftover(name: &str) -> (leftover: bool)
    ensures
        leftover == leftover_name(name@),
{
    let chars = chars_of(name);
    text_ends_with(&chars, ".compacting") || text_ends_with(&chars, ".tmp")
}

/// The name of a segment's file.
pub fn segment_file_name(id: u64) -> (name: String)
    ensures
        name@ == segment_name(id),
{
    let mut name = String::new();
    name.append("nesso.");
    assert(name@ =~= "nesso."@);
    push_padded(&mut name, id, 5);
    name.append(".wal");
    name
}

/// The name of the file that a compaction writes to.
pub fn compacting_file_name() -> (name: String)
    ensures
        name@ == "nesso.00001.compacting"@,
{
    let mut name = String::new();
    name.append("nesso.00001.compacting");
    assert(name@ =~= "nesso.00001.compacting"@);
    name
}

/// Every segment is found again under its file name, and is never taken for
/// something that a crash left behind.
pub proof fn law_segment_name_round_trip(id: u64)
    ensures
        segment_of_name(segment_name(id)) == Some(id),
        !leftover_name(segment_name(id)),
{
    reveal_strlit("nesso.");
    reveal_strlit(".wal");
    reveal_strlit(".compacting");
    reveal_strlit(".tmp");
    let digits = padded(id as nat, 5);
    let name = segment_name(id);
    let rest = name.skip(6);
    law_number_round_trip(id, 5, u64::MAX);
    assert(name.take(6) =~= "nesso."@);
    assert(rest =~= digits + ".wal"@);
    assert(rest.skip(rest.len() - 4) =~= ".wal"@);
    assert(rest.take(rest.len() - 4) =~= digits);
    assert(name.last() == 'l');
    if ends_with(name, ".compacting"@) {
        assert(name.skip(name.len() - 11).last() == 'g');
    }
    if ends_with(name, ".tmp"@) {
        assert(name.skip(name.len() - 4).last() == 'p');
    }
}

/// What a compaction writes to is cleared away when it is left behind, and is
/// never taken for a segment.
pub proof fn law_compacting_file_is_leftover()
    ensures
        leftover_name("nesso.00001.compacting"@),
        segment_of_name("nesso.00001.compacting"@) is None,
{
    reveal_strlit("nesso.00001.compacting");
    reveal_strlit(".compacting");
    reveal_strlit("nesso.");
    reveal_strlit(".wal");
    let name = "nesso.00001.compacting"@;
    assert(name.skip(name.len() - 11) =~= ".compacting"@);
    let rest = name.skip(6);
    if ends_with(rest, ".wal"@) {
        assert(rest.skip(rest.len() - 4).last() == 'l');
    }
}

/// A name is that of a segment exactly if it is `nesso.`, a number and `.wal`.
pub proof fn law_segment_names(name: Seq<char>, id: u64)
    ensures
        segment_of_name(name) == Some(id) <==> exists|digits: Seq<char>|
            #[trigger] parsed_number(digits, u64::MAX) == Some(id) && name == "nesso."@ + digits
                + ".wal"@,
{
    reveal_strlit("nesso.");
    reveal_strlit(".wal");
    let rest = name.skip(6);
    if segment_of_name(name) == Some(id) {
        let digits = rest.take(rest.len() - 4);
        assert(parsed_number(digits, u64::MAX) == Some(id));
        assert(name =~= "nesso."@ + digits + ".wal"@);
    }
    if exists|digits: Seq<char>|
        #[trigger] parsed_number(digits, u64::MAX) == Some(id) && name == "nesso."@ + digits
            + ".wal"@ {
        let digits = choose|digits: Seq<char>|
            #[trigger] parsed_number(digits, u64::MAX) == Some(id) && name == "nesso."@ + digits
                + ".wal"@;
        assert(name.take(6) =~= "nesso."@);
        assert(rest =~= digits + ".wal"@);
        assert(rest.skip(rest.len() - 4) =~= ".wal"@);
        assert(rest.take(rest.len() - 4) =~= digits);
    }
}

/// The files that a crash left behind are those whose name ends in `.compacting` or in
/// `.tmp`, whatever stands in front of that.
pub proof fn law_leftover_names(front: Seq<char>, name: Seq<char>)
    ensures
        leftover_name(front + ".compacting"@),
        leftover_name(front + ".tmp"@),
        leftover_name(name) ==> exists|start: Seq<char>|
            name == #[trigger] (start + ".compacting"@) || name == start + ".tmp"@,
{
    reveal_strlit(".compacting");
    reveal_strlit(".tmp");
    let a = front + ".compacting"@;
    let b = front + ".tmp"@;
    assert(a.skip(a.len() - 11) =~= ".compacting"@);
    assert(b.skip(b.len() - 4) =~= ".tmp"@);
    if leftover_name(name) {
        if ends_with(name, ".compacting"@) {
            let start = name.take(name.len() - 11);
            assert(name =~= start + ".compacting"@);
        } else {
            let start = name.take(name.len() - 4);
            let other = start + ".compacting"@;
            assert(name =~= start + ".tmp"@);
        }
    }
}

/// The number in the name of a segment's file has at least five digits, and zeros in
/// front only to fill it up to five.
pub proof fn law_segment_file_names(id: u64)
    ensures
        exists|digits: Seq<char>|
            segment_name(id) == "nesso."@ + digits + ".wal"@ && #[trigger] parsed_number(
                digits,
                u64::MAX,
            ) == Some(id) && digits.len() >= 5 && (digits.len() > 5 ==> digits[0] != '0') && (
            forall|i: int| 0 <= i < digits.len() ==> '0' <= #[trigger] digits[i] <= '9'),
{
    let digits = padded(id as nat, 5);
    law_numbers_are_written_in_full(id, 5);
    assert(parsed_number(digits, u64::MAX) == Some(id));
}

} // verus!
