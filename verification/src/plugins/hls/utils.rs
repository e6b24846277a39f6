//! Helpers on HLS resource URLs.
use crate::text::{
    after_last, all_digits, before_first, chars_of, decimal, has_prefix, is_digit, lemma_decimal,
    lemma_find_char, lemma_parse_decimal, lemma_rfind_char, parse_u32, parse_u32_spec, remove_all,
    remove_all_exec, rfind, rfind_char, slice_chars, string_from_chars, take_after_last,
    take_before_first,
};
use vstd::prelude::*;

verus! {

/// The sequence number in a segment URL: the file name after the last `/`,
/// cut at its first `.`, with every `segment` removed, read as a `u32`.
pub open spec fn sequence_number_spec(uri: Seq<char>) -> Option<u32> {
    parse_u32_spec(remove_all(before_first(after_last(uri, '/'), '.'), "segment"@))
}

/// The URL of the playlist a segment belongs to: the segment URL up to (not
/// including) its last `/`, or empty when it holds none.
pub open spec fn playlist_url_spec(segment_url: Seq<char>) -> Seq<char> {
    let i = rfind_char(segment_url, '/');
    if i < 0 {
        Seq::empty()
    } else {
        segment_url.take(i)
    }
}

/// Computes the hash of a URL (see `crate::utils::hash_url`).
pub fn hash_url(url: &str) -> (r: String)
    ensures
        r@ == crate::utils::hash_url_spec(url@),
        r@.len() == 16,
{
    crate::utils::hash_url(url)
}

/// Turns a relative URL into an absolute one (see `crate::utils::resolve_url`).
pub fn resolve_url(base_url: &str, relative_url: &str) -> (r: String)
    requires
        crate::utils::resolvable(base_url@, relative_url@),
    ensures
        r@ == crate::utils::resolve_spec(base_url@, relative_url@),
{
    crate::utils::resolve_url(base_url, relative_url)
}

/// Extracts the sequence number from a segment URL such as `/path/segment12.ts`.
pub fn extract_sequence_number(uri: &str) -> (r: Option<u32>)
    ensures
        r == sequence_number_spec(uri@),
{
    let cs = chars_of(uri);
    let last = take_after_last(&cs, '/');
    let name = take_before_first(&last, '.');
    let pat = chars_of("segment");
    let digits = remove_all_exec(&name, &pat);
    parse_u32(&digits)
}

/// The URL of the playlist that holds a segment.
pub fn get_playlist_url(segment_url: &str) -> (r: String)
    ensures
        r@ == playlist_url_spec(segment_url@),
{
    let cs = chars_of(segment_url);
    match rfind(&cs, '/') {
        Some(i) => {
            let p = slice_chars(&cs, 0, i);
            assert(p@ =~= cs@.take(i as int));
            string_from_chars(&p)
        },
        None => String::new(),
    }
}

/// The file name of a segment: its URL after the last `/`.
pub fn get_segment_name(segment_url: &str) -> (r: String)
    ensures
        r@ == after_last(segment_url@, '/'),
{
    let cs = chars_of(segment_url);
    let n = take_after_last(&cs, '/');
    string_from_chars(&n)
}

/// Digits lose nothing when `segment` is removed from them.
proof fn lemma_remove_from_digits(d: Seq<char>)
    requires
        all_digits(d),
    ensures
        remove_all(d, "segment"@) == d,
    decreases d.len(),
{
    reveal_strlit("segment");
    if d.len() > 0 {
        assert(is_digit(d[0]));
        assert(!has_prefix(d, "segment"@)) by {
            if has_prefix(d, "segment"@) {
                assert(d.take(7)[0] == 's');
            }
        }
        assert(all_digits(d.skip(1))) by {
            assert forall|i: int| 0 <= i < d.skip(1).len() implies is_digit(#[trigger] d.skip(1)[i]) by {
                assert(d.skip(1)[i] == d[i + 1]);
            }
        }
        lemma_remove_from_digits(d.skip(1));
        assert(seq![d[0]] + d.skip(1) =~= d);
    }
}

/// The number of a segment named `segment<n>.ts` is read back: for any
/// directory and any `u32` `n`, the sequence number of
/// `<dir>/segment<n>.ts` is `n`.
pub proof fn lemma_sequence_number_round_trip(dir: Seq<char>, n: u32)
    ensures
        sequence_number_spec(dir + "/segment"@ + decimal(n as nat) + ".ts"@) == Some(n),
{
    reveal_strlit("/segment");
    reveal_strlit(".ts");
    reveal_strlit("segment");
    let d = decimal(n as nat);
    lemma_decimal(n as nat);
    let name = "segment"@ + d + ".ts"@;
    let full = dir + "/segment"@ + d + ".ts"@;
    assert(full =~= dir + seq!['/'] + name);
    // The last `/` is the one before the name.
    assert forall|j: int| dir.len() < j < full.len() implies full[j] != '/' by {
        let k = j - dir.len() - 1;
        assert(full[j] == name[k]);
        if k < 7 {
        } else if k < 7 + d.len() {
            assert(name[k] == d[k - 7]);
            assert(is_digit(d[k - 7]));
        } else {
        }
    }
    lemma_rfind_char(full, '/', dir.len() as int);
    assert(after_last(full, '/') =~= name);
    // The first `.` ends the digits.
    let stem = "segment"@ + d;
    assert forall|j: int| 0 <= j < stem.len() implies name[j] != '.' by {
        if j >= 7 {
            assert(name[j] == d[j - 7]);
            assert(is_digit(d[j - 7]));
        }
    }
    lemma_find_char(name, '.', stem.len() as int);
    assert(before_first(name, '.') =~= stem);
    // Removing `segment` leaves the digits.
    assert(has_prefix(stem, "segment"@)) by {
        assert(stem.take(7) =~= "segment"@);
    }
    assert(stem.skip(7) =~= d);
    lemma_remove_from_digits(d);
    assert(remove_all(stem, "segment"@) == d);
    lemma_parse_decimal(n as nat, u32::MAX as nat);
}

} // verus!
