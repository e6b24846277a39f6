//! The MP4 plugin's own rules: which requests it takes, how a cached file is
//! sent in pieces, and what it has downloaded.
use crate::keyed::{key_index, lemma_key_index, KeyedVec};
use crate::text::{chars_of, ends_with, has_suffix};
use vstd::prelude::*;

verus! {

/// The size of the pieces in which a cached file is sent.
pub const CHUNK_SIZE: usize = 1048576;

/// Whether the MP4 plugin takes `uri`: it ends with `.mp4`.
pub open spec fn can_handle_spec(uri: Seq<char>) -> bool {
    has_suffix(uri, ".mp4"@)
}

/// The pieces, as start and end offsets, in which bytes `offset..len` are
/// sent: `chunk` bytes at a time, the last piece shorter.
pub open spec fn piece_ranges(offset: nat, len: nat, chunk: nat) -> Seq<(nat, nat)>
    decreases len - offset,
{
    if offset >= len || chunk == 0 {
        Seq::empty()
    } else {
        let end = if offset + chunk < len {
            offset + chunk
        } else {
            len
        };
        seq![(offset, end)] + piece_ranges(end, len, chunk)
    }
}

pub open spec fn ranges_view(v: Seq<(usize, usize)>) -> Seq<(nat, nat)> {
    v.map_values(|p: (usize, usize)| (p.0 as nat, p.1 as nat))
}

/// Whether the MP4 plugin takes `uri`.
pub fn can_handle(uri: &str) -> (r: bool)
    ensures
        r == can_handle_spec(uri@),
{
    ends_with(&chars_of(uri), &chars_of(".mp4"))
}

/// The pieces in which a cached file of `len` bytes is sent, `chunk` bytes
/// at a time.
pub fn piece_bounds(len: usize, chunk: usize) -> (r: Vec<(usize, usize)>)
    requires
        chunk > 0,
    ensures
        ranges_view(r@) == piece_ranges(0, len as nat, chunk as nat),
{
    let mut out: Vec<(usize, usize)> = Vec::new();
    let mut offset: usize = 0;
    assert(ranges_view(out@) + piece_ranges(0, len as nat, chunk as nat) =~= piece_ranges(0, len as nat, chunk as nat));
    while offset < len
        invariant
            offset <= len,
            chunk > 0,
            ranges_view(out@) + piece_ranges(offset as nat, len as nat, chunk as nat) == piece_ranges(
                0,
                len as nat,
                chunk as nat,
            ),
        decreases len - offset,
    {
        let end = if len - offset > chunk {
            offset + chunk
        } else {
            len
        };
        let ghost o0 = ranges_view(out@);
        out.push((offset, end));
        assert(ranges_view(out@) =~= o0.push((offset as nat, end as nat)));
        let ghost rest = piece_ranges(end as nat, len as nat, chunk as nat);
        assert(o0.push((offset as nat, end as nat)) + rest =~= o0 + (seq![(offset as nat, end as nat)] + rest));
        offset = end;
    }
    assert(ranges_view(out@) + Seq::<(nat, nat)>::empty() =~= ranges_view(out@));
    out
}

/// The MP4 files downloaded, with their sizes.
#[derive(Debug)]
pub struct Mp4Downloads {
    downloads: KeyedVec<u64>,
}

impl Mp4Downloads {
    pub closed spec fn sizes(&self) -> Seq<(Seq<char>, u64)> {
        self.downloads.entries()
    }

    pub closed spec fn wf(&self) -> bool {
        self.downloads.wf()
    }

    pub fn new() -> (r: Self)
        ensures
            r.wf(),
            r.sizes() == Seq::<(Seq<char>, u64)>::empty(),
    {
        Mp4Downloads { downloads: KeyedVec::new() }
    }

    /// Notes that `uri` was downloaded, `total_size` bytes.
    pub fn record(&mut self, uri: &str, total_size: u64)
        requires
            old(self).wf(),
        ensures
            final(self).wf(),
            final(self).sizes() == (if key_index(old(self).sizes(), uri@) >= 0 {
                old(self).sizes().update(key_index(old(self).sizes(), uri@), (uri@, total_size))
            } else {
                old(self).sizes().push((uri@, total_size))
            }),
    {
        self.downloads.put(uri, total_size);
    }

    /// The size downloaded for `uri`, if any.
    pub fn get(&self, uri: &str) -> (r: Option<u64>)
        ensures
            match r {
                Some(s) => key_index(self.sizes(), uri@) >= 0 && s == self.sizes()[key_index(self.sizes(), uri@)].1,
                None => key_index(self.sizes(), uri@) < 0,
            },
    {
        proof {
            lemma_key_index(self.downloads.entries(), uri@);
        }
        match self.downloads.find(uri) {
            Some(i) => Some(*self.downloads.value_at(i)),
            None => None,
        }
    }

    /// How many downloads are recorded.
    pub fn len(&self) -> (r: usize)
        ensures
            r == self.sizes().len(),
    {
        self.downloads.len()
    }
}

} // verus!
