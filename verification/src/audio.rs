//! Framing of captured audio into the fixed-length chunks that the
//! resampler and the segmenter consume, and the choice of input device.
use crate::text::chars_of;
use vstd::prelude::*;

verus! {

/// Samples per chunk handed to the segmenter: 160 ms at 16 kHz.
pub const CHUNK_LEN: usize = 2560;

/// Samples per 160 ms at a device rate of `rate` Hz, counted in whole
/// milliseconds of samples.
pub fn native_chunk_len(rate: u32) -> (n: usize)
    ensures
        n == (rate as int / 1000) * 160,
{
    let per_ms = rate / 1000;
    (per_ms as usize) * 160
}

/// Takes the first `n` samples off the front of `buf` when it holds at
/// least that many; otherwise leaves it alone.
pub fn take_chunk<S>(buf: &mut Vec<S>, n: usize) -> (chunk: Option<Vec<S>>)
    ensures
        old(buf)@.len() >= n ==> (chunk matches Some(c) && c@ == old(buf)@.take(n as int)
            && final(buf)@ == old(buf)@.skip(n as int)),
        old(buf)@.len() < n ==> (chunk is None && final(buf)@ == old(buf)@),
{
    if buf.len() < n {
        return None;
    }
    let mut head = buf.split_off(n);
    std::mem::swap(&mut head, buf);
    Some(head)
}

/// The sample sequences of a list of chunks.
pub open spec fn chunk_samples<S>(chunks: Seq<Vec<S>>) -> Seq<Seq<S>> {
    chunks.map_values(|c: Vec<S>| c@)
}

/// Takes every whole chunk of `n` samples off the front of `buf`, oldest
/// first: the chunks all hold `n` samples, they and what is left make up
/// the old buffer in order, and fewer than `n` samples are left.
pub fn take_chunks<S>(buf: &mut Vec<S>, n: usize) -> (chunks: Vec<Vec<S>>)
    requires
        n > 0,
    ensures
        forall|i: int| 0 <= i < chunks@.len() ==> (#[trigger] chunks@[i])@.len() == n,
        chunk_samples(chunks@).flatten() + final(buf)@ == old(buf)@,
        final(buf)@.len() < n,
{
    let mut chunks: Vec<Vec<S>> = Vec::new();
    let ghost whole = buf@;
    assert(chunk_samples(chunks@).flatten() + buf@ =~= whole);
    while buf.len() >= n
        invariant
            n > 0,
            forall|i: int| 0 <= i < chunks@.len() ==> (#[trigger] chunks@[i])@.len() == n,
            chunk_samples(chunks@).flatten() + buf@ == whole,
        decreases buf@.len(),
    {
        let ghost rest = buf@;
        let c = take_chunk(buf, n).unwrap();
        let ghost before = chunks@;
        chunks.push(c);
        proof {
            assert(chunk_samples(chunks@) =~= chunk_samples(before).push(c@));
            chunk_samples(before).lemma_flatten_push(c@);
            assert(c@ + buf@ =~= rest);
            assert(chunk_samples(chunks@).flatten() + buf@ =~= chunk_samples(before).flatten()
                + rest);
        }
    }
    chunks
}

/// Whether `needle` occurs in `hay` as a contiguous run of characters.
pub open spec fn contains_text(hay: Seq<char>, needle: Seq<char>) -> bool {
    exists|i: int|
        0 <= i <= hay.len() - needle.len() && #[trigger] hay.subrange(i, i + needle.len())
            == needle
}

fn matches_at(h: &Vec<char>, n: &Vec<char>, i: usize) -> (r: bool)
    requires
        i + n@.len() <= h@.len(),
    ensures
        r == (h@.subrange(i as int, i + n@.len()) == n@),
{
    let mut k: usize = 0;
    while k < n.len()
        invariant
            i + n@.len() <= h@.len(),
            h@.len() == h.len(),
            k <= n@.len(),
            forall|j: int| 0 <= j < k ==> h@[i + j] == n@[j],
        decreases n@.len() - k,
    {
        if h[i + k] != n[k] {
            assert(h@.subrange(i as int, i + n@.len())[k as int] != n@[k as int]);
            return false;
        }
        k = k + 1;
    }
    assert(h@.subrange(i as int, i + n@.len()) =~= n@);
    true
}

/// Whether `needle` occurs in `hay`, as `str::contains` with a string
/// pattern decides it.
pub fn str_contains(hay: &str, needle: &str) -> (r: bool)
    ensures
        r == contains_text(hay@, needle@),
{
    let h = chars_of(hay);
    let n = chars_of(needle);
    if n.len() > h.len() {
        return false;
    }
    let last = h.len() - n.len();
    let mut i: usize = 0;
    while i < last
        invariant
            h@ == hay@,
            n@ == needle@,
            last == h@.len() - n@.len(),
            i <= last,
            forall|k: int|
                0 <= k < i ==> #[trigger] hay@.subrange(k, k + needle@.len()) != needle@,
        decreases last - i,
    {
        if matches_at(&h, &n, i) {
            assert(hay@.subrange(i as int, i + needle@.len()) == needle@);
            return true;
        }
        i = i + 1;
    }
    if matches_at(&h, &n, last) {
        assert(hay@.subrange(last as int, last + needle@.len()) == needle@);
        return true;
    }
    false
}

/// Whether a device with this name matches a requested name.
pub open spec fn device_matches(name: Option<String>, wanted: Seq<char>) -> bool {
    name matches Some(n) && contains_text(n@, wanted)
}

/// The first device, in listing order, whose name contains `wanted`.
/// `names` holds each device's name, `None` where it could not be read.
pub fn pick_device(names: &Vec<Option<String>>, wanted: &str) -> (r: Option<usize>)
    ensures
        match r {
            Some(i) => i < names@.len() && device_matches(names@[i as int], wanted@) && forall|
                j: int,
            |
                0 <= j < i ==> !#[trigger] device_matches(names@[j], wanted@),
            None => forall|j: int|
                0 <= j < names@.len() ==> !#[trigger] device_matches(names@[j], wanted@),
        },
{
    let mut i: usize = 0;
    while i < names.len()
        invariant
            i <= names@.len(),
            forall|j: int| 0 <= j < i ==> !#[trigger] device_matches(names@[j], wanted@),
        decreases names@.len() - i,
    {
        match &names[i] {
            Some(n) => {
                if str_contains(n.as_str(), wanted) {
                    return Some(i);
                }
            },
            None => {},
        }
        i = i + 1;
    }
    None
}

} // verus!
