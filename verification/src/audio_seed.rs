//! A number that stands for the content of an audio file.

use vstd::bytes::u64_to_le_bytes;
use vstd::prelude::*;

use crate::pattern;

verus! {

/// The start of the 64-bit FNV-1a hash.
pub const FNV_OFFSET: u64 = 0xCBF2_9CE4_8422_2325;

/// The multiplier of the 64-bit FNV-1a hash.
pub const FNV_PRIME: u64 = 0x0000_0100_0000_01B3;

/// How many chunks of an audio file are sampled.
pub const SAMPLE_COUNT: u64 = 8;

/// How many bytes of a chunk are sampled at most.
pub const SAMPLE_LEN: u64 = 768;

/// The hash after one more byte.
pub open spec fn fnv_step(hash: u64, byte: u8) -> u64 {
    (hash ^ (byte as u64)).wrapping_mul(FNV_PRIME)
}

/// The hash after more bytes.
pub open spec fn fnv(hash: u64, bytes: Seq<u8>) -> u64
    decreases bytes.len(),
{
    if bytes.len() == 0 {
        hash
    } else {
        fnv_step(fnv(hash, bytes.drop_last()), bytes.last())
    }
}

/// Where the sample of number `index` starts in a file of `length` bytes:
/// the samples are spread evenly from the start of the file to its end.
pub open spec fn sample_start(length: u64, index: int) -> u64 {
    let last_start = if length < SAMPLE_LEN {
        0
    } else {
        length - SAMPLE_LEN
    };
    if last_start * index > u64::MAX {
        u64::MAX / 7
    } else {
        (last_start * index / 7) as u64
    }
}

/// The samples of an audio file: its length, and the bytes of each chunk that
/// could be read.
#[derive(Debug)]
pub struct AudioSamples {
    pub length: u64,
    pub chunks: Vec<Option<Vec<u8>>>,
}

impl AudioSamples {
    /// There is one entry for each sample, and none is longer than a sample.
    pub open spec fn wf(&self) -> bool {
        &&& self.chunks@.len() == SAMPLE_COUNT
        &&& forall|i: int|
            0 <= i < self.chunks@.len() ==> ((#[trigger] self.chunks@[i]) matches Some(bytes)
                ==> bytes@.len() <= SAMPLE_LEN)
    }
}

/// An audio file: its path, and its samples if it could be opened.
#[derive(Debug)]
pub struct AudioFile {
    pub path: Vec<u8>,
    pub samples: Option<AudioSamples>,
}

/// What the first `n` samples add to the hash: the start and the bytes of
/// each that could be read.
pub open spec fn sample_bytes(length: u64, chunks: Seq<Option<Vec<u8>>>, n: int) -> Seq<u8>
    decreases n,
{
    if n <= 0 {
        Seq::empty()
    } else {
        sample_bytes(length, chunks, n - 1) + match chunks[n - 1] {
            Some(bytes) => vstd::bytes::spec_u64_to_le_bytes(sample_start(length, n - 1)) + bytes@,
            None => Seq::empty(),
        }
    }
}

/// The bytes that stand for a song: the path, the length and the samples of
/// its file; without samples the path and the identifier of the song.
pub open spec fn song_bytes(file: Option<AudioFile>, uuid: Option<Seq<u8>>) -> Seq<u8> {
    let path = match file {
        Some(f) => f.path@,
        None => Seq::empty(),
    };
    match file {
        Some(AudioFile { samples: Some(samples), .. }) => path
            + vstd::bytes::spec_u64_to_le_bytes(samples.length) + sample_bytes(
            samples.length,
            samples.chunks@,
            SAMPLE_COUNT as int,
        ),
        _ => match uuid {
            Some(id) => path + id,
            None => path,
        },
    }
}

/// Hashing one sequence and then another is hashing both as one.
pub proof fn law_fnv_of_concatenation(hash: u64, a: Seq<u8>, b: Seq<u8>)
    ensures
        fnv(hash, a + b) == fnv(fnv(hash, a), b),
    decreases b.len(),
{
    if b.len() == 0 {
        assert(a + b == a);
    } else {
        law_fnv_of_concatenation(hash, a, b.drop_last());
        assert((a + b).drop_last() == a + b.drop_last());
        assert((a + b).last() == b.last());
    }
}

/// Every sample lies within a file that is as long as one sample or longer.
/// The first starts at the start of the file, and samples never move back.
pub proof fn law_samples_lie_in_the_file(length: u64, index: int)
    requires
        SAMPLE_LEN <= length,
        0 <= index < SAMPLE_COUNT,
    ensures
        sample_start(length, index) + SAMPLE_LEN <= length,
        sample_start(length, 0) == 0,
        index > 0 ==> sample_start(length, index - 1) <= sample_start(length, index),
{
    let last_start = length - SAMPLE_LEN;
    assert(last_start * index <= last_start * 7) by (nonlinear_arith)
        requires
            0 <= last_start,
            index <= 7,
    ;
    if index > 0 {
        assert(last_start * (index - 1) <= last_start * index) by (nonlinear_arith)
            requires
                0 <= last_start,
        ;
        assert(last_start * index >= 0) by (nonlinear_arith)
            requires
                0 <= last_start,
                0 <= index,
        ;
    }
}

/// The last sample ends with the file, up to a length that seven times fits
/// in 64 bits.
pub proof fn law_last_sample_ends_the_file(length: u64)
    requires
        SAMPLE_LEN <= length,
        (length - SAMPLE_LEN) * 7 <= u64::MAX,
    ensures
        sample_start(length, SAMPLE_COUNT - 1) + SAMPLE_LEN == length,
{
}

/// Where the sample of number `index` starts in a file of `length` bytes.
pub fn sample_offset(length: u64, index: u64) -> (r: u64)
    ensures
        r == sample_start(length, index as int),
{
    let last_start: u64 = length.saturating_sub(SAMPLE_LEN);
    match last_start.checked_mul(index) {
        Some(product) => product / 7,
        None => u64::MAX / 7,
    }
}

/// The hash after more bytes.
pub fn fnv_update(hash: u64, bytes: &[u8]) -> (r: u64)
    ensures
        r == fnv(hash, bytes@),
{
    let mut out: u64 = hash;
    let mut i: usize = 0;
    while i < bytes.len()
        invariant
            i <= bytes.len(),
            out == fnv(hash, bytes@.take(i as int)),
        decreases bytes.len() - i,
    {
        assert(bytes@.take(i + 1).drop_last() == bytes@.take(i as int));
        out = (out ^ (bytes[i] as u64)).wrapping_mul(FNV_PRIME);
        i += 1;
    }
    assert(bytes@.take(bytes@.len() as int) == bytes@);
    out
}

/// The bytes of an optional identifier.
pub open spec fn optional_bytes(s: Option<&[u8]>) -> Option<Seq<u8>> {
    match s {
        Some(b) => Some(b@),
        None => None,
    }
}

/// A number that stands for the content of a song. The same song gives the
/// same number.
pub fn audio_pattern_seed(file: Option<&AudioFile>, uuid: Option<&[u8]>) -> (r: u64)
    requires
        file matches Some(AudioFile { samples: Some(samples), .. }) ==> samples.wf(),
    ensures
        r == fnv(
            FNV_OFFSET,
            song_bytes(
                match file {
                    Some(f) => Some(*f),
                    None => None,
                },
                optional_bytes(uuid),
            ),
        ),
{
    let mut hash: u64 = FNV_OFFSET;
    let ghost mut done: Seq<u8> = Seq::empty();
    if let Some(file) = file {
        hash = fnv_update(hash, file.path.as_slice());
        proof {
            done = file.path@;
        }
        if let Some(samples) = &file.samples {
            hash = fnv_update(hash, u64_to_le_bytes(samples.length).as_slice());
            let ghost head = done + vstd::bytes::spec_u64_to_le_bytes(samples.length);
            proof {
                law_fnv_of_concatenation(
                    FNV_OFFSET,
                    done,
                    vstd::bytes::spec_u64_to_le_bytes(samples.length),
                );
            }
            let mut index: u64 = 0;
            assert(head + sample_bytes(samples.length, samples.chunks@, 0) == head);
            while index < SAMPLE_COUNT
                invariant
                    index <= SAMPLE_COUNT,
                    samples.wf(),
                    hash == fnv(
                        FNV_OFFSET,
                        head + sample_bytes(samples.length, samples.chunks@, index as int),
                    ),
                decreases SAMPLE_COUNT - index,
            {
                let ghost before = head + sample_bytes(
                    samples.length,
                    samples.chunks@,
                    index as int,
                );
                if let Some(bytes) = &samples.chunks[index as usize] {
                    let offset: u64 = sample_offset(samples.length, index);
                    let start: Vec<u8> = u64_to_le_bytes(offset);
                    hash = fnv_update(hash, start.as_slice());
                    hash = fnv_update(hash, bytes.as_slice());
                    proof {
                        law_fnv_of_concatenation(FNV_OFFSET, before, start@);
                        law_fnv_of_concatenation(FNV_OFFSET, before + start@, bytes@);
                        assert(before + start@ + bytes@ == head + sample_bytes(
                            samples.length,
                            samples.chunks@,
                            index + 1,
                        ));
                    }
                } else {
                    assert(before == head + sample_bytes(
                        samples.length,
                        samples.chunks@,
                        index + 1,
                    ));
                }
                index += 1;
            }
            return hash;
        }
    }
    if let Some(uuid) = uuid {
        hash = fnv_update(hash, uuid);
        proof {
            law_fnv_of_concatenation(FNV_OFFSET, done, uuid@);
        }
    }
    hash
}

/// The multiplier of the hash can be undone, so a step tells hashes apart.
proof fn lemma_fnv_step_is_injective(a: u64, b: u64, x: u8, y: u8)
    requires
        fnv_step(a, x) == fnv_step(b, y),
    ensures
        a ^ (x as u64) == b ^ (y as u64),
        x == y ==> a == b,
        a == b ==> x == y,
{
    let p = a ^ (x as u64);
    let q = b ^ (y as u64);
    lemma_fnv_prime_is_invertible(p);
    lemma_fnv_prime_is_invertible(q);
    let x8 = x as u64;
    let y8 = y as u64;
    assert(a ^ x8 == b ^ y8 && x8 == y8 ==> a == b) by (bit_vector);
    assert(a ^ x8 == b ^ y8 && a == b ==> x8 == y8) by (bit_vector);
}

/// The inverse of the multiplier modulo the 64-bit range.
spec fn fnv_inverse() -> u64 {
    0xCE96_5057_AFF6_957B
}

proof fn lemma_fnv_prime_is_invertible(v: u64)
    ensures
        v.wrapping_mul(FNV_PRIME).wrapping_mul(fnv_inverse()) == v,
{
    let m: int = 0x1_0000_0000_0000_0000;
    let product = v as int * FNV_PRIME as int;
    vstd::arithmetic::div_mod::lemma_mul_mod_noop_left(product, fnv_inverse() as int, m);
    assert(product * fnv_inverse() == v as int * (FNV_PRIME as int * fnv_inverse() as int))
        by (nonlinear_arith)
        requires
            product == v as int * FNV_PRIME as int,
    ;
    let q: int = (FNV_PRIME as int * fnv_inverse() as int) / m;
    assert(FNV_PRIME as int * fnv_inverse() as int == q * m + 1);
    assert(v as int * (q * m + 1) == m * (v as int * q) + v as int) by (nonlinear_arith);
    vstd::arithmetic::div_mod::lemma_mod_multiples_vanish(v as int * q, v as int, m);
    vstd::arithmetic::div_mod::lemma_small_mod(v as nat, m as nat);
}

/// Different hashes stay different over the same bytes.
proof fn lemma_fnv_tells_apart(a: u64, b: u64, bytes: Seq<u8>)
    requires
        a != b,
    ensures
        fnv(a, bytes) != fnv(b, bytes),
    decreases bytes.len(),
{
    if bytes.len() > 0 {
        lemma_fnv_tells_apart(a, b, bytes.drop_last());
        if fnv(a, bytes) == fnv(b, bytes) {
            lemma_fnv_step_is_injective(
                fnv(a, bytes.drop_last()),
                fnv(b, bytes.drop_last()),
                bytes.last(),
                bytes.last(),
            );
        }
    }
}

/// Sequences that differ in one byte have different hashes, whether the byte
/// is one of a path, of an identifier or of a sample.
pub proof fn law_one_byte_changes_the_hash(a: Seq<u8>, b: Seq<u8>, at: int)
    requires
        differ_in_one(a, b, at),
    ensures
        fnv(FNV_OFFSET, a) != fnv(FNV_OFFSET, b),
{
    let front = a.take(at);
    let back = a.skip(at + 1);
    assert(a == a.take(at + 1) + back);
    assert(b == b.take(at + 1) + back);
    assert(a.take(at + 1).drop_last() == front);
    assert(b.take(at + 1).drop_last() == front);
    law_fnv_of_concatenation(FNV_OFFSET, a.take(at + 1), back);
    law_fnv_of_concatenation(FNV_OFFSET, b.take(at + 1), back);
    let h = fnv(FNV_OFFSET, front);
    if fnv_step(h, a[at]) == fnv_step(h, b[at]) {
        lemma_fnv_step_is_injective(h, h, a[at], b[at]);
    }
    lemma_fnv_tells_apart(fnv_step(h, a[at]), fnv_step(h, b[at]), back);
}

/// Whether two sequences are as long as each other and differ at one place
/// only.
pub open spec fn differ_in_one(a: Seq<u8>, b: Seq<u8>, at: int) -> bool {
    &&& a.len() == b.len()
    &&& 0 <= at < a.len()
    &&& a[at] != b[at]
    &&& forall|i: int| 0 <= i < a.len() && i != at ==> a[i] == b[i]
}

/// Whether two files have the same path and length and the same samples, but
/// for one byte: that of number `at` in the sample of number `k`.
pub open spec fn differ_in_one_sampled_byte(a: AudioFile, b: AudioFile, k: int, at: int) -> bool {
    &&& a.path@ == b.path@
    &&& a.samples matches Some(s)
    &&& b.samples matches Some(t)
    &&& s.wf() && t.wf()
    &&& s.length == t.length
    &&& 0 <= k < SAMPLE_COUNT
    &&& forall|i: int|
        0 <= i < SAMPLE_COUNT && i != k ==> same_chunk(#[trigger] s.chunks@[i], t.chunks@[i])
    &&& s.chunks@[k] matches Some(x)
    &&& t.chunks@[k] matches Some(y)
    &&& differ_in_one(x@, y@, at)
}

/// Whether two chunks hold the same bytes, or neither could be read.
pub open spec fn same_chunk(a: Option<Vec<u8>>, b: Option<Vec<u8>>) -> bool {
    match (a, b) {
        (Some(x), Some(y)) => x@ == y@,
        (None, None) => true,
        _ => false,
    }
}

/// A difference stays one difference between equal sequences.
proof fn lemma_differ_between(front: Seq<u8>, a: Seq<u8>, b: Seq<u8>, back: Seq<u8>, at: int)
    requires
        differ_in_one(a, b, at),
    ensures
        differ_in_one(front + a + back, front + b + back, front.len() + at),
{
    let s = front + a + back;
    let t = front + b + back;
    assert forall|i: int| 0 <= i < s.len() && i != front.len() + at implies s[i] == t[i] by {
        if front.len() <= i < front.len() + a.len() {
            assert(a[i - front.len()] == b[i - front.len()]);
        }
    }
}

/// One byte of difference between samples is one byte of difference between
/// what they add to the hash.
proof fn lemma_samples_differ(
    length: u64,
    a: Seq<Option<Vec<u8>>>,
    b: Seq<Option<Vec<u8>>>,
    k: int,
    at: int,
    n: int,
) -> (place: int)
    requires
        0 <= k,
        0 <= n <= a.len(),
        a.len() == b.len(),
        k < a.len(),
        forall|i: int| 0 <= i < a.len() && i != k ==> same_chunk(#[trigger] a[i], b[i]),
        a[k] matches Some(x) && b[k] matches Some(y) && differ_in_one(x@, y@, at),
    ensures
        n <= k ==> sample_bytes(length, a, n) == sample_bytes(length, b, n),
        n > k ==> differ_in_one(sample_bytes(length, a, n), sample_bytes(length, b, n), place),
    decreases n,
{
    if n <= 0 {
        0
    } else {
        let before = lemma_samples_differ(length, a, b, k, at, n - 1);
        let front_a = sample_bytes(length, a, n - 1);
        let front_b = sample_bytes(length, b, n - 1);
        let start = vstd::bytes::spec_u64_to_le_bytes(sample_start(length, n - 1));
        if n - 1 == k {
            let x = a[k]->0@;
            let y = b[k]->0@;
            lemma_differ_between(front_a + start, x, y, Seq::empty(), at);
            assert(front_a + start + x + Seq::<u8>::empty() == front_a + (start + x));
            assert(front_a + start + y + Seq::<u8>::empty() == front_b + (start + y));
            (front_a + start).len() + at
        } else {
            assert(same_chunk(a[n - 1], b[n - 1]));
            let added = match a[n - 1] {
                Some(bytes) => start + bytes@,
                None => Seq::empty(),
            };
            assert(sample_bytes(length, a, n) == front_a + added);
            assert(sample_bytes(length, b, n) == front_b + added);
            if n > k {
                lemma_differ_between(Seq::empty(), front_a, front_b, added, before);
                assert(Seq::<u8>::empty() + front_a + added == front_a + added);
                assert(Seq::<u8>::empty() + front_b + added == front_b + added);
            }
            before
        }
    }
}

/// A file that differs from another in one byte of what is sampled gets
/// another number.
pub proof fn law_one_byte_changes_the_seed(
    a: AudioFile,
    b: AudioFile,
    uuid_a: Option<Seq<u8>>,
    uuid_b: Option<Seq<u8>>,
    k: int,
    at: int,
)
    requires
        differ_in_one_sampled_byte(a, b, k, at),
    ensures
        fnv(FNV_OFFSET, song_bytes(Some(a), uuid_a)) != fnv(
            FNV_OFFSET,
            song_bytes(Some(b), uuid_b),
        ),
{
    let s = a.samples->0;
    let t = b.samples->0;
    let n = SAMPLE_COUNT as int;
    let place = lemma_samples_differ(s.length, s.chunks@, t.chunks@, k, at, n);
    let x = sample_bytes(s.length, s.chunks@, n);
    let y = sample_bytes(t.length, t.chunks@, n);
    let head = a.path@ + vstd::bytes::spec_u64_to_le_bytes(s.length);
    lemma_differ_between(head, x, y, Seq::empty(), place);
    assert(head + x + Seq::<u8>::empty() == song_bytes(Some(a), uuid_a));
    assert(head + y + Seq::<u8>::empty() == song_bytes(Some(b), uuid_b));
    law_one_byte_changes_the_hash(
        song_bytes(Some(a), uuid_a),
        song_bytes(Some(b), uuid_b),
        head.len() + place,
    );
}

/// What stands for a song depends on the bytes of its file alone, not on the
/// identifier, wherever the file could be sampled.
pub proof fn law_samples_outweigh_the_identifier(
    file: AudioFile,
    uuid_a: Option<Seq<u8>>,
    uuid_b: Option<Seq<u8>>,
)
    requires
        file.samples is Some,
    ensures
        song_bytes(Some(file), uuid_a) == song_bytes(Some(file), uuid_b),
{
}

/// Whether two files have the same path and the same samples, or neither has
/// samples.
pub open spec fn same_file(a: AudioFile, b: AudioFile) -> bool {
    &&& a.path@ == b.path@
    &&& match (a.samples, b.samples) {
        (Some(s), Some(t)) => {
            &&& s.wf() && t.wf()
            &&& s.length == t.length
            &&& forall|i: int|
                0 <= i < SAMPLE_COUNT ==> same_chunk(#[trigger] s.chunks@[i], t.chunks@[i])
        },
        (None, None) => true,
        _ => false,
    }
}

proof fn lemma_same_samples(
    length: u64,
    a: Seq<Option<Vec<u8>>>,
    b: Seq<Option<Vec<u8>>>,
    n: int,
)
    requires
        forall|i: int| 0 <= i < n ==> same_chunk(#[trigger] a[i], b[i]),
    ensures
        sample_bytes(length, a, n) == sample_bytes(length, b, n),
    decreases n,
{
    if n > 0 {
        lemma_same_samples(length, a, b, n - 1);
        assert(same_chunk(a[n - 1], b[n - 1]));
    }
}

/// The same song always starts from the same picture.
pub proof fn law_same_song_same_picture(
    a: AudioFile,
    b: AudioFile,
    uuid: Option<Seq<u8>>,
    state_a: Seq<u8>,
    state_b: Seq<u8>,
)
    requires
        same_file(a, b),
        pattern::is_seed_state(state_a, fnv(FNV_OFFSET, song_bytes(Some(a), uuid))),
        pattern::is_seed_state(state_b, fnv(FNV_OFFSET, song_bytes(Some(b), uuid))),
    ensures
        state_a == state_b,
{
    if let Some(s) = a.samples {
        let t = b.samples->0;
        lemma_same_samples(s.length, s.chunks@, t.chunks@, SAMPLE_COUNT as int);
    }
    pattern::law_seed_gives_one_state(
        state_a,
        state_b,
        fnv(FNV_OFFSET, song_bytes(Some(a), uuid)),
    );
}

/// A byte is mixed into the lowest bits of the hash, and the hash is multiplied
/// by 0x100000001B3 modulo the 64-bit range. No byte changes nothing.
pub proof fn law_fnv_of_one_byte(hash: u64, byte: u8)
    ensures
        fnv(hash, Seq::empty()) == hash,
        fnv(hash, seq![byte]) as int == ((hash ^ (byte as u64)) as int * 0x100_0000_01B3)
            % 0x1_0000_0000_0000_0000,
        FNV_OFFSET == 0xCBF2_9CE4_8422_2325,
{
    assert(seq![byte].drop_last() == Seq::<u8>::empty());
    assert(fnv(hash, Seq::<u8>::empty()) == hash);
}

/// Samples start at sevenths of the way to the last 768 bytes, rounded down;
/// a file shorter than that is sampled at its start. A product beyond 64 bits
/// counts as the largest number.
pub proof fn law_where_samples_start(length: u64, index: int)
    requires
        0 <= index < 8,
    ensures
        length <= 768 ==> sample_start(length, index) == 0,
        length > 768 && (length - 768) * index <= 0xffff_ffff_ffff_ffff ==> 7 * sample_start(
            length,
            index,
        ) <= (length - 768) * index < 7 * sample_start(length, index) + 7,
        length > 768 && (length - 768) * index > 0xffff_ffff_ffff_ffff ==> 7 * sample_start(
            length,
            index,
        ) <= 0xffff_ffff_ffff_ffff < 7 * sample_start(length, index) + 7,
{
    if length > 768 {
        let last = length - 768;
        assert(last * index >= 0) by (nonlinear_arith)
            requires
                last >= 0,
                index >= 0,
        ;
    } else {
        assert(0 * index == 0);
    }
}

/// What the sample of number `i` adds: the eight bytes of its start, the
/// lowest first, and its own bytes; nothing where it could not be read.
pub open spec fn piece(samples: AudioSamples, i: int) -> Seq<u8> {
    match samples.chunks@[i] {
        Some(bytes) => vstd::bytes::spec_u64_to_le_bytes(sample_start(samples.length, i)) + bytes@,
        None => Seq::empty(),
    }
}

proof fn lemma_one_more_piece(head: Seq<u8>, samples: AudioSamples, i: int)
    requires
        0 <= i,
    ensures
        head + sample_bytes(samples.length, samples.chunks@, i + 1) == (head + sample_bytes(
            samples.length,
            samples.chunks@,
            i,
        )) + piece(samples, i),
{
    assert(sample_bytes(samples.length, samples.chunks@, i + 1) == sample_bytes(
        samples.length,
        samples.chunks@,
        i,
    ) + piece(samples, i));
}

/// What stands for a song: its path, then the eight bytes of its length, then
/// its eight samples in their order; where it could not be sampled, its path
/// and its identifier.
pub proof fn law_what_stands_for_a_song(file: AudioFile, uuid: Option<Seq<u8>>)
    ensures
        file.samples matches Some(samples) ==> song_bytes(Some(file), uuid) == file.path@
            + vstd::bytes::spec_u64_to_le_bytes(samples.length) + piece(samples, 0) + piece(
            samples,
            1,
        ) + piece(samples, 2) + piece(samples, 3) + piece(samples, 4) + piece(samples, 5) + piece(
            samples,
            6,
        ) + piece(samples, 7),
        file.samples is None && uuid is Some ==> song_bytes(Some(file), uuid) == file.path@ + uuid->0,
        file.samples is None && uuid is None ==> song_bytes(Some(file), uuid) == file.path@,
        uuid is Some ==> song_bytes(None, uuid) == uuid->0,
        uuid is None ==> song_bytes(None, uuid).len() == 0,
{
    if let Some(samples) = file.samples {
        let head = file.path@ + vstd::bytes::spec_u64_to_le_bytes(samples.length);
        assert(head + sample_bytes(samples.length, samples.chunks@, 0) == head);
        lemma_one_more_piece(head, samples, 0);
        lemma_one_more_piece(head, samples, 1);
        lemma_one_more_piece(head, samples, 2);
        lemma_one_more_piece(head, samples, 3);
        lemma_one_more_piece(head, samples, 4);
        lemma_one_more_piece(head, samples, 5);
        lemma_one_more_piece(head, samples, 6);
        lemma_one_more_piece(head, samples, 7);
    }
    if let Some(id) = uuid {
        assert(Seq::<u8>::empty() + id == id);
    }
}

} // verus!
