//! Fingerprints of nucleotide sequences: the IUPAC filter, the reverse
//! complement, fixed-size windows and their hashes.
use vstd::prelude::*;
use crate::index::KmersMap;

verus! {

/// The hash of a window of text, as mur3 computes it (the first half of the
/// 128-bit MurmurHash3 of its UTF-8 bytes, seed 0).
pub uninterp spec fn kmer_hash(text: Seq<char>) -> u64;

/// The upper-case nucleotide a character stands for, if it is one of
/// `A`, `C`, `G`, `T` in either case.
pub open spec fn normalized_base(c: char) -> Option<char> {
    if c == 'A' || c == 'a' {
        Some('A')
    } else if c == 'C' || c == 'c' {
        Some('C')
    } else if c == 'G' || c == 'g' {
        Some('G')
    } else if c == 'T' || c == 't' {
        Some('T')
    } else {
        None
    }
}

/// The upper case of a text, as std's `str::to_uppercase` gives it.
pub uninterp spec fn upper_of(s: Seq<char>) -> Seq<char>;

/// Whether every character of the text is ASCII.
pub open spec fn is_ascii_text(s: Seq<char>) -> bool {
    forall|i: int| 0 <= i < s.len() ==> (#[trigger] s[i] as u32) < 128
}

/// The ASCII upper case of a character: `a` to `z` become `A` to `Z`, other
/// characters are kept.
pub open spec fn ascii_upper(c: char) -> char {
    if 'a' <= c && c <= 'z' {
        ((c as u32) - 32) as char
    } else {
        c
    }
}

/// The upper case of a text: on ASCII text, each letter upper-cased; on other
/// text, std's full Unicode upper case.
pub open spec fn upper_text(s: Seq<char>) -> Seq<char> {
    if is_ascii_text(s) {
        s.map_values(|c: char| ascii_upper(c))
    } else {
        upper_of(s)
    }
}

/// Whether a character is one of `A`, `C`, `G`, `T`.
pub open spec fn is_base(c: char) -> bool {
    c == 'A' || c == 'C' || c == 'G' || c == 'T'
}

/// The characters of a text that are one of `A`, `C`, `G`, `T`, in order.
pub open spec fn keep_bases(s: Seq<char>) -> Seq<char>
    decreases s.len(),
{
    if s.len() == 0 {
        Seq::empty()
    } else if is_base(s.last()) {
        keep_bases(s.drop_last()).push(s.last())
    } else {
        keep_bases(s.drop_last())
    }
}

/// The sequence upper-cased, then with every character other than `A`, `C`,
/// `G`, `T` removed.
pub open spec fn iupac_only(s: Seq<char>) -> Seq<char> {
    keep_bases(upper_text(s))
}

/// Whether every character is one of `A`, `C`, `G`, `T`.
pub open spec fn is_nucleotides(s: Seq<char>) -> bool {
    forall|i: int| 0 <= i < s.len() ==> #[trigger] normalized_base(s[i]) == Some(s[i])
}

/// The complementary base (`A`/`T`, `C`/`G`, either case in, upper case out);
/// other characters are kept.
pub open spec fn complement(c: char) -> char {
    if c == 'A' || c == 'a' {
        'T'
    } else if c == 'T' || c == 't' {
        'A'
    } else if c == 'C' || c == 'c' {
        'G'
    } else if c == 'G' || c == 'g' {
        'C'
    } else {
        c
    }
}

/// The reverse complement of a strand.
pub open spec fn reverse_complement_of(s: Seq<char>) -> Seq<char> {
    Seq::new(s.len(), |i: int| complement(s[s.len() - 1 - i]))
}

/// Every window of `k` consecutive characters, from position 0 on.
pub open spec fn windows(s: Seq<char>, k: nat) -> Seq<Seq<char>> {
    if s.len() < k {
        Seq::empty()
    } else {
        Seq::new((s.len() - k + 1) as nat, |i: int| s.subrange(i, i + k))
    }
}

/// Each window paired with its hash.
pub open spec fn hashed(ws: Seq<Seq<char>>) -> Seq<(Seq<char>, u64)> {
    ws.map_values(|w: Seq<char>| (w, kmer_hash(w)))
}

/// The fingerprints of a sequence: after the IUPAC filter, the windows of the
/// forward strand followed by those of its reverse complement, each with its
/// hash; none when the filtered sequence is shorter than the window.
pub open spec fn fingerprints_of(seq: Seq<char>, k: nat) -> Seq<(Seq<char>, u64)> {
    let t = iupac_only(seq);
    if t.len() < k {
        Seq::empty()
    } else {
        hashed(windows(t, k)) + hashed(windows(reverse_complement_of(t), k))
    }
}

/// The bucket of a window: the hash of its first `m` characters, or 0 when
/// `m` is 0.
pub open spec fn bucket_of(text: Seq<char>, m: nat) -> u64 {
    if m == 0 {
        0
    } else if m <= text.len() {
        kmer_hash(text.take(m as int))
    } else {
        kmer_hash(text)
    }
}

/// The view of a list of fingerprints.
pub open spec fn fingerprints_view(v: Seq<(String, u64)>) -> Seq<(Seq<char>, u64)> {
    v.map_values(|p: (String, u64)| (p.0@, p.1))
}

/// Relies on mur3::murmurhash3_x64_128 with seed 0: the first half of the
/// hash of the text's bytes, which depends on the text alone.
#[verifier::external_body]
pub(crate) fn hash_kmer(kmer: &str) -> (r: u64)
    ensures
        r == kmer_hash(kmer@),
{
    mur3::murmurhash3_x64_128(kmer.as_bytes(), 0).0
}

/// Relies on std's `str::to_uppercase`: the upper case of the text, which
/// depends on its characters alone; on ASCII text, each letter `a` to `z`
/// becomes `A` to `Z` and every other character is kept.
#[verifier::external_body]
fn to_upper(s: &str) -> (r: String)
    ensures
        r@ == upper_of(s@),
        is_ascii_text(s@) ==> r@ == s@.map_values(|c: char| ascii_upper(c)),
{
    s.to_uppercase()
}

/// Relies on `String`'s `FromIterator<char>`: the string holds the
/// characters in order.
#[verifier::external_body]
pub(crate) fn string_from_chars(chars: &Vec<char>) -> (r: String)
    ensures
        r@ == chars@,
{
    chars.iter().collect()
}

/// The characters of a string, in order.
pub fn chars_of(s: &str) -> (r: Vec<char>)
    ensures
        r@ == s@,
{
    let mut out: Vec<char> = Vec::new();
    for c in it: s.chars()
        invariant
            it.seq() == s@,
            out@ == it.seq().take(it.index() as int),
    {
        assert(it.seq().take(it.index() + 1) == it.seq().take(it.index() as int).push(c));
        out.push(c);
    }
    assert(out@ == s@.take(s@.len() as int));
    out
}

/// The upper-cased nucleotides of a sequence, other characters dropped.
pub fn iupac_chars(s: &str) -> (r: Vec<char>)
    ensures
        r@ == iupac_only(s@),
        is_nucleotides(r@),
{
    let upper = to_upper(s);
    assert(upper@ == upper_text(s@));
    let chars = chars_of(upper.as_str());
    let mut out: Vec<char> = Vec::new();
    let mut i: usize = 0;
    while i < chars.len()
        invariant
            i <= chars.len(),
            chars@ == upper_text(s@),
            out@ == keep_bases(chars@.take(i as int)),
            is_nucleotides(out@),
        decreases chars.len() - i,
    {
        let c = chars[i];
        assert(chars@.take(i + 1).drop_last() == chars@.take(i as int));
        if c == 'A' || c == 'C' || c == 'G' || c == 'T' {
            out.push(c);
        }
        i = i + 1;
    }
    assert(chars@.take(chars.len() as int) == chars@);
    out
}

fn complement_base(c: char) -> (r: char)
    ensures
        r == complement(c),
{
    if c == 'A' || c == 'a' {
        'T'
    } else if c == 'T' || c == 't' {
        'A'
    } else if c == 'C' || c == 'c' {
        'G'
    } else if c == 'G' || c == 'g' {
        'C'
    } else {
        c
    }
}

/// The reverse complement of a list of characters.
pub fn reverse_complement_chars(s: &Vec<char>) -> (r: Vec<char>)
    ensures
        r@ == reverse_complement_of(s@),
{
    let mut out: Vec<char> = Vec::new();
    let n = s.len();
    let mut i: usize = 0;
    while i < n
        invariant
            n == s.len(),
            i <= n,
            out@.len() == i,
            forall|j: int| 0 <= j < i ==> out@[j] == complement(s@[n - 1 - j]),
        decreases n - i,
    {
        out.push(complement_base(s[n - 1 - i]));
        i = i + 1;
    }
    assert(out@ == reverse_complement_of(s@));
    out
}

/// The characters `s[start..end]`.
pub(crate) fn slice_chars(s: &Vec<char>, start: usize, end: usize) -> (r: Vec<char>)
    requires
        start <= end <= s.len(),
    ensures
        r@ == s@.subrange(start as int, end as int),
{
    let mut out: Vec<char> = Vec::new();
    let mut i: usize = start;
    while i < end
        invariant
            start <= i <= end <= s.len(),
            out@ == s@.subrange(start as int, i as int),
        decreases end - i,
    {
        out.push(s[i]);
        i = i + 1;
        assert(out@ == s@.subrange(start as int, i as int));
    }
    out
}

/// The windows of `size` characters of a strand, each with its hash; none
/// when the strand is shorter than the window.
pub fn hashed_windows(s: &Vec<char>, size: u64) -> (r: Vec<(String, u64)>)
    ensures
        fingerprints_view(r@) == hashed(windows(s@, size as nat)),
{
    let mut out: Vec<(String, u64)> = Vec::new();
    if (s.len() as u64) < size {
        assert(fingerprints_view(out@) =~= hashed(windows(s@, size as nat)));
        return out;
    }
    let k = size as usize;
    let ghost target = hashed(windows(s@, size as nat));
    assert(target.len() == s.len() - k + 1);
    let mut i: usize = 0;
    loop
        invariant_except_break
            k == size,
            i + k <= s.len(),
            target == hashed(windows(s@, size as nat)),
            target.len() == s.len() - k + 1,
            fingerprints_view(out@) == target.take(i as int),
            out@.len() == i,
        ensures
            fingerprints_view(out@) == target,
        decreases s.len() - k - i,
    {
        let w = slice_chars(s, i, i + k);
        let text = string_from_chars(&w);
        let h = hash_kmer(text.as_str());
        let ghost before = out@;
        let ghost tv = text@;
        out.push((text, h));
        assert(target[i as int] == (tv, h));
        assert forall|j: int| 0 <= j < i + 1 implies #[trigger] fingerprints_view(out@)[j]
            == target.take(i + 1)[j] by {
            if j < i {
                assert(out@[j] == before[j]);
                assert(fingerprints_view(before)[j] == target.take(i as int)[j]);
            } else {
                assert(out@[j].0@ == tv && out@[j].1 == h);
            }
        }
        assert(fingerprints_view(out@) =~= target.take(i + 1));
        if i + k == s.len() {
            assert(target.take(i + 1) == target);
            break;
        }
        i = i + 1;
    }
    out
}


impl KmersMap {
    /// The fingerprints of a sequence for windows of `k_size` characters
    /// (the index's own size when `None`): see [`fingerprints_of`].
    pub fn build_kmer_from_string(&self, sequence: &str, k_size: Option<u64>) -> (r: Vec<(String, u64)>)
        ensures
            fingerprints_view(r@) == fingerprints_of(
                sequence@,
                (match k_size {
                    Some(k) => k,
                    None => self.kmer_size(),
                }) as nat,
            ),
    {
        let size = match k_size {
            Some(k) => k,
            None => self.get_kmer_size(),
        };
        let t = iupac_chars(sequence);
        if (t.len() as u64) < size {
            let empty: Vec<(String, u64)> = Vec::new();
            assert(fingerprints_view(empty@) =~= Seq::<(Seq<char>, u64)>::empty());
            return empty;
        }
        let mut kmers = hashed_windows(&t, size);
        let rc = reverse_complement_chars(&t);
        let mut back = hashed_windows(&rc, size);
        let ghost front = kmers@;
        let ghost tail = back@;
        kmers.append(&mut back);
        assert(fingerprints_view(kmers@) =~= fingerprints_view(front) + fingerprints_view(tail));
        kmers
    }

    /// The windows of `size` characters of the IUPAC-filtered sequence, each
    /// with its hash; none when it is shorter than the window.
    pub fn build_kmers_from_sequence(sequence: &str, size: u64) -> (r: Vec<(String, u64)>)
        ensures
            fingerprints_view(r@) == hashed(windows(iupac_only(sequence@), size as nat)),
    {
        let t = iupac_chars(sequence);
        hashed_windows(&t, size)
    }

    /// The reverse complement of a sequence of `A`, `C`, `G`, `T` in either
    /// case.
    pub fn reverse_complement(sequence: &str) -> (r: String)
        requires
            forall|i: int| 0 <= i < sequence@.len() ==> #[trigger] normalized_base(sequence@[i]) is Some,
        ensures
            r@ == reverse_complement_of(sequence@),
    {
        let chars = chars_of(sequence);
        let rc = reverse_complement_chars(&chars);
        string_from_chars(&rc)
    }
}

/// The reverse complement of the reverse complement of a strand of `A`, `C`,
/// `G`, `T` (in either case) gives the same fingerprints as the strand.
pub proof fn lemma_round_trip(s: Seq<char>, k: nat)
    requires
        forall|i: int| 0 <= i < s.len() ==> #[trigger] normalized_base(s[i]) is Some,
    ensures
        fingerprints_of(reverse_complement_of(reverse_complement_of(s)), k) == fingerprints_of(s, k),
{
    let twice = reverse_complement_of(reverse_complement_of(s));
    assert forall|i: int| 0 <= i < s.len() implies (#[trigger] s[i] as u32) < 128 by {
        assert(normalized_base(s[i]) is Some);
    }
    assert forall|i: int| 0 <= i < twice.len() implies (#[trigger] twice[i] as u32) < 128 && ascii_upper(twice[i])
        == ascii_upper(s[i]) by {
        assert(normalized_base(s[i]) is Some);
        assert(twice[i] == complement(complement(s[i])));
    }
    assert(upper_text(twice) =~= upper_text(s));
}
} // verus!
