//! Small helpers over byte slices: splitting by a predicate, concatenation,
//! little-endian integer decoding and UTF-8 decoding.
use vstd::prelude::*;
use vstd::utf8::*;

verus! {

// ---------------------------------------------------------------------------
// split_while

/// Splits `slice` into a prefix whose elements all match `pred` and the rest,
/// whose first element (if any) does not match `pred`.
pub fn split_while<'a, T, F>(slice: &'a [T], pred: F) -> (r: (&'a [T], &'a [T]))
    where
        F: Fn(&T) -> bool,
    requires
        forall|i: int| 0 <= i < slice@.len() ==> call_requires(pred, (&slice@[i],)),
    ensures
        r.0@ + r.1@ == slice@,
        forall|i: int| 0 <= i < r.0@.len() ==> call_ensures(pred, (&r.0@[i],), true),
        r.1@.len() > 0 ==> call_ensures(pred, (&r.1@[0],), false),
{
    let len = slice.len();
    if len == 0 {
        return (slice, slice);
    }
    let mut index: usize = 0;
    while index < len
        invariant
            len == slice@.len(),
            0 <= index <= len,
            forall|i: int| 0 <= i < slice@.len() ==> call_requires(pred, (&slice@[i],)),
            forall|i: int| 0 <= i < index ==> call_ensures(pred, (&slice@[i],), true),
        decreases len - index,
    {
        let matched = pred(&slice[index]);
        if !matched {
            let left = &slice[0..index];
            let right = &slice[index..len];
            assert(left@ + right@ =~= slice@);
            return (left, right);
        }
        index += 1;
    }
    let left = &slice[0..len];
    let right = &slice[len..len];
    assert(left@ + right@ =~= slice@);
    (left, right)
}

// ---------------------------------------------------------------------------
// Concatenation of byte chunks

/// The concatenation of all `chunks`, in order.
pub open spec fn spec_concat(chunks: Seq<Seq<u8>>) -> Seq<u8>
    decreases chunks.len(),
{
    if chunks.len() == 0 {
        Seq::empty()
    } else {
        spec_concat(chunks.drop_last()) + chunks.last()
    }
}

/// The sum of the lengths of all `chunks`.
pub open spec fn spec_total_len(chunks: Seq<Seq<u8>>) -> int
    decreases chunks.len(),
{
    if chunks.len() == 0 {
        0
    } else {
        spec_total_len(chunks.drop_last()) + chunks.last().len()
    }
}

/// The total length is the length of the concatenation.
pub proof fn lemma_total_len_is_concat_len(chunks: Seq<Seq<u8>>)
    ensures
        spec_total_len(chunks) == spec_concat(chunks).len(),
    decreases chunks.len(),
{
    if chunks.len() > 0 {
        lemma_total_len_is_concat_len(chunks.drop_last());
    }
}

/// The views of a slice of byte slices.
pub open spec fn chunk_views(chunks: &[&[u8]]) -> Seq<Seq<u8>> {
    Seq::new(chunks@.len(), |i: int| chunks@[i]@)
}

/// Sum of the lengths of `chunks`.
pub fn total_len(chunks: &[&[u8]]) -> (len: usize)
    requires
        spec_total_len(chunk_views(chunks)) <= usize::MAX,
    ensures
        len == spec_total_len(chunk_views(chunks)),
{
    let mut len: usize = 0;
    let mut i: usize = 0;
    while i < chunks.len()
        invariant
            0 <= i <= chunks@.len(),
            spec_total_len(chunk_views(chunks)) <= usize::MAX,
            len == spec_total_len(chunk_views(chunks).take(i as int)),
        decreases chunks@.len() - i,
    {
        proof {
            assert(chunk_views(chunks).take(i + 1).drop_last() =~= chunk_views(chunks).take(
                i as int,
            ));
            lemma_total_len_prefix_le(chunk_views(chunks), i + 1);
        }
        len += chunks[i].len();
        i += 1;
    }
    assert(chunk_views(chunks).take(i as int) =~= chunk_views(chunks));
    len
}

/// The total length of a prefix of the chunks is at most the total length.
pub proof fn lemma_total_len_prefix_le(chunks: Seq<Seq<u8>>, n: int)
    requires
        0 <= n <= chunks.len(),
    ensures
        spec_total_len(chunks.take(n)) <= spec_total_len(chunks),
    decreases chunks.len(),
{
    if n < chunks.len() {
        assert(chunks.drop_last().take(n) =~= chunks.take(n));
        lemma_total_len_prefix_le(chunks.drop_last(), n);
    } else {
        assert(chunks.take(n) =~= chunks);
    }
}

/// Concatenates all `chunks` into one buffer.
pub fn concat_chunks(chunks: &[&[u8]]) -> (buf: Vec<u8>)
    ensures
        buf@ == spec_concat(chunk_views(chunks)),
{
    let mut buf: Vec<u8> = Vec::new();
    let mut i: usize = 0;
    while i < chunks.len()
        invariant
            0 <= i <= chunks@.len(),
            buf@ == spec_concat(chunk_views(chunks).take(i as int)),
        decreases chunks@.len() - i,
    {
        let chunk: &[u8] = chunks[i];
        let mut j: usize = 0;
        let ghost before = buf@;
        while j < chunk.len()
            invariant
                0 <= j <= chunk@.len(),
                buf@ == before + chunk@.take(j as int),
            decreases chunk@.len() - j,
        {
            buf.push(chunk[j]);
            j += 1;
            assert(buf@ =~= before + chunk@.take(j as int));
        }
        proof {
            assert(chunk@.take(j as int) =~= chunk@);
            assert(chunk_views(chunks).take(i + 1).drop_last() =~= chunk_views(chunks).take(
                i as int,
            ));
        }
        i += 1;
    }
    assert(chunk_views(chunks).take(i as int) =~= chunk_views(chunks));
    buf
}

// ---------------------------------------------------------------------------
// Little-endian integers

/// The little-endian `u16` stored at `s[i..i + 2]`.
pub open spec fn le_u16(s: Seq<u8>, i: int) -> u16 {
    (s[i] as int + 256 * s[i + 1] as int) as u16
}

/// The little-endian `u32` stored at `s[i..i + 4]`.
pub open spec fn le_u32(s: Seq<u8>, i: int) -> u32 {
    (s[i] as int + 256 * s[i + 1] as int + 65536 * s[i + 2] as int + 16777216 * s[i
        + 3] as int) as u32
}

/// Reads the little-endian `u16` at `bytes[i..i + 2]`.
pub fn read_u16_le(bytes: &[u8], i: usize) -> (v: u16)
    requires
        i + 2 <= bytes@.len(),
    ensures
        v == le_u16(bytes@, i as int),
{
    let lo = bytes[i] as u16;
    let hi = bytes[i + 1] as u16;
    lo + hi * 256
}

/// Reads the little-endian `u32` at `bytes[i..i + 4]`.
pub fn read_u32_le(bytes: &[u8], i: usize) -> (v: u32)
    requires
        i + 4 <= bytes@.len(),
    ensures
        v == le_u32(bytes@, i as int),
{
    let b0 = bytes[i] as u32;
    let b1 = bytes[i + 1] as u32;
    let b2 = bytes[i + 2] as u32;
    let b3 = bytes[i + 3] as u32;
    b0 + b1 * 256 + b2 * 65536 + b3 * 16777216
}

// ---------------------------------------------------------------------------
// UTF-8

/// Calls `std::str::from_utf8`. By its documentation, it returns the text
/// exactly when `bytes` is valid UTF-8; the text is then `bytes` decoded.
#[verifier::external_body]
pub(crate) fn str_from_utf8(bytes: &[u8]) -> (r: Option<&str>)
    ensures
        r is Some <==> valid_utf8(bytes@),
        r matches Some(s) ==> s@ == decode_utf8(bytes@),
{
    std::str::from_utf8(bytes).ok()
}

/// Decodes `bytes` as UTF-8 into an owned string, or `None` when they are not UTF-8.
pub fn string_from_utf8(bytes: &[u8]) -> (r: Option<String>)
    ensures
        r is Some <==> valid_utf8(bytes@),
        r matches Some(s) ==> s@ == decode_utf8(bytes@),
{
    match str_from_utf8(bytes) {
        Some(s) => Some(s.to_owned()),
        None => None,
    }
}

} // verus!

verus! {

/// Whether `s` begins with `prefix`.
pub fn starts_with(s: &[u8], prefix: &[u8]) -> (r: bool)
    ensures
        r == (prefix@.len() <= s@.len() && s@.take(prefix@.len() as int) == prefix@),
{
    if prefix.len() > s.len() {
        return false;
    }
    let mut i: usize = 0;
    while i < prefix.len()
        invariant
            prefix@.len() <= s@.len(),
            0 <= i <= prefix@.len(),
            forall|j: int| 0 <= j < i ==> s@[j] == prefix@[j],
        decreases prefix@.len() - i,
    {
        if s[i] != prefix[i] {
            assert(s@.take(prefix@.len() as int)[i as int] != prefix@[i as int]);
            return false;
        }
        i += 1;
    }
    assert(s@.take(prefix@.len() as int) =~= prefix@);
    true
}

} // verus!

verus! {

/// Whether every byte of `b` is ASCII.
pub open spec fn is_ascii_bytes(b: Seq<u8>) -> bool {
    forall|i: int| 0 <= i < b.len() ==> #[trigger] b[i] < 128
}

/// The characters of ASCII bytes.
pub open spec fn ascii_chars(b: Seq<u8>) -> Seq<char> {
    b.map_values(|x: u8| x as char)
}

/// ASCII bytes are valid UTF-8 and decode to their characters.
pub proof fn lemma_ascii_utf8(b: Seq<u8>)
    requires
        is_ascii_bytes(b),
    ensures
        valid_utf8(b),
        decode_utf8(b) == ascii_chars(b),
    decreases b.len(),
{
    if b.len() > 0 {
        let b0 = b[0];
        assert(b0 < 128);
        assert(b0 & 0x7f == b0) by (bit_vector)
            requires
                b0 < 128,
        ;
        let rest = b.subrange(1, b.len() as int);
        assert(pop_first_scalar(b) == rest);
        lemma_ascii_utf8(rest);
        assert(ascii_chars(b) =~= seq![b0 as char] + ascii_chars(rest));
    } else {
        assert(ascii_chars(b) =~= Seq::<char>::empty());
    }
}

/// Turns ASCII bytes into a string.
pub fn ascii_to_string(b: &[u8]) -> (s: String)
    requires
        is_ascii_bytes(b@),
    ensures
        s@ == ascii_chars(b@),
{
    proof {
        lemma_ascii_utf8(b@);
    }
    match string_from_utf8(b) {
        Some(s) => s,
        None => String::new(),
    }
}

} // verus!

verus! {

// ---------------------------------------------------------------------------
// Splitting by a separator

/// The pieces of `s` between occurrences of `sep`, as `slice::split` yields
/// them: there is always at least one piece, and a separator at either end
/// gives an empty piece there.
pub open spec fn split_on<A>(s: Seq<A>, sep: A) -> Seq<Seq<A>>
    decreases s.len(),
{
    if s.len() == 0 {
        seq![Seq::empty()]
    } else {
        let init = split_on(s.drop_last(), sep);
        if s.last() == sep {
            init.push(Seq::empty())
        } else {
            init.update(init.len() - 1, init.last().push(s.last()))
        }
    }
}

/// Splitting always yields at least one piece.
pub proof fn lemma_split_on_nonempty<A>(s: Seq<A>, sep: A)
    ensures
        split_on(s, sep).len() >= 1,
    decreases s.len(),
{
    if s.len() > 0 {
        lemma_split_on_nonempty(s.drop_last(), sep);
    }
}

/// One more element either closes the last piece (a separator) or extends it.
pub proof fn lemma_split_on_step<A>(
    s: Seq<A>,
    sep: A,
    start: int,
    pos: int,
    done: Seq<Seq<A>>,
)
    requires
        0 <= start <= pos < s.len(),
        split_on(s.take(pos), sep) == done.push(s.subrange(start, pos)),
    ensures
        s[pos] == sep ==> split_on(s.take(pos + 1), sep) == done.push(s.subrange(start, pos)).push(
            s.subrange(pos + 1, pos + 1),
        ),
        s[pos] != sep ==> split_on(s.take(pos + 1), sep) == done.push(s.subrange(start, pos + 1)),
{
    assert(s.take(pos + 1).drop_last() =~= s.take(pos));
    assert(s.take(pos + 1).last() == s[pos]);
    assert(s.subrange(pos + 1, pos + 1) =~= Seq::<A>::empty());
    assert(s.subrange(start, pos + 1) =~= s.subrange(start, pos).push(s[pos]));
    if s[pos] == sep {
        assert(split_on(s.take(pos + 1), sep) =~= done.push(s.subrange(start, pos)).push(
            s.subrange(pos + 1, pos + 1),
        ));
    } else {
        assert(split_on(s.take(pos + 1), sep) =~= done.push(s.subrange(start, pos + 1)));
    }
}

} // verus!

verus! {

/// Calls `FromIterator<char>` for `String` on the characters, which by its
/// documentation makes the string of exactly those characters, in order.
#[verifier::external_body]
pub(crate) fn string_from_chars(chars: &[char]) -> (s: String)
    ensures
        s@ == chars@,
{
    chars.iter().collect()
}

/// The characters of `s`, in order.
pub fn str_chars(s: &str) -> (v: Vec<char>)
    ensures
        v@ == s@,
{
    broadcast use vstd::string::axiom_spec_iter;

    let mut v: Vec<char> = Vec::new();
    for c in it: s.chars()
        invariant
            it.seq() == s@,
            v@ == s@.take(it.index()),
    {
        v.push(c);
    }
    assert(v@ =~= s@);
    v
}

} // verus!

verus! {

// ---------------------------------------------------------------------------
// Finding a pattern

/// Whether `pat` occurs in `s` at `p`.
pub open spec fn occurs_at<A>(s: Seq<A>, p: int, pat: Seq<A>) -> bool {
    0 <= p && p + pat.len() <= s.len() && s.subrange(p, p + pat.len()) == pat
}

/// Whether `p` is where `pat` first occurs in `s`.
pub open spec fn is_first_occurrence<A>(s: Seq<A>, p: int, pat: Seq<A>) -> bool {
    occurs_at(s, p, pat) && forall|q: int| 0 <= q < p ==> !occurs_at(s, q, pat)
}

/// Where `pat` first occurs in `s`, as `str::find` and `str::split_once` find
/// it; `None` where it does not occur.
pub open spec fn first_occurrence<A>(s: Seq<A>, pat: Seq<A>) -> Option<int> {
    if exists|p: int| occurs_at(s, p, pat) {
        Some(choose|p: int| is_first_occurrence(s, p, pat))
    } else {
        None
    }
}

/// A first occurrence is the one `first_occurrence` names.
pub proof fn lemma_first_occurrence<A>(s: Seq<A>, pat: Seq<A>, p: int)
    requires
        is_first_occurrence(s, p, pat),
    ensures
        first_occurrence(s, pat) == Some(p),
{
    assert(occurs_at(s, p, pat));
    let c = choose|q: int| is_first_occurrence(s, q, pat);
    assert(is_first_occurrence(s, c, pat));
    if c < p {
        assert(!occurs_at(s, c, pat));
    }
    if p < c {
        assert(!occurs_at(s, p, pat));
    }
}

/// Whether `s` holds `pat` at `p`.
pub fn pattern_at(s: &[char], p: usize, pat: &[char]) -> (r: bool)
    requires
        p <= s@.len(),
    ensures
        r == occurs_at(s@, p as int, pat@),
{
    if s.len() - p < pat.len() {
        return false;
    }
    let slen = s.len();
    let mut i: usize = 0;
    while i < pat.len()
        invariant
            slen == s@.len(),
            p + pat@.len() <= slen,
            0 <= i <= pat@.len(),
            forall|j: int| 0 <= j < i ==> s@[p + j] == pat@[j],
        decreases pat@.len() - i,
    {
        if s[p + i] != pat[i] {
            assert(s@.subrange(p as int, p + pat@.len())[i as int] != pat@[i as int]);
            return false;
        }
        i += 1;
    }
    assert(s@.subrange(p as int, p + pat@.len()) =~= pat@);
    true
}

/// Where `pat` first occurs in `s`.
pub fn find_pattern(s: &[char], pat: &[char]) -> (r: Option<usize>)
    ensures
        match r {
            Some(p) => first_occurrence(s@, pat@) == Some(p as int) && is_first_occurrence(
                s@,
                p as int,
                pat@,
            ),
            None => first_occurrence(s@, pat@) is None,
        },
{
    let len = s.len();
    let mut p: usize = 0;
    while p < len
        invariant
            len == s@.len(),
            0 <= p <= len,
            forall|q: int| 0 <= q < p ==> !occurs_at(s@, q, pat@),
        decreases len - p,
    {
        if pattern_at(s, p, pat) {
            proof {
                lemma_first_occurrence(s@, pat@, p as int);
            }
            return Some(p);
        }
        p += 1;
    }
    if pattern_at(s, len, pat) {
        proof {
            lemma_first_occurrence(s@, pat@, len as int);
        }
        return Some(len);
    }
    assert forall|q: int| !occurs_at(s@, q, pat@) by {
        if 0 <= q < len {
        }
    }
    None
}

} // verus!
