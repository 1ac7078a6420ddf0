//! Identifier fields: fixed-width, space padded, stored with each 4-byte word
//! reversed.
use vstd::prelude::*;

verus! {

/// Width in bytes of an identifier field in the version 2 entry layout.
pub const INFO_ENTRY_SIZE: usize = 16;

/// Whitespace as `char::is_whitespace` sees it, on 7-bit ASCII.
pub open spec fn is_ws(b: u8) -> bool {
    b == 32 || (9 <= b && b <= 13)
}

/// A byte that an identifier field takes: 7-bit ASCII, not whitespace.
pub open spec fn is_id_byte(b: u8) -> bool {
    b < 128 && !is_ws(b)
}

/// A byte that decoding trims from the end of a field.
pub open spec fn is_pad(b: u8) -> bool {
    b == 0 || b == 32
}

/// How many leading bytes of `src`, at most `lim`, are copied into a field:
/// the copy stops at the first byte that is not an identifier byte.
pub open spec fn copy_len(src: Seq<u8>, lim: nat) -> nat
    decreases lim,
{
    if lim == 0 {
        0
    } else {
        let p = copy_len(src, (lim - 1) as nat);
        if p == lim - 1 && lim - 1 < src.len() && is_id_byte(src[lim - 1]) {
            lim
        } else {
            p
        }
    }
}

/// `dst` after `copy_str_to_cstr`: the copied prefix, then NUL bytes to the
/// end of the field.
pub open spec fn copied(dst: Seq<u8>, src: Seq<u8>) -> Seq<u8> {
    let n = copy_len(src, (dst.len() - 1) as nat);
    Seq::new(dst.len(), |i: int| if i < n { src[i] } else { 0u8 })
}

/// Every byte of `s` from `i` on is NUL.
pub open spec fn nul_from(s: Seq<u8>, i: int) -> bool {
    forall|j: int| i <= j < s.len() ==> s[j] == 0
}

/// `s` with its trailing run of NUL bytes turned into spaces; a field that
/// is NUL throughout keeps its last byte NUL, so that it stays terminated.
pub open spec fn padded(s: Seq<u8>) -> Seq<u8> {
    Seq::new(
        s.len(),
        |i: int|
            if nul_from(s, 0) && i == s.len() - 1 {
                0u8
            } else if nul_from(s, i) {
                32u8
            } else {
                s[i]
            },
    )
}

/// Index of the byte that lands at `i` when each 4-byte word is reversed.
pub open spec fn swapped_index(i: int) -> int {
    i - i % 4 + 3 - i % 4
}

/// `s` with the byte order of each 4-byte word reversed.
pub open spec fn word_swapped(s: Seq<u8>) -> Seq<u8> {
    Seq::new(s.len(), |i: int| s[swapped_index(i)])
}

/// Length of `s` once its trailing NUL and space bytes are dropped.
pub open spec fn trim_len(s: Seq<u8>) -> nat
    decreases s.len(),
{
    if s.len() == 0 {
        0
    } else if is_pad(s.last()) {
        trim_len(s.drop_last())
    } else {
        s.len()
    }
}

/// The text an on-disk identifier field holds.
pub open spec fn decoded(field: Seq<u8>) -> Seq<u8> {
    let s = word_swapped(field);
    s.take(trim_len(s) as int)
}

/// The on-disk field of `width` bytes that the identifier `src` is stored as.
pub open spec fn encoded(src: Seq<u8>, width: nat) -> Seq<u8> {
    word_swapped(padded(copied(Seq::new(width, |i: int| 0u8), src)))
}

/// A separator of identifier components.
pub open spec fn is_sep(b: u8) -> bool {
    b == 45 || b == 95
}

/// The components of `s` between separators, in order.
pub open spec fn components(s: Seq<u8>) -> Seq<Seq<u8>>
    decreases s.len(),
{
    if s.len() == 0 {
        seq![Seq::empty()]
    } else {
        let f = components(s.drop_last());
        if is_sep(s.last()) {
            f.push(Seq::empty())
        } else {
            f.update(f.len() - 1, f.last().push(s.last()))
        }
    }
}

proof fn lemma_copy_len_bounded(src: Seq<u8>, lim: nat)
    ensures
        copy_len(src, lim) <= lim,
        copy_len(src, lim) <= src.len() || copy_len(src, lim) == 0,
        forall|i: int| 0 <= i < copy_len(src, lim) ==> is_id_byte(src[i]),
    decreases lim,
{
    if lim > 0 {
        lemma_copy_len_bounded(src, (lim - 1) as nat);
    }
}

proof fn lemma_copy_len_stops(src: Seq<u8>, k: nat, lim: nat)
    requires
        k <= lim,
        copy_len(src, k) < k,
    ensures
        copy_len(src, lim) == copy_len(src, k),
    decreases lim,
{
    if lim > k {
        lemma_copy_len_stops(src, k, (lim - 1) as nat);
        lemma_copy_len_bounded(src, (lim - 1) as nat);
    }
}

/// Turns the trailing run of NUL bytes of `s` into spaces, keeping the last
/// byte NUL where `s` is NUL throughout.
pub fn pad_spaces(s: &mut Vec<u8>)
    ensures
        final(s)@ == padded(old(s)@),
{
    let ghost s0 = s@;
    let mut i: usize = s.len();
    while i > 0 && s[i - 1] == 0
        invariant
            i <= s.len(),
            s@.len() == s0.len(),
            nul_from(s0, i as int),
            forall|k: int| 0 <= k < i ==> s@[k] == s0[k],
            forall|k: int| i <= k < s@.len() ==> s@[k] == 32,
        decreases i,
    {
        s.set(i - 1, 32);
        i = i - 1;
    }
    assert forall|k: int| 0 <= k < i implies !nul_from(s0, k) by {
        assert(s0[i - 1] != 0);
    }
    if i == 0 && s.len() > 0 {
        let last = s.len() - 1;
        s.set(last, 0);
    }
    assert(s@ =~= padded(s0));
}

/// Copies the leading identifier bytes of `src`, at most `INFO_ENTRY_SIZE - 1`
/// of them, into `dst`, and fills the rest of the field with NUL bytes.
pub fn copy_str_to_cstr(dst: &mut Vec<u8>, src: &[u8])
    requires
        old(dst)@.len() == INFO_ENTRY_SIZE,
    ensures
        final(dst)@ == copied(old(dst)@, src@),
{
    let ghost d0 = dst@;
    let lim: usize = if src.len() < INFO_ENTRY_SIZE - 1 {
        src.len()
    } else {
        INFO_ENTRY_SIZE - 1
    };
    let mut i: usize = 0;
    while i < lim
        invariant
            lim <= src.len(),
            lim <= INFO_ENTRY_SIZE - 1,
            i <= lim,
            dst@.len() == INFO_ENTRY_SIZE,
            d0.len() == INFO_ENTRY_SIZE,
            copy_len(src@, i as nat) == i,
            forall|k: int| 0 <= k < i ==> dst@[k] == src@[k],
            forall|k: int| i <= k < INFO_ENTRY_SIZE ==> dst@[k] == d0[k],
        ensures
            i <= lim,
            i == lim || !is_id_byte(src@[i as int]),
        decreases lim - i,
    {
        let c = src[i];
        if c >= 128 || c == 32 || (9 <= c && c <= 13) {
            break;
        }
        dst.set(i, c);
        i = i + 1;
    }
    proof {
        let full = (INFO_ENTRY_SIZE - 1) as nat;
        if i < full {
            assert(copy_len(src@, (i + 1) as nat) == i);
            lemma_copy_len_stops(src@, (i + 1) as nat, full);
        }
        assert(copy_len(src@, full) == i);
    }
    let mut j: usize = i;
    while j < INFO_ENTRY_SIZE
        invariant
            i <= j <= INFO_ENTRY_SIZE,
            dst@.len() == INFO_ENTRY_SIZE,
            forall|k: int| 0 <= k < i ==> dst@[k] == src@[k],
            forall|k: int| i <= k < j ==> dst@[k] == 0,
        decreases INFO_ENTRY_SIZE - j,
    {
        dst.set(j, 0);
        j = j + 1;
    }
    assert(dst@ =~= copied(d0, src@));
}

/// `field` with the byte order of each 4-byte word reversed.
pub fn swap_words(field: &[u8]) -> (r: Vec<u8>)
    requires
        field@.len() % 4 == 0,
    ensures
        r@ == word_swapped(field@),
{
    let mut r: Vec<u8> = Vec::new();
    let mut i: usize = 0;
    while i < field.len()
        invariant
            i <= field@.len(),
            field@.len() % 4 == 0,
            r@.len() == i,
            forall|k: int| 0 <= k < i ==> r@[k] == field@[swapped_index(k)],
        decreases field.len() - i,
    {
        let j: usize = i - i % 4 + 3 - i % 4;
        r.push(field[j]);
        i = i + 1;
    }
    assert(r@ =~= word_swapped(field@));
    r
}

/// The identifier text an on-disk field holds: words reversed back, trailing
/// NUL and space bytes dropped.
pub fn decode_field(field: &[u8]) -> (r: Vec<u8>)
    requires
        field@.len() % 4 == 0,
    ensures
        r@ == decoded(field@),
{
    let mut s = swap_words(field);
    let ghost s0 = s@;
    let mut i: usize = s.len();
    assert(s0.take(i as int) =~= s0);
    while i > 0 && (s[i - 1] == 0 || s[i - 1] == 32)
        invariant
            i <= s0.len(),
            s@ == s0,
            trim_len(s0.take(i as int)) == trim_len(s0),
        decreases i,
    {
        assert(s0.take(i as int).drop_last() =~= s0.take(i - 1));
        i = i - 1;
    }
    s.truncate(i);
    assert(s@ =~= s0.take(trim_len(s0) as int));
    s
}

/// The on-disk field of `INFO_ENTRY_SIZE` bytes that stores the identifier
/// `src`.
pub fn encode_field(src: &[u8]) -> (r: Vec<u8>)
    ensures
        r@ == encoded(src@, INFO_ENTRY_SIZE as nat),
{
    let mut f: Vec<u8> = vec![0u8; INFO_ENTRY_SIZE];
    assert(f@ =~= Seq::new(INFO_ENTRY_SIZE as nat, |i: int| 0u8));
    copy_str_to_cstr(&mut f, src);
    pad_spaces(&mut f);
    swap_words(f.as_slice())
}

/// Splits an identifier at `-` and `_` into its three components; `None`
/// unless there are exactly three.
pub fn split_identifier(s: &[u8]) -> (r: Option<(Vec<u8>, Vec<u8>, Vec<u8>)>)
    ensures
        r is Some <==> components(s@).len() == 3,
        r matches Some(t) ==> t.0@ == components(s@)[0] && t.1@ == components(s@)[1]
            && t.2@ == components(s@)[2],
{
    let mut parts: Vec<Vec<u8>> = Vec::new();
    let mut cur: Vec<u8> = Vec::new();
    let mut i: usize = 0;
    assert(s@.take(0) =~= Seq::<u8>::empty());
    while i < s.len()
        invariant
            i <= s@.len(),
            parts@.len() + 1 == components(s@.take(i as int)).len(),
            forall|k: int|
                0 <= k < parts@.len() ==> parts@[k]@ == components(s@.take(i as int))[k],
            cur@ == components(s@.take(i as int)).last(),
        decreases s.len() - i,
    {
        let ghost f = components(s@.take(i as int));
        assert(s@.take(i + 1).drop_last() =~= s@.take(i as int));
        let c = s[i];
        if c == 45 || c == 95 {
            let done = cur;
            parts.push(done);
            cur = Vec::new();
        } else {
            cur.push(c);
        }
        i = i + 1;
    }
    assert(s@.take(i as int) =~= s@);
    if parts.len() == 2 {
        let b = parts.pop().unwrap();
        let a = parts.pop().unwrap();
        Some((a, b, cur))
    } else {
        None
    }
}

/// An identifier component that survives encoding and decoding unchanged:
/// identifier bytes, shorter than a field, not ending in NUL.
pub open spec fn is_clean_component(c: Seq<u8>) -> bool {
    &&& c.len() < INFO_ENTRY_SIZE
    &&& forall|i: int| 0 <= i < c.len() ==> is_id_byte(c[i])
    &&& (c.len() == 0 || c.last() != 0)
}

proof fn lemma_copy_len_all(c: Seq<u8>, k: nat)
    requires
        k <= c.len(),
        forall|i: int| 0 <= i < c.len() ==> is_id_byte(c[i]),
    ensures
        copy_len(c, k) == k,
    decreases k,
{
    if k > 0 {
        lemma_copy_len_all(c, (k - 1) as nat);
    }
}

proof fn lemma_word_swapped_twice(s: Seq<u8>)
    requires
        s.len() % 4 == 0,
    ensures
        word_swapped(word_swapped(s)) == s,
{
    assert forall|i: int| 0 <= i < s.len() implies 0 <= #[trigger] swapped_index(i) < s.len()
        && swapped_index(swapped_index(i)) == i by {}
    assert(word_swapped(word_swapped(s)) =~= s);
}

proof fn lemma_trim_spaces(p: Seq<u8>, n: nat, k: nat)
    requires
        n <= k <= p.len(),
        n == 0 || !is_pad(p[n - 1]),
        forall|i: int| n <= i < p.len() ==> is_pad(p[i]),
    ensures
        trim_len(p.take(k as int)) == n,
    decreases k,
{
    if k > n {
        assert(p.take(k as int).drop_last() =~= p.take(k - 1));
        lemma_trim_spaces(p, n, (k - 1) as nat);
    } else if n > 0 {
        assert(p.take(k as int).last() == p[n - 1]);
    }
}

proof fn lemma_copied_clean(c: Seq<u8>, cp: Seq<u8>)
    requires
        is_clean_component(c),
        cp == copied(Seq::new(INFO_ENTRY_SIZE as nat, |k: int| 0u8), c),
    ensures
        cp.len() == INFO_ENTRY_SIZE,
        forall|i: int| 0 <= i < INFO_ENTRY_SIZE ==> cp[i] == (if i < c.len() { c[i] } else { 0u8 }),
{
    let w = INFO_ENTRY_SIZE as nat;
    lemma_copy_len_all(c, c.len());
    if c.len() < w - 1 {
        lemma_copy_len_stops(c, (c.len() + 1) as nat, (w - 1) as nat);
    }
}

proof fn lemma_padded_clean(c: Seq<u8>, cp: Seq<u8>)
    requires
        is_clean_component(c),
        cp.len() == INFO_ENTRY_SIZE,
        forall|i: int| 0 <= i < INFO_ENTRY_SIZE ==> cp[i] == (if i < c.len() { c[i] } else { 0u8 }),
    ensures
        padded(cp).len() == INFO_ENTRY_SIZE,
        forall|i: int| 0 <= i < c.len() ==> padded(cp)[i] == c[i],
        forall|i: int| c.len() <= i < INFO_ENTRY_SIZE ==> is_pad(#[trigger] padded(cp)[i]),
{
    let p = padded(cp);
    if c.len() > 0 {
        let l = c.len() - 1;
        assert(cp[l] != 0);
        assert(!nul_from(cp, 0));
        assert forall|i: int| 0 <= i < c.len() implies !nul_from(cp, i) by {
            assert(cp[l] != 0);
        }
    }
}

/// Decoding the field that a clean component is stored as gives back the
/// component.
pub proof fn lemma_field_round_trip(c: Seq<u8>)
    requires
        is_clean_component(c),
    ensures
        decoded(encoded(c, INFO_ENTRY_SIZE as nat)) == c,
{
    let w = INFO_ENTRY_SIZE as nat;
    let cp = copied(Seq::new(w, |k: int| 0u8), c);
    lemma_copied_clean(c, cp);
    lemma_padded_clean(c, cp);
    let p = padded(cp);
    if c.len() > 0 {
        assert(p[c.len() - 1] == c[c.len() - 1]);
        assert(!is_pad(p[c.len() - 1]));
    }
    lemma_word_swapped_twice(p);
    assert(encoded(c, w) == word_swapped(p));
    let s = word_swapped(encoded(c, w));
    assert(s == p);
    lemma_trim_spaces(p, c.len(), w);
    assert(p.take(w as int) =~= p);
    assert(p.take(c.len() as int) =~= c);
}

} // verus!
