//! Byte-sequence utilities shared by the pipeline stages: lexicographic
//! ordering and sorting of byte strings, little-endian integer encoding,
//! decimal rendering, and hexadecimal rendering.

use vstd::prelude::*;

verus! {

/// Lexicographic order on byte sequences (the order of `Ord` on `[u8]`).
pub open spec fn lex_le(a: Seq<u8>, b: Seq<u8>) -> bool
    decreases a.len(),
{
    if a.len() == 0 {
        true
    } else if b.len() == 0 {
        false
    } else if a[0] < b[0] {
        true
    } else if a[0] > b[0] {
        false
    } else {
        lex_le(a.skip(1), b.skip(1))
    }
}

pub proof fn lemma_lex_le_total(a: Seq<u8>, b: Seq<u8>)
    ensures
        lex_le(a, b) || lex_le(b, a),
    decreases a.len(),
{
    if a.len() != 0 && b.len() != 0 && a[0] == b[0] {
        lemma_lex_le_total(a.skip(1), b.skip(1));
    }
}

pub proof fn lemma_lex_le_reflexive(a: Seq<u8>)
    ensures
        lex_le(a, a),
{
    lemma_lex_le_total(a, a);
}

pub proof fn lemma_lex_le_transitive(a: Seq<u8>, b: Seq<u8>, c: Seq<u8>)
    requires
        lex_le(a, b),
        lex_le(b, c),
    ensures
        lex_le(a, c),
    decreases a.len(),
{
    if a.len() != 0 && b.len() != 0 && c.len() != 0 && a[0] == b[0] && b[0] == c[0] {
        lemma_lex_le_transitive(a.skip(1), b.skip(1), c.skip(1));
    }
}

/// Decides `lex_le` on byte vectors.
pub fn bytes_le(a: &Vec<u8>, b: &Vec<u8>) -> (r: bool)
    ensures
        r == lex_le(a@, b@),
{
    let mut i: usize = 0;
    proof {
        assert(a@.skip(0) == a@);
        assert(b@.skip(0) == b@);
    }
    loop
        invariant
            i <= a.len(),
            i <= b.len(),
            a@.take(i as int) == b@.take(i as int),
            lex_le(a@, b@) == lex_le(a@.skip(i as int), b@.skip(i as int)),
        decreases a.len() - i,
    {
        if i == a.len() {
            return true;
        }
        if i == b.len() {
            return false;
        }
        let x = a[i];
        let y = b[i];
        if x < y {
            return true;
        }
        if x > y {
            return false;
        }
        proof {
            assert(a@.skip(i as int).skip(1) == a@.skip(i + 1));
            assert(b@.skip(i as int).skip(1) == b@.skip(i + 1));
            assert(a@.take(i + 1) == a@.take(i as int).push(a@[i as int]));
            assert(b@.take(i + 1) == b@.take(i as int).push(b@[i as int]));
        }
        i = i + 1;
    }
}

/// Byte-for-byte equality of byte vectors.
pub fn bytes_eq(a: &Vec<u8>, b: &Vec<u8>) -> (r: bool)
    ensures
        r == (a@ == b@),
{
    if a.len() != b.len() {
        return false;
    }
    let mut i: usize = 0;
    while i < a.len()
        invariant
            i <= a.len(),
            a.len() == b.len(),
            a@.take(i as int) == b@.take(i as int),
        decreases a.len() - i,
    {
        if a[i] != b[i] {
            proof {
                assert(a@[i as int] != b@[i as int]);
            }
            return false;
        }
        proof {
            assert(a@.take(i + 1) == a@.take(i as int).push(a@[i as int]));
            assert(b@.take(i + 1) == b@.take(i as int).push(b@[i as int]));
        }
        i = i + 1;
    }
    proof {
        assert(a@.take(a.len() as int) == a@);
        assert(b@.take(b.len() as int) == b@);
    }
    true
}

/// Inserts `x` into an already lexicographically sorted sequence, keeping
/// it sorted: the specification-level step of insertion sort.
pub open spec fn insert_sorted_spec(x: Seq<u8>, s: Seq<Seq<u8>>) -> Seq<Seq<u8>>
    decreases s.len(),
{
    if s.len() == 0 {
        seq![x]
    } else if lex_le(x, s[0]) {
        seq![x] + s
    } else {
        seq![s[0]] + insert_sorted_spec(x, s.skip(1))
    }
}

/// Insertion sort of byte strings, as a pure function of the input.
pub open spec fn sort_spec(s: Seq<Seq<u8>>) -> Seq<Seq<u8>>
    decreases s.len(),
{
    if s.len() == 0 {
        Seq::empty()
    } else {
        insert_sorted_spec(s[0], sort_spec(s.skip(1)))
    }
}

/// A sequence of byte strings in non-decreasing lexicographic order.
pub open spec fn sorted_lex(s: Seq<Seq<u8>>) -> bool {
    forall|i: int, j: int| 0 <= i <= j < s.len() ==> lex_le(s[i], s[j])
}

pub proof fn lemma_insert_sorted_spec(x: Seq<u8>, s: Seq<Seq<u8>>)
    requires
        sorted_lex(s),
    ensures
        sorted_lex(insert_sorted_spec(x, s)),
        insert_sorted_spec(x, s).to_multiset() == s.to_multiset().insert(x),
        insert_sorted_spec(x, s).len() == s.len() + 1,
    decreases s.len(),
{
    s.to_multiset_ensures();
    if s.len() == 0 {
        lemma_lex_le_reflexive(x);
        seq![x].to_multiset_ensures();
        assert(seq![x] == Seq::<Seq<u8>>::empty().push(x));
        Seq::<Seq<u8>>::empty().to_multiset_ensures();
        assert(insert_sorted_spec(x, s).to_multiset() == s.to_multiset().insert(x));
    } else if lex_le(x, s[0]) {
        let r = seq![x] + s;
        assert forall|i: int, j: int| 0 <= i <= j < r.len() implies lex_le(r[i], r[j]) by {
            if i == j {
                lemma_lex_le_total(r[i], r[i]);
            } else if i == 0 && j > 0 {
                assert(lex_le(s[0], s[j - 1]));
                lemma_lex_le_transitive(x, s[0], s[j - 1]);
            } else if i > 0 {
                assert(r[i] == s[i - 1]);
                assert(r[j] == s[j - 1]);
                assert(lex_le(s[i - 1], s[j - 1]));
            }
        }
        assert(r =~= s.insert(0, x));
        lemma_multiset_insert(s, 0, x);
    } else {
        lemma_lex_le_total(x, s[0]);
        let t = insert_sorted_spec(x, s.skip(1));
        assert(sorted_lex(s.skip(1))) by {
            assert(forall|i: int, j: int|
                0 <= i <= j < s.skip(1).len() ==> lex_le(#[trigger] s.skip(1)[i], #[trigger] s.skip(
                1)[j]));
        }
        lemma_insert_sorted_spec(x, s.skip(1));
        let r = seq![s[0]] + t;
        assert forall|i: int, j: int| 0 <= i <= j < r.len() implies lex_le(r[i], r[j]) by {
            if i == j {
                lemma_lex_le_total(r[i], r[i]);
            } else if i == 0 && j > 0 {
                assert(t[j - 1] == insert_sorted_spec(x, s.skip(1))[j - 1]);
                lemma_insert_sorted_head(x, s.skip(1), j - 1);
                if s.skip(1).len() == 0 {
                    assert(t[j - 1] == x);
                } else {
                    if t[j - 1] != x {
                        let k = choose|k: int|
                            0 <= k < s.skip(1).len() && t[j - 1] == s.skip(1)[k];
                        assert(lex_le(s[0], s[k + 1]));
                    } else {
                        lemma_lex_le_total(x, s[0]);
                    }
                }
            } else if i > 0 {
                assert(r[i] == t[i - 1]);
                assert(r[j] == t[j - 1]);
                assert(lex_le(t[i - 1], t[j - 1]));
            }
        }
        assert(r =~= t.insert(0, s[0]));
        lemma_multiset_insert(t, 0, s[0]);
        s.skip(1).to_multiset_ensures();
        lemma_skip_multiset(s);
        assert(r.to_multiset() == t.to_multiset().insert(s[0]));
        assert(t.to_multiset() == s.skip(1).to_multiset().insert(x));
        assert(r.to_multiset() == s.skip(1).to_multiset().insert(x).insert(s[0]));
        assert(s.skip(1).to_multiset().insert(x).insert(s[0]) == s.skip(1).to_multiset().insert(
            s[0]).insert(x)) by {
            broadcast use vstd::multiset::group_multiset_axioms;

            assert(s.skip(1).to_multiset().insert(x).insert(s[0]) =~= s.skip(
                1).to_multiset().insert(s[0]).insert(x));
        }
        assert(s.to_multiset() == s.skip(1).to_multiset().insert(s[0]));
    }
}

/// Every element of the inserted sequence is either `x` or came from `s`.
proof fn lemma_insert_sorted_head(x: Seq<u8>, s: Seq<Seq<u8>>, i: int)
    requires
        0 <= i < insert_sorted_spec(x, s).len(),
    ensures
        insert_sorted_spec(x, s)[i] == x || exists|k: int|
            0 <= k < s.len() && insert_sorted_spec(x, s)[i] == s[k],
    decreases s.len(),
{
    if s.len() == 0 {
    } else if lex_le(x, s[0]) {
    } else {
        if i > 0 {
            lemma_insert_sorted_head(x, s.skip(1), i - 1);
            if insert_sorted_spec(x, s.skip(1))[i - 1] != x {
                let k = choose|k: int|
                    0 <= k < s.skip(1).len() && insert_sorted_spec(x, s.skip(1))[i - 1] == s.skip(
                    1)[k];
                assert(insert_sorted_spec(x, s)[i] == s[k + 1]);
            }
        }
    }
}

/// `s.to_multiset()` gains exactly the inserted element.
proof fn lemma_multiset_insert(s: Seq<Seq<u8>>, i: int, x: Seq<u8>)
    requires
        0 <= i <= s.len(),
    ensures
        s.insert(i, x).to_multiset() == s.to_multiset().insert(x),
{
    broadcast use vstd::multiset::group_multiset_axioms;

    let t = s.insert(i, x);
    t.to_multiset_ensures();
    s.to_multiset_ensures();
    assert(t.remove(i) =~= s);
    assert(t.remove(i).to_multiset() =~= t.to_multiset().remove(t[i]));
    assert(t[i] == x);
    assert(t.contains(x));
    assert(t.to_multiset().count(x) > 0);
    assert(t.to_multiset() =~= t.to_multiset().remove(x).insert(x));
    assert(s.to_multiset().insert(x) =~= t.to_multiset());
}

/// Dropping the head moves it from the sequence's multiset.
proof fn lemma_skip_multiset(s: Seq<Seq<u8>>)
    requires
        s.len() > 0,
    ensures
        s.to_multiset() == s.skip(1).to_multiset().insert(s[0]),
{
    s.to_multiset_ensures();
    assert(s == seq![s[0]] + s.skip(1));
    lemma_multiset_insert(s.skip(1), 0, s[0]);
    assert(s.skip(1).insert(0, s[0]) == s);
}

/// The insertion sort really sorts: its result is in lexicographic
/// order and is a permutation of the input, element counts included.
pub proof fn lemma_sort_spec(s: Seq<Seq<u8>>)
    ensures
        sorted_lex(sort_spec(s)),
        sort_spec(s).to_multiset() == s.to_multiset(),
        sort_spec(s).len() == s.len(),
    decreases s.len(),
{
    s.to_multiset_ensures();
    if s.len() == 0 {
        Seq::<Seq<u8>>::empty().to_multiset_ensures();
    } else {
        lemma_sort_spec(s.skip(1));
        lemma_insert_sorted_spec(s[0], sort_spec(s.skip(1)));
        lemma_skip_multiset(s);
        assert(sort_spec(s).to_multiset() == sort_spec(s.skip(1)).to_multiset().insert(s[0]));
    }
}

/// The sequence of views of a vector of byte vectors.
pub open spec fn dv(s: Seq<Vec<u8>>) -> Seq<Seq<u8>> {
    Seq::new(s.len(), |i: int| s[i]@)
}

/// The position before the first element of `r` that `x` sorts at or
/// below; inserting at this position keeps `r` sorted.
fn find_insert_point(x: &Vec<u8>, r: &Vec<Vec<u8>>) -> (j: usize)
    ensures
        j <= r.len(),
        forall|k: int| 0 <= k < j ==> !lex_le(x@, dv(r@)[k]),
        j < r.len() ==> lex_le(x@, dv(r@)[j as int]),
{
    let mut j: usize = 0;
    while j < r.len()
        invariant
            j <= r.len(),
            forall|k: int| 0 <= k < j ==> !lex_le(x@, dv(r@)[k]),
        decreases r.len() - j,
    {
        if bytes_le(x, &r[j]) {
            proof {
                assert(dv(r@)[j as int] == r@[j as int]@);
            }
            return j;
        }
        proof {
            assert(dv(r@)[j as int] == r@[j as int]@);
        }
        j = j + 1;
    }
    j
}

/// Sorts byte strings lexicographically; the result is the pure
/// insertion sort of the input, so equal inputs sort identically.
pub fn sort_bytes(v: &Vec<Vec<u8>>) -> (r: Vec<Vec<u8>>)
    ensures
        dv(r@) == sort_spec(dv(v@)),
{
    let mut r: Vec<Vec<u8>> = Vec::new();
    let mut i: usize = v.len();
    proof {
        assert(dv(v@).skip(v.len() as int) =~= Seq::<Seq<u8>>::empty());
        assert(dv(r@) =~= Seq::<Seq<u8>>::empty());
    }
    while i > 0
        invariant
            i <= v.len(),
            dv(r@) == sort_spec(dv(v@).skip(i as int)),
        decreases i,
    {
        i = i - 1;
        let x = clone_bytes(&v[i]);
        let ghost rs = dv(r@);
        let j = find_insert_point(&x, &r);
        proof {
            lemma_insert_at_point(x@, rs, j as int);
        }
        r.insert(j, x);
        proof {
            assert(dv(r@) =~= rs.insert(j as int, x@));
            assert(x@ == dv(v@)[i as int]);
            assert(dv(v@).skip(i as int)[0] == dv(v@)[i as int]);
            assert(dv(v@).skip(i as int).skip(1) =~= dv(v@).skip(i + 1));
        }
    }
    proof {
        assert(dv(v@).skip(0) =~= dv(v@));
    }
    r
}

/// Inserting at the first position whose element is not below `x`
/// matches the recursive specification of sorted insertion.
proof fn lemma_insert_at_point(x: Seq<u8>, s: Seq<Seq<u8>>, j: int)
    requires
        0 <= j <= s.len(),
        forall|k: int| 0 <= k < j ==> !lex_le(x, s[k]),
        j < s.len() ==> lex_le(x, s[j]),
    ensures
        s.insert(j, x) == insert_sorted_spec(x, s),
    decreases s.len(),
{
    if s.len() == 0 {
        assert(s.insert(0, x) == seq![x]);
    } else if j == 0 {
        assert(s.insert(0, x) == seq![x] + s);
    } else {
        assert(!lex_le(x, s[0]));
        assert(forall|k: int| 0 <= k < j - 1 ==> !lex_le(x, #[trigger] s.skip(1)[k]));
        lemma_insert_at_point(x, s.skip(1), j - 1);
        assert(s.insert(j, x) == seq![s[0]] + s.skip(1).insert(j - 1, x));
    }
}

/// Clones a byte vector.
pub fn clone_bytes(v: &Vec<u8>) -> (r: Vec<u8>)
    ensures
        r@ == v@,
{
    let mut r: Vec<u8> = Vec::new();
    let mut i: usize = 0;
    while i < v.len()
        invariant
            i <= v.len(),
            r@ == v@.take(i as int),
        decreases v.len() - i,
    {
        r.push(v[i]);
        proof {
            assert(v@.take(i + 1) == v@.take(i as int).push(v@[i as int]));
        }
        i = i + 1;
    }
    proof {
        assert(v@.take(v.len() as int) == v@);
    }
    r
}

/// The two-byte little-endian encoding of a 16-bit value.
pub open spec fn le16(x: u16) -> Seq<u8> {
    seq![(x & 0xff) as u8, ((x >> 8) & 0xff) as u8]
}

/// The four-byte little-endian encoding of a 32-bit value.
pub open spec fn le32(x: u32) -> Seq<u8> {
    seq![
        (x & 0xff) as u8,
        ((x >> 8) & 0xff) as u8,
        ((x >> 16) & 0xff) as u8,
        ((x >> 24) & 0xff) as u8,
    ]
}

/// Distinct 32-bit values have distinct little-endian encodings.
pub proof fn lemma_le32_injective(x: u32, y: u32)
    requires
        le32(x) == le32(y),
    ensures
        x == y,
{
    assert(le32(x)[0] == le32(y)[0]);
    assert(le32(x)[1] == le32(y)[1]);
    assert(le32(x)[2] == le32(y)[2]);
    assert(le32(x)[3] == le32(y)[3]);
    assert(((x & 0xff) as u8 == (y & 0xff) as u8 && ((x >> 8) & 0xff) as u8 == ((y >> 8)
        & 0xff) as u8 && ((x >> 16) & 0xff) as u8 == ((y >> 16) & 0xff) as u8 && ((x >> 24)
        & 0xff) as u8 == ((y >> 24) & 0xff) as u8) ==> x == y) by (bit_vector);
}

/// Appends the little-endian bytes of `x` to `out`.
pub fn push_le16(out: &mut Vec<u8>, x: u16)
    ensures
        final(out)@ == old(out)@ + le16(x),
{
    proof {
        assert((x & 0xff) < 256 && ((x >> 8) & 0xff) < 256) by (bit_vector);
    }
    out.push((x & 0xff) as u8);
    out.push(((x >> 8) & 0xff) as u8);
    proof {
        assert(out@ == old(out)@ + le16(x));
    }
}

/// Appends the little-endian bytes of `x` to `out`.
pub fn push_le32(out: &mut Vec<u8>, x: u32)
    ensures
        final(out)@ == old(out)@ + le32(x),
{
    proof {
        assert((x & 0xff) < 256 && ((x >> 8) & 0xff) < 256 && ((x >> 16) & 0xff) < 256 && ((x
            >> 24) & 0xff) < 256) by (bit_vector);
    }
    out.push((x & 0xff) as u8);
    out.push(((x >> 8) & 0xff) as u8);
    out.push(((x >> 16) & 0xff) as u8);
    out.push(((x >> 24) & 0xff) as u8);
    proof {
        assert(out@ == old(out)@ + le32(x));
    }
}

/// The decimal digits of `n`, most significant first.
pub open spec fn dec_bytes(n: int) -> Seq<u8>
    decreases n,
{
    if n < 10 {
        seq![(48 + n) as u8]
    } else {
        dec_bytes(n / 10) + seq![(48 + n % 10) as u8]
    }
}

/// Appends the decimal rendering of `n` to `out`.
pub fn push_dec(out: &mut Vec<u8>, n: u32)
    ensures
        final(out)@ == old(out)@ + dec_bytes(n as int),
    decreases n,
{
    if n < 10 {
        out.push(48 + n as u8);
    } else {
        push_dec(out, n / 10);
        out.push(48 + (n % 10) as u8);
        proof {
            assert(out@ == old(out)@ + dec_bytes(n as int));
        }
    }
}

/// The lowercase hexadecimal digit for a value below 16.
pub open spec fn hex_digit(n: int) -> u8 {
    if n < 10 {
        (48 + n) as u8
    } else {
        (87 + n) as u8
    }
}

/// The two-digit lowercase hexadecimal rendering of each byte, in order.
pub open spec fn hex_bytes(s: Seq<u8>) -> Seq<u8>
    decreases s.len(),
{
    if s.len() == 0 {
        Seq::empty()
    } else {
        seq![hex_digit(s[0] as int / 16), hex_digit(s[0] as int % 16)] + hex_bytes(s.skip(1))
    }
}

/// Appends the lowercase hexadecimal rendering of `data` to `out`.
pub fn push_hex(out: &mut Vec<u8>, data: &Vec<u8>)
    ensures
        final(out)@ == old(out)@ + hex_bytes(data@),
{
    let mut i: usize = 0;
    proof {
        assert(data@.take(0).len() == 0);
        assert(out@ + hex_bytes(data@.take(0)) =~= out@);
    }
    while i < data.len()
        invariant
            i <= data.len(),
            out@ == old(out)@ + hex_bytes(data@.take(i as int)),
        decreases data.len() - i,
    {
        let b = data[i];
        out.push(hex_digit_exec(b / 16));
        out.push(hex_digit_exec(b % 16));
        proof {
            let pair = seq![hex_digit(b as int / 16), hex_digit(b as int % 16)];
            assert(seq![b as u8].skip(1).len() == 0);
            assert(hex_bytes(seq![b as u8].skip(1)) =~= Seq::<u8>::empty());
            assert(seq![b as u8][0] == b);
            assert(hex_bytes(seq![b as u8]) =~= pair + hex_bytes(seq![b as u8].skip(1)));
            assert(hex_bytes(seq![b as u8]) =~= pair);
            lemma_hex_concat(data@.take(i as int), seq![b as u8]);
            assert(data@.take(i + 1) =~= data@.take(i as int) + seq![b as u8]);
            assert(out@ =~= old(out)@ + hex_bytes(data@.take(i + 1)));
        }
        i = i + 1;
    }
    proof {
        assert(data@.take(data.len() as int) == data@);
    }
}

fn hex_digit_exec(n: u8) -> (r: u8)
    requires
        n < 16,
    ensures
        r == hex_digit(n as int),
{
    if n < 10 {
        48 + n
    } else {
        87 + n
    }
}

/// Hexadecimal rendering distributes over concatenation.
proof fn lemma_hex_concat(a: Seq<u8>, b: Seq<u8>)
    ensures
        hex_bytes(a + b) == hex_bytes(a) + hex_bytes(b),
    decreases a.len(),
{
    if a.len() == 0 {
        assert(a + b =~= b);
        assert(hex_bytes(a).len() == 0);
        assert(hex_bytes(a) + hex_bytes(b) =~= hex_bytes(b));
    } else {
        lemma_hex_concat(a.skip(1), b);
        assert((a + b).skip(1) =~= a.skip(1) + b);
        assert((a + b)[0] == a[0]);
        assert((a + b).len() > 0);
        let pair = seq![hex_digit(a[0] as int / 16), hex_digit(a[0] as int % 16)];
        assert(hex_bytes(a + b) == pair + hex_bytes((a + b).skip(1)));
        assert(hex_bytes(a) + hex_bytes(b) =~= pair + (hex_bytes(a.skip(1)) + hex_bytes(b)));
    }
}

} // verus!
