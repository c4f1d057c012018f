//! Byte-level text utilities: lexicographic order of UTF-8 text,
//! ordered sets of names, and extraction of substrings at byte offsets.

use vstd::prelude::*;
use vstd::utf8::*;

verus! {

/// Lexicographic order on byte sequences: the order of `[u8]` in Rust,
/// which for UTF-8 text is also the order of `str` and `String`.
pub open spec fn bytes_lt(a: Seq<u8>, b: Seq<u8>) -> bool
    decreases a.len(),
{
    if a.len() == 0 {
        b.len() > 0
    } else if b.len() == 0 {
        false
    } else if a[0] != b[0] {
        a[0] < b[0]
    } else {
        bytes_lt(a.drop_first(), b.drop_first())
    }
}

/// The order of `String`: lexicographic on the UTF-8 encodings.
pub open spec fn text_lt(a: Seq<char>, b: Seq<char>) -> bool {
    bytes_lt(encode_utf8(a), encode_utf8(b))
}

pub proof fn lemma_bytes_lt_irreflexive(a: Seq<u8>)
    ensures
        !bytes_lt(a, a),
    decreases a.len(),
{
    if a.len() > 0 {
        lemma_bytes_lt_irreflexive(a.drop_first());
    }
}

pub proof fn lemma_bytes_lt_transitive(a: Seq<u8>, b: Seq<u8>, c: Seq<u8>)
    requires
        bytes_lt(a, b),
        bytes_lt(b, c),
    ensures
        bytes_lt(a, c),
    decreases a.len(),
{
    if a.len() > 0 && b.len() > 0 && c.len() > 0 && a[0] == b[0] && b[0] == c[0] {
        lemma_bytes_lt_transitive(a.drop_first(), b.drop_first(), c.drop_first());
    }
}

pub proof fn lemma_bytes_lt_total(a: Seq<u8>, b: Seq<u8>)
    requires
        a != b,
    ensures
        bytes_lt(a, b) || bytes_lt(b, a),
    decreases a.len(),
{
    if a.len() > 0 && b.len() > 0 && a[0] == b[0] {
        if a.drop_first() == b.drop_first() {
            assert(a =~= seq![a[0]] + a.drop_first());
            assert(b =~= seq![b[0]] + b.drop_first());
        }
        lemma_bytes_lt_total(a.drop_first(), b.drop_first());
    } else if a.len() == 0 && b.len() == 0 {
        assert(a =~= b);
    }
}

pub proof fn lemma_bytes_lt_asymmetric(a: Seq<u8>, b: Seq<u8>)
    requires
        bytes_lt(a, b),
    ensures
        !bytes_lt(b, a),
{
    if bytes_lt(b, a) {
        lemma_bytes_lt_transitive(a, b, a);
        lemma_bytes_lt_irreflexive(a);
    }
}

pub proof fn lemma_text_lt_irreflexive(a: Seq<char>)
    ensures
        !text_lt(a, a),
{
    lemma_bytes_lt_irreflexive(encode_utf8(a));
}

pub proof fn lemma_text_lt_transitive(a: Seq<char>, b: Seq<char>, c: Seq<char>)
    requires
        text_lt(a, b),
        text_lt(b, c),
    ensures
        text_lt(a, c),
{
    lemma_bytes_lt_transitive(encode_utf8(a), encode_utf8(b), encode_utf8(c));
}

pub proof fn lemma_text_lt_total(a: Seq<char>, b: Seq<char>)
    requires
        a != b,
    ensures
        text_lt(a, b) || text_lt(b, a),
{
    encode_utf8_decode_utf8(a);
    encode_utf8_decode_utf8(b);
    lemma_bytes_lt_total(encode_utf8(a), encode_utf8(b));
}

/// Three-way comparison of two byte strings, as `[u8]::cmp` orders them.
pub fn compare_bytes(a: &[u8], b: &[u8]) -> (r: i8)
    ensures
        r == -1 <==> bytes_lt(a@, b@),
        r == 0 <==> a@ == b@,
        r == 1 <==> bytes_lt(b@, a@),
        -1 <= r <= 1,
{
    let mut i: usize = 0;
    assert(a@.skip(0) =~= a@);
    assert(b@.skip(0) =~= b@);
    while i < a.len() && i < b.len()
        invariant
            i <= a.len(),
            i <= b.len(),
            a@.take(i as int) =~= b@.take(i as int),
            bytes_lt(a@, b@) == bytes_lt(a@.skip(i as int), b@.skip(i as int)),
            bytes_lt(b@, a@) == bytes_lt(b@.skip(i as int), a@.skip(i as int)),
        decreases a.len() - i,
    {
        if a[i] != b[i] {
            if a[i] < b[i] {
                proof { lemma_bytes_lt_asymmetric(a@, b@); }
                return -1;
            } else {
                proof { lemma_bytes_lt_asymmetric(b@, a@); }
                return 1;
            }
        }
        assert(a@.skip(i as int).drop_first() =~= a@.skip(i + 1));
        assert(b@.skip(i as int).drop_first() =~= b@.skip(i + 1));
        assert(a@.take(i + 1) =~= a@.take(i as int).push(a[i as int]));
        assert(b@.take(i + 1) =~= b@.take(i as int).push(b[i as int]));
        i = i + 1;
    }
    if a.len() == b.len() {
        assert(a@ =~= a@.take(i as int));
        assert(b@ =~= b@.take(i as int));
        proof { lemma_bytes_lt_irreflexive(a@); }
        0
    } else if a.len() < b.len() {
        proof { lemma_bytes_lt_asymmetric(a@, b@); }
        assert(a@ != b@);
        -1
    } else {
        proof { lemma_bytes_lt_asymmetric(b@, a@); }
        assert(a@ != b@);
        1
    }
}


/// The texts held by a vector of strings.
pub open spec fn texts(v: Seq<String>) -> Seq<Seq<char>> {
    v.map_values(|s: String| s@)
}

/// Strictly increasing in the order of `String`: sorted, and nothing occurs twice.
pub open spec fn strictly_sorted(s: Seq<Seq<char>>) -> bool {
    forall|i: int, j: int| 0 <= i < j < s.len() ==> text_lt(#[trigger] s[i], #[trigger] s[j])
}

/// Three-way comparison of two strings in the order of `String`.
pub fn compare_text(a: &String, b: &String) -> (r: i8)
    ensures
        r == -1 <==> text_lt(a@, b@),
        r == 0 <==> a@ == b@,
        r == 1 <==> text_lt(b@, a@),
        -1 <= r <= 1,
{
    let ab = a.as_str().as_bytes();
    let bb = b.as_str().as_bytes();
    let r = compare_bytes(ab, bb);
    proof {
        encode_utf8_decode_utf8(a@);
        encode_utf8_decode_utf8(b@);
    }
    r
}

/// Whether a strictly sorted set of names holds `name`.
pub fn set_contains(set: &Vec<String>, name: &String) -> (found: bool)
    ensures
        found == texts(set@).contains(name@),
{
    let mut i: usize = 0;
    while i < set.len()
        invariant
            i <= set.len(),
            forall|j: int| 0 <= j < i ==> set@[j]@ != name@,
        decreases set.len() - i,
    {
        if set[i] == *name {
            assert(texts(set@)[i as int] == name@);
            return true;
        }
        i = i + 1;
    }
    proof {
        if texts(set@).contains(name@) {
            let k = choose|k: int| 0 <= k < texts(set@).len() && texts(set@)[k] == name@;
            assert(set@[k]@ == name@);
        }
    }
    false
}

/// Adds `name` to a strictly sorted set of names; returns whether it was absent.
pub fn set_insert(set: &mut Vec<String>, name: &String) -> (inserted: bool)
    requires
        strictly_sorted(texts(old(set)@)),
    ensures
        inserted == !texts(old(set)@).contains(name@),
        strictly_sorted(texts(final(set)@)),
        forall|x: Seq<char>| #[trigger] texts(final(set)@).contains(x)
            <==> (texts(old(set)@).contains(x) || x == name@),
        texts(final(set)@).len() == texts(old(set)@).len() + (if inserted { 1int } else { 0int }),
{
    let ghost old_t = texts(set@);
    let mut i: usize = 0;
    while i < set.len() && compare_text(&set[i], name) == -1
        invariant
            i <= set.len(),
            set@ == old(set)@,
            old_t == texts(set@),
            forall|j: int| 0 <= j < i ==> text_lt(#[trigger] old_t[j], name@),
        decreases set.len() - i,
    {
        i = i + 1;
    }
    if i < set.len() && set[i] == *name {
        assert(old_t[i as int] == name@);
        return false;
    }
    proof {
        if i < set.len() {
            assert(!text_lt(old_t[i as int], name@));
            lemma_text_lt_total(old_t[i as int], name@);
        }
        assert forall|j: int| 0 <= j < old_t.len() implies old_t[j] != name@ by {
            if j < i {
                lemma_text_lt_irreflexive(name@);
            } else {
                if j > i {
                    lemma_text_lt_transitive(name@, old_t[i as int], old_t[j]);
                }
                lemma_text_lt_irreflexive(name@);
            }
        }
    }
    set.insert(i, name.clone());
    let ghost new_t = texts(set@);
    assert(new_t =~= old_t.insert(i as int, name@));
    proof {
        assert forall|a: int, b: int| 0 <= a < b < new_t.len() implies text_lt(
            #[trigger] new_t[a],
            #[trigger] new_t[b],
        ) by {
            if b < i {
            } else if a < i && b == i {
            } else if a < i && b > i {
                assert(new_t[b] == old_t[b - 1]);
            } else if a == i {
                assert(new_t[b] == old_t[b - 1]);
                if b - 1 > i {
                    lemma_text_lt_transitive(name@, old_t[i as int], old_t[b - 1]);
                }
            } else {
                assert(new_t[a] == old_t[a - 1]);
                assert(new_t[b] == old_t[b - 1]);
            }
        }
        assert forall|x: Seq<char>| #[trigger] new_t.contains(x) <==> (old_t.contains(x) || x
            == name@) by {
            if new_t.contains(x) {
                let k = choose|k: int| 0 <= k < new_t.len() && new_t[k] == x;
                if k < i {
                    assert(old_t[k] == x);
                } else if k > i {
                    assert(old_t[k - 1] == x);
                }
            }
            if old_t.contains(x) {
                let k = choose|k: int| 0 <= k < old_t.len() && old_t[k] == x;
                if k < i {
                    assert(new_t[k] == x);
                } else {
                    assert(new_t[k + 1] == x);
                }
            }
            if x == name@ {
                assert(new_t[i as int] == x);
            }
        }
        assert(!old_t.contains(name@));
    }
    true
}


/// In valid UTF-8, the position right after an ASCII byte starts a new character.
pub proof fn lemma_boundary_after_ascii(b: Seq<u8>, i: int)
    requires
        valid_utf8(b),
        0 < i <= b.len(),
        b[i - 1] < 0x80,
    ensures
        is_char_boundary(b, i),
    decreases b.len(),
{
    reveal_with_fuel(is_char_boundary, 2);
    let l = length_of_first_scalar(b);
    let rest = pop_first_scalar(b);
    assert(rest.len() == b.len() - l);
    if b[0] < 0x80 {
        assert(l == 1);
        if i > 1 {
            assert(rest[i - 2] == b[i - 1]);
            lemma_boundary_after_ascii(rest, i - 1);
        }
    } else {
        assert(i - 1 >= l);
        assert(rest[i - l - 1] == b[i - 1]);
        lemma_boundary_after_ascii(rest, i - l);
    }
}

/// The byte encoding of a string.
pub open spec fn bytes_of(s: &str) -> Seq<u8> {
    encode_utf8(s@)
}

/// The text between two character boundaries of `source`, given as byte offsets.
pub fn slice_text(source: &str, start: usize, end: usize) -> (res: String)
    requires
        start <= end <= bytes_of(source).len(),
        is_char_boundary(bytes_of(source), start as int),
        is_char_boundary(bytes_of(source), end as int),
    ensures
        res@ == decode_utf8(bytes_of(source).subrange(start as int, end as int)),
        encode_utf8(res@) == bytes_of(source).subrange(start as int, end as int),
{
    let ghost b = bytes_of(source);
    proof {
        encode_utf8_valid_utf8(source@);
    }
    let (_, rest) = source.split_at(start);
    let ghost rb = bytes_of(rest);
    assert(rb =~= b.subrange(start as int, b.len() as int));
    proof {
        encode_utf8_valid_utf8(rest@);
        if end < b.len() {
            is_char_boundary_iff_not_is_continuation_byte(b, end as int);
            is_char_boundary_iff_not_is_continuation_byte(rb, end - start);
            assert(rb[end - start] == b[end as int]);
        } else {
            is_char_boundary_start_end_of_seq(rb);
        }
    }
    let (mid, _) = rest.split_at(end - start);
    assert(bytes_of(mid) =~= b.subrange(start as int, end as int));
    let res = mid.to_owned();
    proof {
        encode_utf8_decode_utf8(mid@);
    }
    res
}


/// Whether two string slices hold the same text.
pub fn str_eq(a: &str, b: &str) -> (eq: bool)
    ensures
        eq == (a@ == b@),
{
    let r = compare_bytes(a.as_bytes(), b.as_bytes());
    proof {
        encode_utf8_decode_utf8(a@);
        encode_utf8_decode_utf8(b@);
    }
    r == 0
}


/// The order of pairs of strings: by the first, then by the second.
pub open spec fn pair_lt(a: (Seq<char>, Seq<char>), b: (Seq<char>, Seq<char>)) -> bool {
    text_lt(a.0, b.0) || (a.0 == b.0 && text_lt(a.1, b.1))
}

/// Strictly increasing pairs: sorted, and nothing occurs twice.
pub open spec fn pairs_strictly_sorted(s: Seq<(Seq<char>, Seq<char>)>) -> bool {
    forall|i: int, j: int| 0 <= i < j < s.len() ==> pair_lt(#[trigger] s[i], #[trigger] s[j])
}

pub proof fn lemma_pair_lt_irreflexive(a: (Seq<char>, Seq<char>))
    ensures
        !pair_lt(a, a),
{
    lemma_text_lt_irreflexive(a.0);
    lemma_text_lt_irreflexive(a.1);
}

pub proof fn lemma_pair_lt_transitive(a: (Seq<char>, Seq<char>), b: (Seq<char>, Seq<char>), c: (Seq<char>, Seq<char>))
    requires
        pair_lt(a, b),
        pair_lt(b, c),
    ensures
        pair_lt(a, c),
{
    if text_lt(a.0, b.0) && text_lt(b.0, c.0) {
        lemma_text_lt_transitive(a.0, b.0, c.0);
    } else if text_lt(a.1, b.1) && text_lt(b.1, c.1) && a.0 == b.0 && b.0 == c.0 {
        lemma_text_lt_transitive(a.1, b.1, c.1);
    }
}

pub proof fn lemma_pair_lt_total(a: (Seq<char>, Seq<char>), b: (Seq<char>, Seq<char>))
    requires
        a != b,
    ensures
        pair_lt(a, b) || pair_lt(b, a),
{
    if a.0 != b.0 {
        lemma_text_lt_total(a.0, b.0);
    } else {
        lemma_text_lt_total(a.1, b.1);
    }
}

/// Three-way comparison of two pairs of strings in the order of tuples.
pub fn compare_pair(a0: &String, a1: &String, b0: &String, b1: &String) -> (r: i8)
    ensures
        r == -1 <==> pair_lt((a0@, a1@), (b0@, b1@)),
        r == 0 <==> (a0@, a1@) == (b0@, b1@),
        r == 1 <==> pair_lt((b0@, b1@), (a0@, a1@)),
        -1 <= r <= 1,
{
    let first = compare_text(a0, b0);
    if first != 0 {
        proof {
            lemma_text_lt_irreflexive(a0@);
            if first == -1 { lemma_text_lt_total(a0@, b0@); }
        }
        if first == -1 {
            assert(!text_lt(b0@, a0@)) by {
                if text_lt(b0@, a0@) {
                    lemma_text_lt_transitive(a0@, b0@, a0@);
                }
            }
        } else {
            assert(!text_lt(a0@, b0@)) by {
                if text_lt(a0@, b0@) {
                    lemma_text_lt_transitive(a0@, b0@, a0@);
                }
            }
        }
        first
    } else {
        compare_text(a1, b1)
    }
}


/// The encoding of a concatenation is the concatenation of the encodings.
pub proof fn lemma_encode_utf8_concat(a: Seq<char>, b: Seq<char>)
    ensures
        encode_utf8(a + b) == encode_utf8(a) + encode_utf8(b),
    decreases a.len(),
{
    if a.len() == 0 {
        assert(a + b =~= b);
        assert(encode_utf8(a) + encode_utf8(b) =~= encode_utf8(b));
    } else {
        assert((a + b).drop_first() =~= a.drop_first() + b);
        assert((a + b)[0] == a[0]);
        lemma_encode_utf8_concat(a.drop_first(), b);
        assert(encode_utf8(a + b) =~= encode_scalar(a[0] as u32) + (encode_utf8(a.drop_first()) + encode_utf8(b)));
        assert(encode_utf8(a) + encode_utf8(b) =~= encode_scalar(a[0] as u32) + (encode_utf8(a.drop_first()) + encode_utf8(b)));
    }
}

/// Taking the text between the quotes of a quoted text, by byte offsets, gives
/// the text back: what reading a `root "PATH"` line does to its path.
pub proof fn law_quoted_text_round_trip(t: Seq<char>)
    ensures
        ({
            let bytes = encode_utf8(seq!['"'] + t + seq!['"']);
            decode_utf8(bytes.subrange(1, bytes.len() - 1)) == t
        }),
{
    let q = seq!['"'];
    assert(encode_utf8(q) =~= encode_scalar('"' as u32) + encode_utf8(q.drop_first()));
    assert(q.drop_first() =~= Seq::<char>::empty());
    assert(encode_utf8(q).len() == 1);
    lemma_encode_utf8_concat(q, t);
    lemma_encode_utf8_concat(q + t, q);
    let bytes = encode_utf8(q + t + q);
    assert(bytes == encode_utf8(q) + encode_utf8(t) + encode_utf8(q));
    assert(bytes.subrange(1, bytes.len() - 1) =~= encode_utf8(t));
    encode_utf8_decode_utf8(t);
}

} // verus!
