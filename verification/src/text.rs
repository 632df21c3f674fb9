//! Strings as byte sequences: comparing, cutting and joining them.

use vstd::prelude::*;
use vstd::string::*;
use vstd::utf8::*;

verus! {

/// The UTF-8 encoding of a string's characters.
pub open spec fn bytes_of(chars: Seq<char>) -> Seq<u8> {
    encode_utf8(chars)
}

/// `a` comes before `b` in the lexicographic order of their bytes.
pub open spec fn lex_less(a: Seq<u8>, b: Seq<u8>) -> bool
    decreases a.len(),
{
    if b.len() == 0 {
        false
    } else if a.len() == 0 {
        true
    } else if a[0] != b[0] {
        a[0] < b[0]
    } else {
        lex_less(a.drop_first(), b.drop_first())
    }
}

/// Encoding distributes over concatenation.
pub proof fn lemma_bytes_concat(a: Seq<char>, b: Seq<char>)
    ensures
        bytes_of(a + b) == bytes_of(a) + bytes_of(b),
    decreases a.len(),
{
    if a.len() == 0 {
        assert(a + b =~= b);
        assert(bytes_of(a) + bytes_of(b) =~= bytes_of(b));
    } else {
        assert((a + b).drop_first() =~= a.drop_first() + b);
        lemma_bytes_concat(a.drop_first(), b);
        assert(bytes_of(a + b) =~= bytes_of(a) + bytes_of(b));
    }
}

/// Two strings with the same bytes are the same string.
pub proof fn lemma_bytes_injective(a: Seq<char>, b: Seq<char>)
    requires
        bytes_of(a) == bytes_of(b),
    ensures
        a == b,
{
    encode_utf8_decode_utf8(a);
    encode_utf8_decode_utf8(b);
}

/// A string is empty exactly when it has no bytes.
pub proof fn lemma_bytes_empty(a: Seq<char>)
    ensures
        bytes_of(a).len() == 0 <==> a.len() == 0,
{
    if a.len() > 0 {
        encode_utf8_first_scalar(a);
    }
}

/// Whether two strings hold the same characters.
pub fn str_eq(a: &str, b: &str) -> (r: bool)
    ensures
        r == (a@ == b@),
{
    let x = a.as_bytes();
    let y = b.as_bytes();
    if x.len() != y.len() {
        return false;
    }
    let mut i: usize = 0;
    while i < x.len()
        invariant
            x.len() == y.len(),
            i <= x.len(),
            x@ == bytes_of(a@),
            y@ == bytes_of(b@),
            forall|j: int| 0 <= j < i ==> x@[j] == y@[j],
        decreases x.len() - i,
    {
        if x[i] != y[i] {
            return false;
        }
        i += 1;
    }
    proof {
        assert(x@ =~= y@);
        lemma_bytes_injective(a@, b@);
    }
    true
}

/// Whether `a` comes before `b` in byte order, the order in which strings sort.
pub fn str_less(a: &str, b: &str) -> (r: bool)
    ensures
        r == lex_less(bytes_of(a@), bytes_of(b@)),
{
    let x = a.as_bytes();
    let y = b.as_bytes();
    let mut i: usize = 0;
    proof {
        assert(x@.skip(0) =~= x@);
        assert(y@.skip(0) =~= y@);
    }
    while i < x.len() && i < y.len() && x[i] == y[i]
        invariant
            i <= x.len(),
            i <= y.len(),
            lex_less(x@, y@) == lex_less(x@.skip(i as int), y@.skip(i as int)),
        decreases x.len() - i,
    {
        proof {
            assert(x@.skip(i as int).drop_first() =~= x@.skip(i + 1));
            assert(y@.skip(i as int).drop_first() =~= y@.skip(i + 1));
        }
        i += 1;
    }
    if i >= y.len() {
        false
    } else if i >= x.len() {
        true
    } else {
        x[i] < y[i]
    }
}

/// The part of `s` between two byte offsets that fall between characters.
pub fn slice<'a>(s: &'a str, from: usize, to: usize) -> (r: &'a str)
    requires
        from <= to <= bytes_of(s@).len(),
        is_char_boundary(bytes_of(s@), from as int),
        is_char_boundary(bytes_of(s@), to as int),
    ensures
        bytes_of(r@) == bytes_of(s@).subrange(from as int, to as int),
{
    let head = s.split_at(to).0;
    proof {
        encode_utf8_valid_utf8(s@);
        lemma_boundary_in_prefix(bytes_of(s@), from as int, to as int);
    }
    let r = head.split_at(from).1;
    proof {
        assert(bytes_of(r@) =~= bytes_of(s@).subrange(from as int, to as int));
    }
    r
}

/// A boundary of a string is a boundary of a prefix that reaches it.
pub proof fn lemma_boundary_in_prefix(b: Seq<u8>, from: int, to: int)
    requires
        valid_utf8(b),
        is_char_boundary(b, from),
        is_char_boundary(b, to),
        0 <= from <= to <= b.len(),
    ensures
        valid_utf8(b.subrange(0, to)),
        is_char_boundary(b.subrange(0, to), from),
{
    valid_utf8_split(b, to);
    let head = b.subrange(0, to);
    if from == to {
        is_char_boundary_start_end_of_seq(head);
    } else {
        is_char_boundary_iff_not_is_continuation_byte(b, from);
        is_char_boundary_iff_not_is_continuation_byte(head, from);
        assert(head[from] == b[from]);
    }
}

/// A boundary of a suffix of a string is a boundary of the string.
pub proof fn lemma_boundary_of_suffix(b: Seq<u8>, from: int, index: int)
    requires
        valid_utf8(b),
        0 <= from <= b.len(),
        valid_utf8(b.skip(from)),
        0 <= index <= b.len() - from,
        is_char_boundary(b.skip(from), index),
    ensures
        is_char_boundary(b, from + index),
{
    if from + index == b.len() {
        is_char_boundary_start_end_of_seq(b);
    } else {
        is_char_boundary_iff_not_is_continuation_byte(b.skip(from), index);
        is_char_boundary_iff_not_is_continuation_byte(b, from + index);
        assert(b.skip(from)[index] == b[from + index]);
    }
}

/// Whether `s` starts with the character `c`.
pub fn starts_with_char(s: &str, c: char) -> (r: bool)
    ensures
        r == (s@.len() > 0 && s@[0] == c),
{
    if s.is_empty() {
        false
    } else {
        s.get_char(0) == c
    }
}

/// `a` and `b` agree before `k`, and there `a` ends or has the smaller byte.
pub open spec fn parts_below(a: Seq<u8>, b: Seq<u8>, k: int) -> bool {
    &&& 0 <= k <= a.len() && k < b.len()
    &&& forall|i: int| 0 <= i < k ==> a[i] == b[i]
    &&& k == a.len() || a[k] < b[k]
}

/// A string comes before another exactly where it is a shorter beginning of it or has a smaller
/// byte where they first differ.
pub proof fn law_byte_order(a: Seq<u8>, b: Seq<u8>)
    ensures
        lex_less(a, b) <==> exists|k: int| #[trigger] parts_below(a, b, k),
    decreases a.len(),
{
    if a.len() > 0 && b.len() > 0 && a[0] == b[0] {
        let x = a.drop_first();
        let y = b.drop_first();
        law_byte_order(x, y);
        if lex_less(x, y) {
            let k = choose|k: int| #[trigger] parts_below(x, y, k);
            assert forall|i: int| 0 <= i < k + 1 implies a[i] == b[i] by {
                if i > 0 {
                    assert(x[i - 1] == y[i - 1]);
                }
            }
            assert(parts_below(a, b, k + 1));
        }
        if exists|k: int| #[trigger] parts_below(a, b, k) {
            let k = choose|k: int| #[trigger] parts_below(a, b, k);
            assert(k > 0);
            assert(parts_below(x, y, k - 1));
        }
    } else if b.len() > 0 && (a.len() == 0 || a[0] < b[0]) {
        assert(parts_below(a, b, 0));
    } else if exists|k: int| #[trigger] parts_below(a, b, k) {
        let k = choose|k: int| #[trigger] parts_below(a, b, k);
        if k > 0 {
            assert(a[0] == b[0]);
        }
    }
}

} // verus!
