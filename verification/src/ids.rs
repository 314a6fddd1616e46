//! Fresh identifiers and confirmation codes.
use vstd::prelude::*;
use rand::Rng;
use vstd::set_lib::{lemma_int_range, lemma_len_subset, lemma_map_size, set_int_range};

verus! {

/// Whether `c` is a lowercase hexadecimal digit.
pub open spec fn is_lower_hex(c: char) -> bool {
    ('0' <= c && c <= '9') || ('a' <= c && c <= 'f')
}

/// Whether `s` has the shape of a hyphenated UUID: 36 characters, hyphens at
/// positions 8, 13, 18 and 23 and lowercase hexadecimal digits elsewhere.
pub open spec fn is_hyphenated_uuid(s: Seq<char>) -> bool {
    &&& s.len() == 36
    &&& s[8] == '-'
    &&& s[13] == '-'
    &&& s[18] == '-'
    &&& s[23] == '-'
    &&& forall|i: int| 0 <= i < 36 && i != 8 && i != 13 && i != 18 && i != 23 ==> is_lower_hex(#[trigger] s[i])
}

/// The lowercase hexadecimal digit of `d`, for `d` from 0 to 15.
pub open spec fn hex_char(d: int) -> char {
    if d == 0 { '0' } else if d == 1 { '1' } else if d == 2 { '2' } else if d == 3 { '3' }
    else if d == 4 { '4' } else if d == 5 { '5' } else if d == 6 { '6' } else if d == 7 { '7' }
    else if d == 8 { '8' } else if d == 9 { '9' } else if d == 10 { 'a' } else if d == 11 { 'b' }
    else if d == 12 { 'c' } else if d == 13 { 'd' } else if d == 14 { 'e' } else { 'f' }
}

/// The `i`-th group of four bits of `j`, counted from the lowest.
pub open spec fn nibble(j: u64, i: int) -> u64 {
    (j >> ((4 * i) as u64)) & 15u64
}

/// The sixteen hexadecimal digits of `j`, the highest first.
pub open spec fn hex_digits(j: u64) -> Seq<char> {
    Seq::new(16, |k: int| hex_char(nibble(j, 15 - k) as int))
}

/// The id numbered `j`: a hyphenated UUID of zeros that holds the digits of
/// `j` from position 14 on.
pub open spec fn numbered_id(j: u64) -> Seq<char> {
    let d = hex_digits(j);
    seq!['0', '0', '0', '0', '0', '0', '0', '0', '-', '0', '0', '0', '0', '-']
        + d.subrange(0, 4) + seq!['-'] + d.subrange(4, 8) + seq!['-'] + d.subrange(8, 16)
        + seq!['0', '0', '0', '0']
}

proof fn lemma_hex_char_injective(a: int, b: int)
    requires
        0 <= a < 16,
        0 <= b < 16,
        hex_char(a) == hex_char(b),
    ensures
        a == b,
{
}

proof fn lemma_nibble_bound(j: u64, i: int)
    requires
        0 <= i < 16,
    ensures
        nibble(j, i) < 16,
{
    let s = (4 * i) as u64;
    assert((j >> s) & 15u64 < 16) by (bit_vector);
}

proof fn lemma_hex_digits_injective(a: u64, b: u64)
    requires
        hex_digits(a) == hex_digits(b),
    ensures
        a == b,
{
    assert forall|i: int| 0 <= i < 16 implies nibble(a, i) == nibble(b, i) by {
        lemma_nibble_bound(a, i);
        lemma_nibble_bound(b, i);
        let k = 15 - i;
        assert(hex_digits(a)[k] == hex_digits(b)[k]);
        assert(15 - k == i);
        assert(hex_digits(a)[k] == hex_char(nibble(a, i) as int));
        assert(hex_digits(b)[k] == hex_char(nibble(b, i) as int));
        lemma_hex_char_injective(nibble(a, i) as int, nibble(b, i) as int);
    }
    assert(nibble(a, 0) == nibble(b, 0));
    assert(nibble(a, 1) == nibble(b, 1));
    assert(nibble(a, 2) == nibble(b, 2));
    assert(nibble(a, 3) == nibble(b, 3));
    assert(nibble(a, 4) == nibble(b, 4));
    assert(nibble(a, 5) == nibble(b, 5));
    assert(nibble(a, 6) == nibble(b, 6));
    assert(nibble(a, 7) == nibble(b, 7));
    assert(nibble(a, 8) == nibble(b, 8));
    assert(nibble(a, 9) == nibble(b, 9));
    assert(nibble(a, 10) == nibble(b, 10));
    assert(nibble(a, 11) == nibble(b, 11));
    assert(nibble(a, 12) == nibble(b, 12));
    assert(nibble(a, 13) == nibble(b, 13));
    assert(nibble(a, 14) == nibble(b, 14));
    assert(nibble(a, 15) == nibble(b, 15));
    assert(a == b) by (bit_vector)
        requires
            (a >> 0u64) & 15u64 == (b >> 0u64) & 15u64,
            (a >> 4u64) & 15u64 == (b >> 4u64) & 15u64,
            (a >> 8u64) & 15u64 == (b >> 8u64) & 15u64,
            (a >> 12u64) & 15u64 == (b >> 12u64) & 15u64,
            (a >> 16u64) & 15u64 == (b >> 16u64) & 15u64,
            (a >> 20u64) & 15u64 == (b >> 20u64) & 15u64,
            (a >> 24u64) & 15u64 == (b >> 24u64) & 15u64,
            (a >> 28u64) & 15u64 == (b >> 28u64) & 15u64,
            (a >> 32u64) & 15u64 == (b >> 32u64) & 15u64,
            (a >> 36u64) & 15u64 == (b >> 36u64) & 15u64,
            (a >> 40u64) & 15u64 == (b >> 40u64) & 15u64,
            (a >> 44u64) & 15u64 == (b >> 44u64) & 15u64,
            (a >> 48u64) & 15u64 == (b >> 48u64) & 15u64,
            (a >> 52u64) & 15u64 == (b >> 52u64) & 15u64,
            (a >> 56u64) & 15u64 == (b >> 56u64) & 15u64,
            (a >> 60u64) & 15u64 == (b >> 60u64) & 15u64,
    ;
}

/// Different numbers give different ids, each of the shape of a UUID.
proof fn lemma_numbered_id(a: u64, b: u64)
    ensures
        is_hyphenated_uuid(numbered_id(a)),
        numbered_id(a) == numbered_id(b) ==> a == b,
{
    let n = numbered_id(a);
    let d = hex_digits(a);
    assert(n.len() == 36);
    assert forall|k: int| 0 <= k < 16 implies n[if k < 4 { 14 + k } else if k < 8 { 15 + k } else { 16 + k }] == d[k] by {}
    assert forall|i: int| 0 <= i < 36 && i != 8 && i != 13 && i != 18 && i != 23 implies is_lower_hex(#[trigger] n[i]) by {
        if 14 <= i < 18 {
            assert(n[i] == d[i - 14]);
        } else if 19 <= i < 23 {
            assert(n[i] == d[i - 15]);
        } else if 24 <= i < 32 {
            assert(n[i] == d[i - 16]);
        }
    }
    if numbered_id(a) == numbered_id(b) {
        let m = numbered_id(b);
        let e = hex_digits(b);
        assert forall|k: int| 0 <= k < 16 implies d[k] == e[k] by {
            let p = if k < 4 { 14 + k } else if k < 8 { 15 + k } else { 16 + k };
            assert(n[p] == d[k]);
            assert(m[p] == e[k]);
        }
        assert(d =~= e);
        lemma_hex_digits_injective(a, b);
    }
}

/// Ids numbered 0 to `n - 1` cannot all be among fewer than `n` ids.
proof fn lemma_numbered_ids_do_not_fit(ids: Seq<Seq<char>>, n: int)
    requires
        0 <= n <= u64::MAX + 1,
        forall|j: int| 0 <= j < n ==> ids.contains(#[trigger] numbered_id(j as u64)),
    ensures
        n <= ids.len(),
{
    let x = set_int_range(0, n);
    let f = |j: int| numbered_id(j as u64);
    lemma_int_range(0, n);
    assert(vstd::relations::injective_on(f, x)) by {
        assert forall|a: int, b: int| x.contains(a) && x.contains(b) && #[trigger] f(a) == #[trigger] f(b) implies a == b by {
            lemma_numbered_id(a as u64, b as u64);
        }
    }
    let y = x.map(f);
    lemma_map_size(x, y, f);
    assert(y.subset_of(ids.to_set())) by {
        assert forall|s: Seq<char>| y.contains(s) implies ids.to_set().contains(s) by {
            let j = choose|j: int| x.contains(j) && f(j) == s;
            assert(ids.contains(numbered_id(j as u64)));
        }
    }
    vstd::seq_lib::seq_to_set_is_finite(ids);
    lemma_len_subset(y, ids.to_set());
    ids.lemma_cardinality_of_set();
}

/// Calls `uuid::Uuid::new_v4` and writes the result with `to_string`. The
/// value is random; the contract claims only the lowercase hyphenated shape
/// that uuid's `Display` writes.
#[verifier::external_body]
pub(crate) fn new_uuid_string() -> (r: String)
    ensures
        is_hyphenated_uuid(r@),
{
    uuid::Uuid::new_v4().to_string()
}

/// Calls `rand::Rng::random_range` with `lo..=hi` on the thread-local
/// generator of `rand::rng`. The value is random; the contract claims only
/// that it lies in the range that was asked for, which is not empty.
#[verifier::external_body]
pub(crate) fn random_u8_in(lo: u8, hi: u8) -> (r: u8)
    requires
        lo <= hi,
    ensures
        lo <= r <= hi,
{
    rand::rng().random_range(lo..=hi)
}

/// The one-character text of the hexadecimal digit `d`.
fn hex_str(d: u64) -> (r: &'static str)
    requires
        d < 16,
    ensures
        r@ == seq![hex_char(d as int)],
{
    proof {
        reveal_strlit("0");
        reveal_strlit("1");
        reveal_strlit("2");
        reveal_strlit("3");
        reveal_strlit("4");
        reveal_strlit("5");
        reveal_strlit("6");
        reveal_strlit("7");
        reveal_strlit("8");
        reveal_strlit("9");
        reveal_strlit("a");
        reveal_strlit("b");
        reveal_strlit("c");
        reveal_strlit("d");
        reveal_strlit("e");
        reveal_strlit("f");
    }
    if d == 0 { "0" } else if d == 1 { "1" } else if d == 2 { "2" } else if d == 3 { "3" }
    else if d == 4 { "4" } else if d == 5 { "5" } else if d == 6 { "6" } else if d == 7 { "7" }
    else if d == 8 { "8" } else if d == 9 { "9" } else if d == 10 { "a" } else if d == 11 { "b" }
    else if d == 12 { "c" } else if d == 13 { "d" } else if d == 14 { "e" } else { "f" }
}

/// Appends the digits `from` to `to` of the sixteen hexadecimal digits of `j`.
fn append_hex_digits(s: &mut String, j: u64, from: u64, to: u64)
    requires
        from <= to <= 16,
    ensures
        final(s)@ == old(s)@ + hex_digits(j).subrange(from as int, to as int),
{
    let mut k = from;
    while k < to
        invariant
            from <= k <= to <= 16,
            s@ == old(s)@ + hex_digits(j).subrange(from as int, k as int),
        decreases to - k,
    {
        let shift: u64 = 4 * (15 - k);
        let d = (j >> shift) & 15u64;
        proof {
            lemma_nibble_bound(j, 15 - k);
            assert(d == nibble(j, 15 - k));
        }
        let ghost before = s@;
        s.append(hex_str(d));
        assert(s@ =~= old(s)@ + hex_digits(j).subrange(from as int, k + 1)) by {
            assert(hex_digits(j)[k as int] == hex_char(nibble(j, 15 - k) as int));
            assert(hex_digits(j).subrange(from as int, k + 1) =~= hex_digits(j).subrange(from as int, k as int).push(hex_digits(j)[k as int]));
        }
        k = k + 1;
    }
}

/// The text of the id numbered `j`.
fn numbered_id_string(j: u64) -> (r: String)
    ensures
        r@ == numbered_id(j),
{
    proof {
        reveal_strlit("00000000-0000-");
        reveal_strlit("-");
        reveal_strlit("0000");
    }
    let mut s = String::from_str("00000000-0000-");
    append_hex_digits(&mut s, j, 0, 4);
    s.append("-");
    append_hex_digits(&mut s, j, 4, 8);
    s.append("-");
    append_hex_digits(&mut s, j, 8, 16);
    s.append("0000");
    assert(s@ =~= numbered_id(j));
    s
}

/// The texts of a list of ids.
pub open spec fn id_texts(ids: Seq<String>) -> Seq<Seq<char>> {
    ids.map_values(|s: String| s@)
}

/// Whether `id` is among `ids`.
fn contains_id(ids: &Vec<String>, id: &String) -> (r: bool)
    ensures
        r == id_texts(ids@).contains(id@),
{
    let mut i: usize = 0;
    while i < ids.len()
        invariant
            i <= ids@.len(),
            forall|k: int| 0 <= k < i ==> ids@[k]@ != id@,
        decreases ids@.len() - i,
    {
        if ids[i] == *id {
            assert(id_texts(ids@)[i as int] == id@);
            return true;
        }
        i = i + 1;
    }
    assert forall|k: int| 0 <= k < id_texts(ids@).len() implies id_texts(ids@)[k] != id@ by {
        assert(id_texts(ids@)[k] == ids@[k]@);
    }
    false
}

/// A fresh id, of the shape of a UUID, that is none of `taken`: a drawn
/// UUID, or, where the draw gives one of `taken`, the first numbered id that
/// is none of them.
pub(crate) fn fresh_id(taken: &Vec<String>) -> (r: String)
    ensures
        is_hyphenated_uuid(r@),
        !id_texts(taken@).contains(r@),
{
    let drawn = new_uuid_string();
    if !contains_id(taken, &drawn) {
        return drawn;
    }
    let n = taken.len();
    let mut j: u64 = 0;
    while (j as u128) <= (n as u128)
        invariant
            n == taken@.len(),
            j as int <= n + 1,
            forall|k: int| 0 <= k < j ==> id_texts(taken@).contains(#[trigger] numbered_id(k as u64)),
        decreases n + 1 - j,
    {
        let candidate = numbered_id_string(j);
        if !contains_id(taken, &candidate) {
            proof {
                lemma_numbered_id(j, j);
            }
            return candidate;
        }
        if j == u64::MAX {
            proof {
                lemma_numbered_ids_do_not_fit(id_texts(taken@), j + 1);
            }
        }
        j = j + 1;
    }
    proof {
        lemma_numbered_ids_do_not_fit(id_texts(taken@), j as int);
    }
    drawn
}

} // verus!
