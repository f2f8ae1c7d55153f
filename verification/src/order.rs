//! The order of `String` (byte-wise lexicographic over UTF-8) and sorting
//! with duplicates removed.

use vstd::prelude::*;
use vstd::utf8::{encode_utf8, encode_utf8_decode_utf8};
use crate::text::strs_of;

verus! {

/// Lexicographic order on byte strings: a proper prefix comes first.
pub open spec fn bytes_lt(a: Seq<u8>, b: Seq<u8>) -> bool
    decreases a.len(),
{
    if a.len() == 0 {
        b.len() > 0
    } else if b.len() == 0 {
        false
    } else if a[0] != b[0] {
        a[0] < b[0]
    } else {
        bytes_lt(a.drop_first(), b.drop_first())
    }
}

/// `a < b` for strings, as `Ord for str` compares them: by their UTF-8 bytes.
pub open spec fn str_lt(a: Seq<char>, b: Seq<char>) -> bool {
    bytes_lt(encode_utf8(a), encode_utf8(b))
}

/// Every item is below every later one.
pub open spec fn strictly_sorted(s: Seq<Seq<char>>) -> bool {
    forall|i: int, j: int| 0 <= i < j < s.len() ==> str_lt(#[trigger] s[i], #[trigger] s[j])
}

pub proof fn lemma_bytes_lt_irrefl(a: Seq<u8>)
    ensures
        !bytes_lt(a, a),
    decreases a.len(),
{
    if a.len() > 0 {
        lemma_bytes_lt_irrefl(a.drop_first());
    }
}

pub proof fn lemma_bytes_lt_trans(a: Seq<u8>, b: Seq<u8>, c: Seq<u8>)
    requires
        bytes_lt(a, b),
        bytes_lt(b, c),
    ensures
        bytes_lt(a, c),
    decreases a.len(),
{
    if a.len() > 0 && b.len() > 0 && c.len() > 0 && a[0] == b[0] && b[0] == c[0] {
        lemma_bytes_lt_trans(a.drop_first(), b.drop_first(), c.drop_first());
    }
}

pub proof fn lemma_bytes_lt_total(a: Seq<u8>, b: Seq<u8>)
    requires
        a != b,
    ensures
        bytes_lt(a, b) || bytes_lt(b, a),
    decreases a.len(),
{
    if a.len() == 0 {
        assert(b.len() > 0) by {
            if b.len() == 0 {
                assert(a =~= b);
            }
        }
    } else if b.len() > 0 && a[0] == b[0] {
        if a.drop_first() == b.drop_first() {
            assert(a.drop_first().len() == b.drop_first().len());
            assert(a.len() == b.len());
            assert(a =~= b) by {
                assert forall|k: int| 0 <= k < a.len() implies a[k] == b[k] by {
                    if k > 0 {
                        assert(a[k] == a.drop_first()[k - 1]);
                        assert(b[k] == b.drop_first()[k - 1]);
                    }
                }
            }
        }
        lemma_bytes_lt_total(a.drop_first(), b.drop_first());
    }
}

pub proof fn lemma_str_lt_irrefl(a: Seq<char>)
    ensures
        !str_lt(a, a),
{
    lemma_bytes_lt_irrefl(encode_utf8(a));
}

pub proof fn lemma_str_lt_trans(a: Seq<char>, b: Seq<char>, c: Seq<char>)
    requires
        str_lt(a, b),
        str_lt(b, c),
    ensures
        str_lt(a, c),
{
    lemma_bytes_lt_trans(encode_utf8(a), encode_utf8(b), encode_utf8(c));
}

pub proof fn lemma_str_lt_total(a: Seq<char>, b: Seq<char>)
    requires
        a != b,
    ensures
        str_lt(a, b) || str_lt(b, a),
{
    if encode_utf8(a) == encode_utf8(b) {
        encode_utf8_decode_utf8(a);
        encode_utf8_decode_utf8(b);
    } else {
        lemma_bytes_lt_total(encode_utf8(a), encode_utf8(b));
    }
}

pub proof fn lemma_push_to_set<A>(s: Seq<A>, x: A)
    ensures
        s.push(x).to_set() == s.to_set().insert(x),
{
    assert forall|e: A| s.push(x).to_set().contains(e) implies s.to_set().insert(x).contains(e) by {
        let k = choose|k: int| 0 <= k < s.push(x).len() && s.push(x)[k] == e;
        if k < s.len() {
            assert(s[k] == e);
        }
    }
    assert forall|e: A| s.to_set().insert(x).contains(e) implies s.push(x).to_set().contains(e) by {
        if e == x {
            assert(s.push(x)[s.len() as int] == e);
        } else {
            let k = choose|k: int| 0 <= k < s.len() && s[k] == e;
            assert(s.push(x)[k] == e);
        }
    }
    assert(s.push(x).to_set() =~= s.to_set().insert(x));
}

/// The items of `items` in increasing order, each once.
pub open spec fn sorted_unique(items: Seq<Seq<char>>) -> Seq<Seq<char>> {
    choose|r: Seq<Seq<char>>| strictly_sorted(r) && r.to_set() == items.to_set()
}

proof fn lemma_sorted_first_is_least(a: Seq<Seq<char>>, e: Seq<char>)
    requires
        strictly_sorted(a),
        a.to_set().contains(e),
        a.len() > 0,
        e != a[0],
    ensures
        str_lt(a[0], e),
{
    let k = choose|k: int| 0 <= k < a.len() && a[k] == e;
    assert(k != 0);
}

proof fn lemma_drop_first_to_set(a: Seq<Seq<char>>)
    requires
        strictly_sorted(a),
        a.len() > 0,
    ensures
        a.drop_first().to_set() == a.to_set().remove(a[0]),
{
    let d = a.drop_first();
    assert forall|e: Seq<char>| d.to_set().contains(e) implies a.to_set().remove(a[0]).contains(e) by {
        let k = choose|k: int| 0 <= k < d.len() && d[k] == e;
        assert(a[k + 1] == e);
        assert(str_lt(a[0], a[k + 1]));
        lemma_str_lt_irrefl(e);
    }
    assert forall|e: Seq<char>| a.to_set().remove(a[0]).contains(e) implies d.to_set().contains(e) by {
        let k = choose|k: int| 0 <= k < a.len() && a[k] == e;
        assert(k != 0);
        assert(d[k - 1] == e);
    }
    assert(d.to_set() =~= a.to_set().remove(a[0]));
}

/// Two strictly sorted sequences with the same items are equal.
pub proof fn lemma_sorted_unique(a: Seq<Seq<char>>, b: Seq<Seq<char>>)
    requires
        strictly_sorted(a),
        strictly_sorted(b),
        a.to_set() == b.to_set(),
    ensures
        a == b,
    decreases a.len(),
{
    if a.len() == 0 {
        if b.len() > 0 {
            assert(b.to_set().contains(b[0]));
        }
        assert(a =~= b);
    } else {
        assert(a.to_set().contains(a[0]));
        assert(b.len() > 0);
        assert(b.to_set().contains(b[0]));
        if a[0] != b[0] {
            lemma_sorted_first_is_least(a, b[0]);
            lemma_sorted_first_is_least(b, a[0]);
            lemma_str_lt_trans(a[0], b[0], a[0]);
            lemma_str_lt_irrefl(a[0]);
        }
        lemma_drop_first_to_set(a);
        lemma_drop_first_to_set(b);
        assert(strictly_sorted(a.drop_first()));
        assert(strictly_sorted(b.drop_first()));
        lemma_sorted_unique(a.drop_first(), b.drop_first());
        assert(a =~= b) by {
            assert forall|k: int| 0 <= k < a.len() implies a[k] == b[k] by {
                if k > 0 {
                    assert(a[k] == a.drop_first()[k - 1]);
                    assert(b[k] == b.drop_first()[k - 1]);
                }
            }
        }
    }
}

/// `sorted_unique(items)` is the one strictly sorted sequence of the items
/// of `items`.
pub proof fn lemma_sorted_unique_is(r: Seq<Seq<char>>, items: Seq<Seq<char>>)
    requires
        strictly_sorted(r),
        r.to_set() == items.to_set(),
    ensures
        sorted_unique(items) == r,
{
    let c = sorted_unique(items);
    assert(strictly_sorted(c) && c.to_set() == items.to_set());
    lemma_sorted_unique(c, r);
}

/// `a < b` for strings.
pub fn str_less(a: &String, b: &String) -> (r: bool)
    ensures
        r == str_lt(a@, b@),
{
    let x = a.as_str().as_bytes();
    let y = b.as_str().as_bytes();
    let ghost xs = x@;
    let ghost ys = y@;
    let mut i: usize = 0;
    assert(xs.skip(0) =~= xs && ys.skip(0) =~= ys);
    while i < x.len() && i < y.len() && x[i] == y[i]
        invariant
            i <= x.len(),
            i <= y.len(),
            xs == x@,
            ys == y@,
            bytes_lt(xs, ys) == bytes_lt(xs.skip(i as int), ys.skip(i as int)),
        decreases x.len() - i,
    {
        proof {
            let xa = xs.skip(i as int);
            let ya = ys.skip(i as int);
            assert(xa.drop_first() =~= xs.skip(i + 1));
            assert(ya.drop_first() =~= ys.skip(i + 1));
            assert(xa[0] == ya[0]);
        }
        i = i + 1;
    }
    let ghost xa = xs.skip(i as int);
    let ghost ya = ys.skip(i as int);
    if i == x.len() {
        assert(xa.len() == 0);
        i < y.len()
    } else if i == y.len() {
        assert(ya.len() == 0);
        false
    } else {
        assert(xa[0] == x[i as int] && ya[0] == y[i as int]);
        x[i] < y[i]
    }
}

/// The strings of `v` in increasing order, each once (what `sort_unstable`
/// followed by `dedup` leaves).
pub fn sort_dedup(v: Vec<String>) -> (r: Vec<String>)
    ensures
        strictly_sorted(strs_of(r@)),
        strs_of(r@).to_set() == strs_of(v@).to_set(),
        strs_of(r@) == sorted_unique(strs_of(v@)),
{
    let ghost input = strs_of(v@);
    let mut r: Vec<String> = Vec::new();
    let mut i: usize = 0;
    assert(strs_of(r@).to_set() =~= input.take(0).to_set());
    while i < v.len()
        invariant
            i <= v.len(),
            input == strs_of(v@),
            strictly_sorted(strs_of(r@)),
            strs_of(r@).to_set() == input.take(i as int).to_set(),
        decreases v.len() - i,
    {
        let x = &v[i];
        let mut j: usize = 0;
        while j < r.len() && str_less(&r[j], x)
            invariant
                j <= r.len(),
                forall|k: int| 0 <= k < j ==> str_lt(#[trigger] strs_of(r@)[k], x@),
            decreases r.len() - j,
        {
            j = j + 1;
        }
        let ghost before = strs_of(r@);
        proof {
            assert(input.take(i + 1) =~= input.take(i as int).push(x@));
            lemma_push_to_set(input.take(i as int), x@);
        }
        if j < r.len() && r[j] == *x {
            assert(before.to_set() =~= before.to_set().insert(x@)) by {
                assert(before[j as int] == x@);
            }
        } else {
            proof {
                if j < r.len() {
                    assert(before[j as int] != x@);
                    lemma_str_lt_total(before[j as int], x@);
                }
            }
            r.insert(j, x.clone());
            let ghost after = strs_of(r@);
            assert(after =~= before.insert(j as int, x@));
            proof {
                assert forall|a: int, b: int| 0 <= a < b < after.len() implies str_lt(
                    #[trigger] after[a],
                    #[trigger] after[b],
                ) by {
                    if b < j {
                    } else if a < j && b == j {
                    } else if a < j {
                        assert(after[b] == before[b - 1]);
                    } else if a == j {
                        assert(after[b] == before[b - 1]);
                        if b - 1 > j {
                            lemma_str_lt_trans(x@, before[j as int], before[b - 1]);
                        }
                    } else {
                        assert(after[a] == before[a - 1]);
                        assert(after[b] == before[b - 1]);
                    }
                }
                assert(after.to_set() =~= before.to_set().insert(x@)) by {
                    assert forall|e: Seq<char>| after.to_set().contains(e) implies before.to_set().insert(x@).contains(e) by {
                        let k = choose|k: int| 0 <= k < after.len() && after[k] == e;
                        if k < j {
                            assert(before[k] == e);
                        } else if k > j {
                            assert(before[k - 1] == e);
                        }
                    }
                    assert forall|e: Seq<char>| before.to_set().insert(x@).contains(e) implies after.to_set().contains(e) by {
                        if e == x@ {
                            assert(after[j as int] == e);
                        } else {
                            let k = choose|k: int| 0 <= k < before.len() && before[k] == e;
                            if k < j {
                                assert(after[k] == e);
                            } else {
                                assert(after[k + 1] == e);
                            }
                        }
                    }
                }
            }
        }
        i = i + 1;
    }
    assert(input.take(v.len() as int) =~= input);
    proof {
        lemma_sorted_unique_is(strs_of(r@), input);
    }
    r
}

} // verus!
