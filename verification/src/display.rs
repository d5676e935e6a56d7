//! Normalizing a list of display resolutions: the OS layer enumerates
//! (width, height) modes with repeats in device order, and callers are
//! owed the distinct resolutions in ascending order.
use vstd::prelude::*;

verus! {

/// Lexicographic order on (width, height): wider last, and at equal width
/// taller last.
pub open spec fn res_lt(a: (u32, u32), b: (u32, u32)) -> bool {
    a.0 < b.0 || (a.0 == b.0 && a.1 < b.1)
}

/// Strictly ascending: sorted, with no resolution repeated.
pub open spec fn sorted_unique(s: Seq<(u32, u32)>) -> bool {
    forall|i: int, j: int| 0 <= i < j < s.len() ==> res_lt(#[trigger] s[i], #[trigger] s[j])
}

/// Whether two lists hold the same resolutions, repeats and order aside.
pub open spec fn same_resolutions(a: Seq<(u32, u32)>, b: Seq<(u32, u32)>) -> bool {
    forall|x: (u32, u32)| a.contains(x) <==> b.contains(x)
}

/// Inserting an element grows what a sequence holds by exactly it.
proof fn lemma_insert_contains(s: Seq<(u32, u32)>, k: int, x: (u32, u32))
    requires
        0 <= k <= s.len(),
    ensures
        forall|y: (u32, u32)| s.insert(k, x).contains(y) <==> (s.contains(y) || y == x),
{
    s.insert_ensures(k, x);
    assert forall|y: (u32, u32)| s.insert(k, x).contains(y) implies (s.contains(y) || y == x) by {
        let j = choose|j: int| 0 <= j < s.insert(k, x).len() && s.insert(k, x)[j] == y;
        if j < k {
            assert(s[j] == y);
        } else if j > k {
            assert(s[j - 1] == y);
        }
    }
    assert forall|y: (u32, u32)| (s.contains(y) || y == x) implies s.insert(k, x).contains(y) by {
        if s.contains(y) {
            let j = choose|j: int| 0 <= j < s.len() && s[j] == y;
            if j < k {
                assert(s.insert(k, x)[j] == y);
            } else {
                assert(s.insert(k, x)[j + 1] == y);
            }
        } else {
            assert(s.insert(k, x)[k] == y);
        }
    }
}

/// Taking one element more extends what a prefix holds by exactly it.
proof fn lemma_take_one_more(v: Seq<(u32, u32)>, i: int)
    requires
        0 <= i < v.len(),
    ensures
        forall|y: (u32, u32)| v.take(i + 1).contains(y) <==> (v.take(i).contains(y) || y == v[i]),
{
    assert forall|y: (u32, u32)| v.take(i + 1).contains(y) implies (v.take(i).contains(y) || y
        == v[i]) by {
        let j = choose|j: int| 0 <= j < v.take(i + 1).len() && #[trigger] v.take(i + 1)[j] == y;
        if j < i {
            assert(v.take(i)[j] == y);
        }
    }
    assert forall|y: (u32, u32)| (v.take(i).contains(y) || y == v[i]) implies v.take(
        i + 1,
    ).contains(y) by {
        if v.take(i).contains(y) {
            let j = choose|j: int| 0 <= j < v.take(i).len() && #[trigger] v.take(i)[j] == y;
            assert(v.take(i + 1)[j] == y);
        } else {
            assert(v.take(i + 1)[i] == y);
        }
    }
}

/// Sort a list of resolutions ascending and drop repeats: exactly the
/// resolutions of the input, each once, in strictly ascending order.
#[verifier::rlimit(50)]
pub fn normalize_resolutions(v: &Vec<(u32, u32)>) -> (r: Vec<(u32, u32)>)
    ensures
        sorted_unique(r@),
        same_resolutions(r@, v@),
{
    let mut out: Vec<(u32, u32)> = Vec::new();
    let mut i: usize = 0;
    while i < v.len()
        invariant
            i <= v.len(),
            sorted_unique(out@),
            same_resolutions(out@, v@.take(i as int)),
        decreases v.len() - i,
    {
        let x = v[i];
        let mut k: usize = 0;
        while k < out.len() && (out[k].0 < x.0 || (out[k].0 == x.0 && out[k].1 < x.1))
            invariant
                k <= out.len(),
                forall|j: int| 0 <= j < k ==> res_lt(#[trigger] out@[j], x),
            decreases out.len() - k,
        {
            k = k + 1;
        }
        if k == out.len() || out[k].0 != x.0 || out[k].1 != x.1 {
            let ghost s0 = out@;
            out.insert(k, x);
            proof {
                s0.insert_ensures(k as int, x);
                lemma_insert_contains(s0, k as int, x);
                lemma_take_one_more(v@, i as int);
                assert forall|y: (u32, u32)| out@.contains(y) implies v@.take(
                    i + 1,
                ).contains(y) by {
                    assert(s0.contains(y) || y == x);
                    if s0.contains(y) {
                        let j = choose|j: int|
                            0 <= j < v@.take(i as int).len() && #[trigger] v@.take(i as int)[j]
                                == y;
                        assert(v@.take(i + 1)[j] == y);
                    } else {
                        assert(v@.take(i + 1)[i as int] == y);
                    }
                }
                assert forall|y: (u32, u32)| v@.take(i + 1).contains(y) implies out@.contains(
                    y,
                ) by {
                    let j = choose|j: int|
                        0 <= j < v@.take(i + 1).len() && #[trigger] v@.take(i + 1)[j] == y;
                    if j < i {
                        assert(v@.take(i as int)[j] == y);
                        assert(v@.take(i as int).contains(y));
                    } else {
                        assert(y == x);
                    }
                    assert(s0.contains(y) || y == x);
                }
                assert(same_resolutions(out@, v@.take(i + 1)));
                assert forall|a: int, b: int|
                    0 <= a < b < out@.len() implies res_lt(#[trigger] out@[a], #[trigger] out@[b]) by {
                    if a < k && b == k {
                        assert(out@[a] == s0[a]);
                    } else if a == k && b > k {
                        assert(out@[b] == s0[b - 1]);
                        if k < s0.len() {
                            assert(!res_lt(s0[k as int], x));
                        }
                    } else if a < k && b > k {
                        assert(out@[a] == s0[a]);
                        assert(out@[b] == s0[b - 1]);
                    } else if b < k {
                        assert(out@[a] == s0[a]);
                        assert(out@[b] == s0[b]);
                    } else if a > k {
                        assert(out@[a] == s0[a - 1]);
                        assert(out@[b] == s0[b - 1]);
                    }
                }
                assert(sorted_unique(out@));
            }
        } else {
            proof {
                lemma_take_one_more(v@, i as int);
                assert(out@[k as int] == x);
                assert(out@.contains(out@[k as int]));
                assert forall|y: (u32, u32)| out@.contains(y) implies v@.take(
                    i + 1,
                ).contains(y) by {
                    assert(v@.take(i as int).contains(y));
                    let j = choose|j: int|
                        0 <= j < v@.take(i as int).len() && #[trigger] v@.take(i as int)[j] == y;
                    assert(v@.take(i + 1)[j] == y);
                }
                assert forall|y: (u32, u32)| v@.take(i + 1).contains(y) implies out@.contains(
                    y,
                ) by {
                    let j = choose|j: int|
                        0 <= j < v@.take(i + 1).len() && #[trigger] v@.take(i + 1)[j] == y;
                    if j < i {
                        assert(v@.take(i as int)[j] == y);
                        assert(v@.take(i as int).contains(y));
                    } else {
                        assert(y == x);
                    }
                }
                assert(same_resolutions(out@, v@.take(i + 1)));
            }
        }
        i = i + 1;
    }
    proof {
        assert(v@.take(v@.len() as int) =~= v@);
    }
    out
}

} // verus!
