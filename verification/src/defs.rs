//! The mathematical model of the buddy registry: the rung ladder, buddy
//! addresses, disjointness of frames, and the well-formedness predicates that
//! every operation preserves.

use vstd::prelude::*;
use vstd::arithmetic::div_mod::{
    lemma_add_mod_noop, lemma_div_pos_is_pos, lemma_fundamental_div_mod, lemma_mod_bound,
    lemma_mod_mod, lemma_mod_multiples_basic, lemma_mod_self_0, lemma_small_mod,
};

verus! {

/// Smallest frame size, in bytes, that the registry tracks.
pub const MIN_FRAME_SIZE: usize = 16;

/// Number of rungs on the size ladder.
pub const NUM_RUNGS: usize = 24;

/// Largest frame size: `MIN_FRAME_SIZE` doubled `NUM_RUNGS - 1` times.
pub const MAX_FRAME_SIZE: usize = 134217728;

/// Byte size of the frames at rung `i`.
pub open spec fn rung_size(i: int) -> int
    decreases i,
{
    if i <= 0 {
        MIN_FRAME_SIZE as int
    } else {
        2 * rung_size(i - 1)
    }
}

pub proof fn lemma_rung_size_pos(i: int)
    ensures
        rung_size(i) >= MIN_FRAME_SIZE,
    decreases i,
{
    if i > 0 {
        lemma_rung_size_pos(i - 1);
    }
}

pub proof fn lemma_rung_size_mono(i: int, j: int)
    requires
        i <= j,
    ensures
        rung_size(i) <= rung_size(j),
    decreases j - i,
{
    if i < j {
        lemma_rung_size_mono(i, j - 1);
        lemma_rung_size_pos(j - 1);
    }
}

/// The top rung has exactly the size `MAX_FRAME_SIZE`.
pub proof fn lemma_rung_size_top()
    ensures
        rung_size(NUM_RUNGS - 1) == MAX_FRAME_SIZE,
{
    reveal_with_fuel(rung_size, 25);
}

/// A smaller rung's size divides a larger rung's size.
pub proof fn lemma_rung_size_divides(i: int, j: int)
    requires
        0 <= i <= j,
    ensures
        rung_size(j) % rung_size(i) == 0,
    decreases j - i,
{
    lemma_rung_size_pos(i);
    if i == j {
        lemma_mod_self_0(rung_size(i));
    } else {
        lemma_rung_size_divides(i, j - 1);
        lemma_rung_size_pos(j - 1);
        let m = rung_size(j - 1);
        let d = rung_size(i);
        lemma_add_mod_noop(m, m, d);
        lemma_small_mod(0, d as nat);
        assert(rung_size(j) == m + m);
    }
}

/// An address aligned to a larger rung is aligned to every smaller rung.
pub proof fn lemma_aligned_down(a: int, i: int, j: int)
    requires
        0 <= i <= j,
        a % rung_size(j) == 0,
    ensures
        a % rung_size(i) == 0,
{
    lemma_rung_size_pos(i);
    lemma_rung_size_pos(j);
    lemma_rung_size_mono(i, j);
    lemma_rung_size_divides(i, j);
    let dj = rung_size(j);
    let di = rung_size(i);
    lemma_fundamental_div_mod(dj, di);
    let k = dj / di;
    lemma_div_pos_is_pos(dj, di);
    assert(di * k == dj);
    assert(k != 0);
    lemma_mod_mod(a, di, k);
    lemma_small_mod(0, di as nat);
}

/// An address aligned to a rung sits either at an even or an odd multiple of
/// that rung within the next rung.
pub proof fn lemma_align_split(a: int, s: int)
    requires
        s > 0,
        a % s == 0,
    ensures
        a % (2 * s) == 0 || a % (2 * s) == s,
{
    lemma_mod_mod(a, s, 2);
    lemma_mod_bound(a, 2 * s);
    assert(a % (2 * s) == 0 || a % (2 * s) == s) by (nonlinear_arith)
        requires
            (a % (2 * s)) % s == a % s,
            a % s == 0,
            0 <= a % (2 * s) < 2 * s,
            s > 0,
    ;
}

/// The smallest rung whose size reaches `n`, searching upward from rung `i`.
pub open spec fn rung_of_from(n: int, i: int) -> int
    decreases NUM_RUNGS - i,
{
    if i >= NUM_RUNGS - 1 || rung_size(i) >= n {
        i
    } else {
        rung_of_from(n, i + 1)
    }
}

/// The rung that serves a request of `n` bytes: the smallest rung whose size
/// is at least `n` (the top rung if none is).
pub open spec fn rung_of(n: int) -> int {
    rung_of_from(n, 0)
}

pub proof fn lemma_rung_of_from_props(n: int, i: int)
    requires
        0 <= i < NUM_RUNGS,
    ensures
        i <= rung_of_from(n, i) < NUM_RUNGS,
        rung_size(rung_of_from(n, i)) >= n || rung_of_from(n, i) == NUM_RUNGS - 1,
        forall|k: int| i <= k < rung_of_from(n, i) ==> rung_size(k) < n,
    decreases NUM_RUNGS - i,
{
    if !(i >= NUM_RUNGS - 1 || rung_size(i) >= n) {
        lemma_rung_of_from_props(n, i + 1);
    }
}

pub proof fn lemma_rung_of_props(n: int)
    requires
        1 <= n <= MAX_FRAME_SIZE,
    ensures
        0 <= rung_of(n) < NUM_RUNGS,
        rung_size(rung_of(n)) >= n,
        forall|k: int| 0 <= k < rung_of(n) ==> rung_size(k) < n,
{
    lemma_rung_of_from_props(n, 0);
    lemma_rung_size_top();
}

/// The buddy of the frame based at `a` on a rung of size `s`: the other half
/// of the enclosing frame of size `2 * s`.
pub open spec fn buddy_of(a: int, s: int) -> int {
    if a % (2 * s) == 0 {
        a + s
    } else {
        a - s
    }
}

/// Two byte ranges `[a, a + sa)` and `[b, b + sb)` do not intersect.
pub open spec fn frames_disjoint(a: int, sa: int, b: int, sb: int) -> bool {
    a + sa <= b || b + sb <= a
}

/// The address of the `j`-th free frame on rung `i`.
pub open spec fn rung_addr(fr: Seq<Seq<usize>>, i: int, j: int) -> int {
    fr[i][j] as int
}

/// `(i, j)` names a frame actually held by the registry.
pub open spec fn frame_slot(fr: Seq<Seq<usize>>, i: int, j: int) -> bool {
    0 <= i < fr.len() && 0 <= j < fr[i].len()
}

/// Every free frame is aligned to its own size and lies within the managed
/// address range `[0, end)`.
pub open spec fn frames_aligned(fr: Seq<Seq<usize>>, end: int) -> bool {
    forall|i: int, j: int|
        frame_slot(fr, i, j) ==> #[trigger] rung_addr(fr, i, j) % rung_size(i) == 0
            && rung_addr(fr, i, j) + rung_size(i) <= end
}

/// The addresses within one rung are strictly increasing (so each address is
/// held at most once, and the lowest free address sits first).
pub open spec fn rung_sorted(s: Seq<usize>) -> bool {
    forall|j: int, l: int| 0 <= j < l < s.len() ==> s[j] < s[l]
}

pub open spec fn frames_sorted(fr: Seq<Seq<usize>>) -> bool {
    forall|i: int| 0 <= i < fr.len() ==> rung_sorted(#[trigger] fr[i])
}

/// No two distinct free frames, on any rungs, cover intersecting byte ranges.
pub open spec fn frames_no_overlap(fr: Seq<Seq<usize>>) -> bool {
    forall|i: int, j: int, k: int, l: int|
        frame_slot(fr, i, j) && frame_slot(fr, k, l) && (i != k || j != l)
            ==> frames_disjoint(
                #[trigger] rung_addr(fr, i, j),
                rung_size(i),
                #[trigger] rung_addr(fr, k, l),
                rung_size(k),
            )
}

/// Structural well-formedness of the free-list registry.
pub open spec fn frames_wf(fr: Seq<Seq<usize>>, end: int) -> bool {
    &&& fr.len() == NUM_RUNGS
    &&& frames_aligned(fr, end)
    &&& frames_sorted(fr)
    &&& frames_no_overlap(fr)
}

/// Below the top rung, no two free frames of one rung are buddies: every
/// mergeable pair has been coalesced.
pub open spec fn coalesced(fr: Seq<Seq<usize>>) -> bool {
    forall|i: int, j: int, l: int|
        0 <= i < fr.len() - 1 && 0 <= j < fr[i].len() && 0 <= l < fr[i].len()
            ==> #[trigger] rung_addr(fr, i, l) != buddy_of(#[trigger] rung_addr(fr, i, j), rung_size(i))
}

/// Every buddy pair held on rung `k` has at least one member intersecting
/// the byte range `[lo, lo + llen)`: such pairs are transient, and a carving
/// pass over the rung resolves them.
pub open spec fn rung_pairs_overlap(fr: Seq<Seq<usize>>, k: int, lo: int, llen: int) -> bool {
    forall|j: int, l: int|
        0 <= j < fr[k].len() && 0 <= l < fr[k].len() && #[trigger] rung_addr(fr, k, l)
            == buddy_of(#[trigger] rung_addr(fr, k, j), rung_size(k))
            ==> !frames_disjoint(lo, llen, rung_addr(fr, k, j), rung_size(k))
                || !frames_disjoint(lo, llen, rung_addr(fr, k, l), rung_size(k))
}

/// Total bytes held free on the rungs `i` and above.
pub open spec fn free_bytes_from(fr: Seq<Seq<usize>>, i: int) -> int
    decreases NUM_RUNGS - i,
{
    if i < 0 || i >= NUM_RUNGS {
        0
    } else {
        fr[i].len() * rung_size(i) + free_bytes_from(fr, i + 1)
    }
}

/// Total bytes held free across the whole registry.
pub open spec fn free_bytes(fr: Seq<Seq<usize>>) -> int {
    free_bytes_from(fr, 0)
}

/// Replacing the contents of one rung changes the free byte total by the
/// size-weighted change in that rung's population.
pub proof fn lemma_free_bytes_update(fr: Seq<Seq<usize>>, k: int, v: Seq<usize>, i: int)
    requires
        fr.len() == NUM_RUNGS,
        0 <= k < NUM_RUNGS,
        0 <= i,
    ensures
        free_bytes_from(fr.update(k, v), i) == free_bytes_from(fr, i) + if i <= k {
            (v.len() - fr[k].len()) * rung_size(k)
        } else {
            0
        },
    decreases NUM_RUNGS - i,
{
    if i < NUM_RUNGS {
        lemma_free_bytes_update(fr, k, v, i + 1);
        if i == k {
            assert(v.len() * rung_size(k) - fr[k].len() * rung_size(k)
                == (v.len() - fr[k].len()) * rung_size(k)) by (nonlinear_arith);
        }
    }
}

/// The lowest rung at or above `i` that holds a free frame (`NUM_RUNGS` if
/// none does).
pub open spec fn first_free_from(fr: Seq<Seq<usize>>, i: int) -> int
    decreases NUM_RUNGS - i,
{
    if i < 0 || i >= NUM_RUNGS {
        NUM_RUNGS as int
    } else if fr[i].len() > 0 {
        i
    } else {
        first_free_from(fr, i + 1)
    }
}

/// Divisibility of moduli is transitive: a multiple of `m` is a multiple of
/// every divisor of `m`.
pub proof fn lemma_mod_div_transitive(a: int, m: int, d: int)
    requires
        m % d == 0,
        a % m == 0,
        d > 0,
        m > 0,
    ensures
        a % d == 0,
{
    lemma_fundamental_div_mod(m, d);
    let k = m / d;
    lemma_div_pos_is_pos(m, d);
    assert(d * k == m);
    assert(k != 0);
    lemma_mod_mod(a, d, k);
    lemma_small_mod(0, d as nat);
}

/// When a single rung holds all the free frames, the free byte total is that
/// rung's population times its size.
pub proof fn lemma_free_bytes_single_from(fr: Seq<Seq<usize>>, k: int, i: int)
    requires
        fr.len() == NUM_RUNGS,
        0 <= k < NUM_RUNGS,
        0 <= i,
        forall|t: int| 0 <= t < NUM_RUNGS && t != k ==> fr[t].len() == 0,
    ensures
        free_bytes_from(fr, i) == if i <= k {
            fr[k].len() * rung_size(k)
        } else {
            0
        },
    decreases NUM_RUNGS - i,
{
    if i < NUM_RUNGS {
        lemma_free_bytes_single_from(fr, k, i + 1);
    }
}

/// Inserting `x` into a sorted sequence of addresses, keeping the order.
pub open spec fn sorted_insert(s: Seq<usize>, x: usize) -> Seq<usize>
    decreases s.len(),
{
    if s.len() == 0 {
        seq![x]
    } else if x < s[0] {
        seq![x] + s
    } else {
        seq![s[0]] + sorted_insert(s.drop_first(), x)
    }
}

/// Removing the (unique) occurrence of `x` from a sequence of addresses.
pub open spec fn remove_value(s: Seq<usize>, x: usize) -> Seq<usize>
    decreases s.len(),
{
    if s.len() == 0 {
        s
    } else if s[0] == x {
        s.drop_first()
    } else {
        seq![s[0]] + remove_value(s.drop_first(), x)
    }
}

pub proof fn lemma_sorted_insert_props(s: Seq<usize>, x: usize)
    requires
        rung_sorted(s),
        !s.contains(x),
    ensures
        sorted_insert(s, x).len() == s.len() + 1,
        rung_sorted(sorted_insert(s, x)),
        forall|y: usize| #[trigger] sorted_insert(s, x).contains(y) <==> s.contains(y) || y == x,
    decreases s.len(),
{
    let t = sorted_insert(s, x);
    if s.len() == 0 {
        assert forall|y: usize| #[trigger] t.contains(y) implies s.contains(y) || y == x by {
            let w = choose|w: int| 0 <= w < t.len() && t[w] == y;
            assert(t[0] == x);
        }
        assert(t.contains(x)) by {
            assert(t[0] == x);
        }
    } else if x < s[0] {
        assert forall|y: usize| #[trigger] t.contains(y) implies s.contains(y) || y == x by {
            let w = choose|w: int| 0 <= w < t.len() && t[w] == y;
            if w > 0 {
                assert(s[w - 1] == y);
            }
        }
        assert forall|y: usize| s.contains(y) || y == x implies #[trigger] t.contains(y) by {
            if y == x {
                assert(t[0] == y);
            } else {
                let w = choose|w: int| 0 <= w < s.len() && s[w] == y;
                assert(t[w + 1] == y);
            }
        }
    } else {
        let d = s.drop_first();
        assert(rung_sorted(d)) by {
            assert(forall|j: int, l: int| 0 <= j < l < d.len() ==> d[j] == s[j + 1] && d[l] == s[l + 1]);
        }
        assert(!d.contains(x)) by {
            if d.contains(x) {
                let w = choose|w: int| 0 <= w < d.len() && d[w] == x;
                assert(s[w + 1] == x);
            }
        }
        lemma_sorted_insert_props(d, x);
        let td = sorted_insert(d, x);
        assert(t == seq![s[0]] + td);
        // s[0] is strictly below everything in td: below x because x > s[0]
        // (x != s[0] since x is not in s), and below every element of d.
        assert(x != s[0]) by {
            if x == s[0] {
                assert(s.contains(x)) by {
                    assert(s[0] == x);
                }
            }
        }
        assert forall|j: int, l: int| 0 <= j < l < t.len() implies t[j] < t[l] by {
            if j == 0 {
                assert(t[l] == td[l - 1]);
                assert(td.contains(td[l - 1])) by {
                    assert(td[l - 1] == td[l - 1]);
                }
                if td[l - 1] != x {
                    let w = choose|w: int| 0 <= w < d.len() && d[w] == td[l - 1];
                    assert(s[w + 1] == td[l - 1]);
                }
            } else {
                assert(t[j] == td[j - 1] && t[l] == td[l - 1]);
            }
        }
        assert forall|y: usize| #[trigger] t.contains(y) implies s.contains(y) || y == x by {
            let w = choose|w: int| 0 <= w < t.len() && t[w] == y;
            if w == 0 {
                assert(s[0] == y);
            } else {
                assert(td[w - 1] == y);
                assert(td.contains(y));
                if y != x {
                    let u = choose|u: int| 0 <= u < d.len() && d[u] == y;
                    assert(s[u + 1] == y);
                }
            }
        }
        assert forall|y: usize| s.contains(y) || y == x implies #[trigger] t.contains(y) by {
            if y == x || d.contains(y) {
                assert(td.contains(y));
                let u = choose|u: int| 0 <= u < td.len() && td[u] == y;
                assert(t[u + 1] == y);
            } else {
                let w = choose|w: int| 0 <= w < s.len() && s[w] == y;
                if w == 0 {
                    assert(t[0] == y);
                } else {
                    assert(d[w - 1] == y);
                }
            }
        }
    }
}

pub proof fn lemma_remove_value_props(s: Seq<usize>, x: usize)
    requires
        rung_sorted(s),
        s.contains(x),
    ensures
        remove_value(s, x).len() == s.len() - 1,
        rung_sorted(remove_value(s, x)),
        forall|y: usize| #[trigger] remove_value(s, x).contains(y) <==> s.contains(y) && y != x,
    decreases s.len(),
{
    let t = remove_value(s, x);
    let d = s.drop_first();
    assert(rung_sorted(d)) by {
        assert(forall|j: int, l: int| 0 <= j < l < d.len() ==> d[j] == s[j + 1] && d[l] == s[l + 1]);
    }
    if s[0] == x {
        assert(t == d);
        assert forall|y: usize| #[trigger] t.contains(y) implies s.contains(y) && y != x by {
            let w = choose|w: int| 0 <= w < d.len() && d[w] == y;
            assert(s[w + 1] == y);
            assert(s[0] < s[w + 1]);
        }
        assert forall|y: usize| s.contains(y) && y != x implies #[trigger] t.contains(y) by {
            let w = choose|w: int| 0 <= w < s.len() && s[w] == y;
            assert(w != 0);
            assert(d[w - 1] == y);
        }
    } else {
        assert(d.contains(x)) by {
            let w = choose|w: int| 0 <= w < s.len() && s[w] == x;
            assert(w != 0);
            assert(d[w - 1] == x);
        }
        lemma_remove_value_props(d, x);
        let td = remove_value(d, x);
        assert(t == seq![s[0]] + td);
        assert forall|j: int, l: int| 0 <= j < l < t.len() implies t[j] < t[l] by {
            if j == 0 {
                assert(t[l] == td[l - 1]);
                assert(td.contains(td[l - 1])) by {
                    assert(td[l - 1] == td[l - 1]);
                }
                let w = choose|w: int| 0 <= w < d.len() && d[w] == td[l - 1];
                assert(s[w + 1] == td[l - 1]);
            } else {
                assert(t[j] == td[j - 1] && t[l] == td[l - 1]);
            }
        }
        assert forall|y: usize| #[trigger] t.contains(y) implies s.contains(y) && y != x by {
            let w = choose|w: int| 0 <= w < t.len() && t[w] == y;
            if w == 0 {
                assert(s[0] == y);
            } else {
                assert(td[w - 1] == y);
                assert(td.contains(y));
                let u = choose|u: int| 0 <= u < d.len() && d[u] == y;
                assert(s[u + 1] == y);
            }
        }
        assert forall|y: usize| s.contains(y) && y != x implies #[trigger] t.contains(y) by {
            let w = choose|w: int| 0 <= w < s.len() && s[w] == y;
            if w == 0 {
                assert(t[0] == y);
            } else {
                assert(d[w - 1] == y);
                assert(td.contains(y));
                let u = choose|u: int| 0 <= u < td.len() && td[u] == y;
                assert(t[u + 1] == y);
            }
        }
    }
}

/// Some free frame on this rung has the base address `x`.
pub open spec fn rung_has(s: Seq<usize>, x: int) -> bool {
    exists|j: int| 0 <= j < s.len() && s[j] == x
}

/// The registry after freeing the frame based at `a` into rung `i`: the
/// frame is merged with its buddy whenever the buddy is free, walking up the
/// ladder, and the final merged frame is inserted where no further merge is
/// possible.
pub open spec fn coalesce(fr: Seq<Seq<usize>>, a: usize, i: int) -> Seq<Seq<usize>>
    decreases NUM_RUNGS - i,
{
    if i < 0 || i >= NUM_RUNGS {
        fr
    } else if i == NUM_RUNGS - 1 {
        fr.update(i, sorted_insert(fr[i], a))
    } else {
        let b = buddy_of(a as int, rung_size(i));
        if rung_has(fr[i], b) {
            coalesce(
                fr.update(i, remove_value(fr[i], b as usize)),
                if a as int <= b {
                    a
                } else {
                    b as usize
                },
                i + 1,
            )
        } else {
            fr.update(i, sorted_insert(fr[i], a))
        }
    }
}

/// The buddy relation is a symmetric pairing of aligned addresses.
pub proof fn lemma_buddy_involution(x: int, s: int)
    requires
        s > 0,
        x >= 0,
        x % s == 0,
    ensures
        buddy_of(x, s) % s == 0,
        buddy_of(x, s) != x,
        buddy_of(buddy_of(x, s), s) == x,
        buddy_of(x, s) >= 0,
        if x % (2 * s) == 0 {
            buddy_of(x, s) == x + s
        } else {
            buddy_of(x, s) == x - s
        },
{
    lemma_align_split(x, s);
    let b = buddy_of(x, s);
    if x % (2 * s) == 0 {
        assert(b == x + s);
        lemma_add_mod_noop(x, s, 2 * s);
        lemma_small_mod(s as nat, (2 * s) as nat);
        assert(b % (2 * s) == s);
        lemma_add_mod_noop(x, s, s);
        lemma_mod_self_0(s);
        lemma_small_mod(0, s as nat);
    } else {
        assert(x % (2 * s) == s);
        assert(b == x - s);
        lemma_fundamental_div_mod(x, 2 * s);
        lemma_div_pos_is_pos(x, 2 * s);
        assert(x == 2 * s * (x / (2 * s)) + s);
        assert(b == 2 * s * (x / (2 * s)));
        lemma_mod_multiples_basic(x / (2 * s), 2 * s);
        assert(b % (2 * s) == 0) by {
            assert(b == (x / (2 * s)) * (2 * s)) by (nonlinear_arith)
                requires b == 2 * s * (x / (2 * s)),
            ;
        }
        assert(b >= 0) by (nonlinear_arith)
            requires b == 2 * s * (x / (2 * s)), s > 0, x / (2 * s) >= 0,
        ;
        lemma_add_mod_noop(x, -s, s);
        lemma_mod_self_0(s);
        assert((-s) % s == 0) by {
            lemma_mod_multiples_basic(-1, s);
        }
        lemma_small_mod(0, s as nat);
    }
}

/// Inserting at the position found by a left-to-right scan over a sorted
/// sequence agrees with `sorted_insert`.
pub proof fn lemma_sorted_insert_at(s: Seq<usize>, x: usize, w: int)
    requires
        rung_sorted(s),
        0 <= w <= s.len(),
        forall|m: int| 0 <= m < w ==> s[m] < x,
        w < s.len() ==> x < s[w],
    ensures
        s.insert(w, x) == sorted_insert(s, x),
    decreases s.len(),
{
    if s.len() == 0 {
        assert(s.insert(0, x) =~= seq![x]);
    } else if w == 0 {
        assert(s.insert(0, x) =~= seq![x] + s);
    } else {
        let d = s.drop_first();
        assert(rung_sorted(d)) by {
            assert(forall|j: int, l: int|
                0 <= j < l < d.len() ==> d[j] == s[j + 1] && d[l] == s[l + 1]);
        }
        assert(forall|m: int| 0 <= m < w - 1 ==> d[m] == s[m + 1] && s[m + 1] < x);
        if w - 1 < d.len() {
            assert(d[w - 1] == s[w]);
        }
        lemma_sorted_insert_at(d, x, w - 1);
        assert(s[0] < x);
        assert(sorted_insert(s, x) == seq![s[0]] + sorted_insert(d, x));
        assert(s.insert(w, x) =~= seq![s[0]] + d.insert(w - 1, x));
    }
}

/// Removing at the position where a sorted sequence holds `x` agrees with
/// `remove_value`.
pub proof fn lemma_remove_value_at(s: Seq<usize>, x: usize, w: int)
    requires
        rung_sorted(s),
        0 <= w < s.len(),
        s[w] == x,
    ensures
        s.remove(w) == remove_value(s, x),
    decreases s.len(),
{
    if w == 0 {
        assert(s.remove(0) =~= s.drop_first());
    } else {
        let d = s.drop_first();
        assert(rung_sorted(d)) by {
            assert(forall|j: int, l: int|
                0 <= j < l < d.len() ==> d[j] == s[j + 1] && d[l] == s[l + 1]);
        }
        assert(d[w - 1] == s[w]);
        lemma_remove_value_at(d, x, w - 1);
        assert(s[0] < s[w]);
        assert(remove_value(s, x) == seq![s[0]] + remove_value(d, x));
        assert(s.remove(w) =~= seq![s[0]] + d.remove(w - 1));
    }
}

/// Replacing one rung's contents by a sorted selection of the addresses it
/// already held preserves well-formedness.
pub proof fn lemma_rung_shrink(fr: Seq<Seq<usize>>, i: int, t: Seq<usize>, e: int)
    requires
        frames_wf(fr, e),
        0 <= i < NUM_RUNGS,
        rung_sorted(t),
        forall|y: usize| #[trigger] t.contains(y) ==> fr[i].contains(y),
    ensures
        frames_wf(fr.update(i, t), e),
{
    let c = fr.update(i, t);
    assert forall|k: int, j: int| frame_slot(c, k, j) implies
        #[trigger] rung_addr(c, k, j) % rung_size(k) == 0
            && rung_addr(c, k, j) + rung_size(k) <= e by {
        if k == i {
            let y = c[k][j];
            assert(t.contains(y)) by {
                assert(t[j] == y);
            }
            let j0 = choose|j0: int| 0 <= j0 < fr[i].len() && fr[i][j0] == y;
            assert(rung_addr(fr, i, j0) == y as int);
            assert(frame_slot(fr, i, j0));
        } else {
            assert(rung_addr(c, k, j) == rung_addr(fr, k, j));
            assert(frame_slot(fr, k, j));
        }
    }
    assert forall|k: int| 0 <= k < c.len() implies rung_sorted(#[trigger] c[k]) by {
        if k != i {
            assert(c[k] == fr[k]);
        }
    }
    assert forall|k: int, j: int, k2: int, j2: int|
        frame_slot(c, k, j) && frame_slot(c, k2, j2) && (k != k2 || j != j2) implies
        frames_disjoint(
            #[trigger] rung_addr(c, k, j),
            rung_size(k),
            #[trigger] rung_addr(c, k2, j2),
            rung_size(k2),
        ) by {
        let y = c[k][j];
        let y2 = c[k2][j2];
        let j0: int = if k == i {
            assert(t.contains(y)) by {
                assert(t[j] == y);
            }
            choose|j0: int| 0 <= j0 < fr[i].len() && fr[i][j0] == y
        } else {
            j
        };
        let j20: int = if k2 == i {
            assert(t.contains(y2)) by {
                assert(t[j2] == y2);
            }
            choose|j20: int| 0 <= j20 < fr[i].len() && fr[i][j20] == y2
        } else {
            j2
        };
        assert(frame_slot(fr, k, j0) && rung_addr(fr, k, j0) == y as int);
        assert(frame_slot(fr, k2, j20) && rung_addr(fr, k2, j20) == y2 as int);
        if k == k2 && k == i {
            // distinct positions in the strictly sorted selection carry
            // distinct addresses, hence distinct source positions
            assert(y != y2);
            assert(j0 != j20);
        } else if k == k2 {
            assert(j0 != j20);
        }
        assert((k, j0) != ((k2, j20)));
    }
}

/// Inserting an aligned, in-range frame that overlaps no free frame into its
/// rung preserves well-formedness.
pub proof fn lemma_rung_insert_wf(fr: Seq<Seq<usize>>, i: int, a: usize, e: int)
    requires
        frames_wf(fr, e),
        0 <= i < NUM_RUNGS,
        a as int % rung_size(i) == 0,
        a as int + rung_size(i) <= e,
        forall|k: int, j: int|
            frame_slot(fr, k, j) ==> frames_disjoint(
                a as int,
                rung_size(i),
                #[trigger] rung_addr(fr, k, j),
                rung_size(k),
            ),
    ensures
        !fr[i].contains(a),
        frames_wf(fr.update(i, sorted_insert(fr[i], a)), e),
{
    lemma_rung_size_pos(i);
    assert(!fr[i].contains(a)) by {
        if fr[i].contains(a) {
            let j0 = choose|j0: int| 0 <= j0 < fr[i].len() && fr[i][j0] == a;
            assert(frame_slot(fr, i, j0));
            assert(rung_addr(fr, i, j0) == a as int);
        }
    }
    lemma_sorted_insert_props(fr[i], a);
    let t = sorted_insert(fr[i], a);
    let c = fr.update(i, t);
    assert forall|k: int, j: int| frame_slot(c, k, j) implies
        #[trigger] rung_addr(c, k, j) % rung_size(k) == 0
            && rung_addr(c, k, j) + rung_size(k) <= e by {
        if k == i {
            let y = c[k][j];
            assert(t.contains(y)) by {
                assert(t[j] == y);
            }
            if y != a {
                let j0 = choose|j0: int| 0 <= j0 < fr[i].len() && fr[i][j0] == y;
                assert(rung_addr(fr, i, j0) == y as int);
                assert(frame_slot(fr, i, j0));
            }
        } else {
            assert(rung_addr(c, k, j) == rung_addr(fr, k, j));
            assert(frame_slot(fr, k, j));
        }
    }
    assert forall|k: int| 0 <= k < c.len() implies rung_sorted(#[trigger] c[k]) by {
        if k != i {
            assert(c[k] == fr[k]);
        }
    }
    assert forall|k: int, j: int, k2: int, j2: int|
        frame_slot(c, k, j) && frame_slot(c, k2, j2) && (k != k2 || j != j2) implies
        frames_disjoint(
            #[trigger] rung_addr(c, k, j),
            rung_size(k),
            #[trigger] rung_addr(c, k2, j2),
            rung_size(k2),
        ) by {
        let y = c[k][j];
        let y2 = c[k2][j2];
        if k == i {
            assert(t.contains(y)) by {
                assert(t[j] == y);
            }
        }
        if k2 == i {
            assert(t.contains(y2)) by {
                assert(t[j2] == y2);
            }
        }
        if k == i && y == a {
            // the other slot is an old frame: equal addresses on one rung
            // are ruled out by strict sortedness
            assert(y2 != a || k2 != i);
            if k2 == i {
                assert(y2 != y);
                let j20 = choose|j20: int| 0 <= j20 < fr[i].len() && fr[i][j20] == y2;
                assert(rung_addr(fr, i, j20) == y2 as int && frame_slot(fr, i, j20));
            } else {
                assert(rung_addr(c, k2, j2) == rung_addr(fr, k2, j2));
                assert(frame_slot(fr, k2, j2));
            }
        } else if k2 == i && y2 == a {
            if k == i {
                assert(y != y2);
                let j0 = choose|j0: int| 0 <= j0 < fr[i].len() && fr[i][j0] == y;
                assert(rung_addr(fr, i, j0) == y as int && frame_slot(fr, i, j0));
            } else {
                assert(rung_addr(c, k, j) == rung_addr(fr, k, j));
                assert(frame_slot(fr, k, j));
            }
        } else {
            let j0: int = if k == i {
                choose|j0: int| 0 <= j0 < fr[i].len() && fr[i][j0] == y
            } else {
                j
            };
            let j20: int = if k2 == i {
                choose|j20: int| 0 <= j20 < fr[i].len() && fr[i][j20] == y2
            } else {
                j2
            };
            assert(frame_slot(fr, k, j0) && rung_addr(fr, k, j0) == y as int);
            assert(frame_slot(fr, k2, j20) && rung_addr(fr, k2, j20) == y2 as int);
            if k == k2 {
                assert(y != y2);
                assert(j0 != j20);
            }
            assert((k, j0) != ((k2, j20)));
        }
    }
}

/// Re-inserting the head of a sorted sequence into its tail restores the
/// sequence.
pub proof fn lemma_sorted_insert_head(s: Seq<usize>)
    requires
        rung_sorted(s),
        s.len() > 0,
    ensures
        sorted_insert(s.drop_first(), s[0]) == s,
{
    let d = s.drop_first();
    if d.len() == 0 {
        assert(sorted_insert(d, s[0]) =~= s);
    } else {
        assert(s[0] < d[0]) by {
            assert(d[0] == s[1]);
        }
        assert(sorted_insert(d, s[0]) =~= seq![s[0]] + d);
        assert(seq![s[0]] + d =~= s);
    }
}

} // verus!
