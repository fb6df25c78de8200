use vstd::arithmetic::div_mod::{lemma_fundamental_div_mod, lemma_fundamental_div_mod_converse};
use vstd::prelude::*;

use crate::Spacing;

verus! {

/// The `i`-th of the `parts + 1` evenly spaced marks between `0` and `total`:
/// `i * total / parts`, rounded to the nearest integer, a half rounded up.
pub open spec fn breakpoint(total: nat, parts: nat, i: nat) -> nat {
    if parts == 0 {
        0
    } else {
        ((2 * (i * total) + parts) / (2 * parts)) as nat
    }
}

/// What part `i` receives when `total` is divided into `parts`: the distance
/// between two neighbouring marks.
pub open spec fn share(total: nat, parts: nat, i: nat) -> nat {
    (breakpoint(total, parts, i + 1) - breakpoint(total, parts, i)) as nat
}

/// All the shares, in order.
pub open spec fn shares(total: nat, parts: nat) -> Seq<nat> {
    Seq::new(parts, |i: int| share(total, parts, i as nat))
}

/// The sum of a sequence of naturals.
pub open spec fn sum(s: Seq<nat>) -> nat
    decreases s.len(),
{
    if s.len() == 0 {
        0
    } else {
        sum(s.drop_last()) + s.last()
    }
}

/// A sequence of machine integers read as naturals.
pub open spec fn as_nats(s: Seq<usize>) -> Seq<nat> {
    Seq::new(s.len(), |i: int| s[i] as nat)
}

/// Adding `b` to a dividend raises the quotient by `b / m` or by one more.
proof fn lemma_quotient_step(a: int, b: int, m: int)
    requires
        0 <= a,
        0 <= b,
        0 < m,
    ensures
        b / m <= (a + b) / m - a / m <= b / m + 1,
{
    lemma_fundamental_div_mod(a, m);
    lemma_fundamental_div_mod(b, m);
    let r = a % m + b % m;
    let q = a / m + b / m;
    assert(a + b == q * m + r) by (nonlinear_arith)
        requires
            a == m * (a / m) + a % m,
            b == m * (b / m) + b % m,
            r == a % m + b % m,
            q == a / m + b / m,
    ;
    if r < m {
        lemma_fundamental_div_mod_converse(a + b, m, q, r);
    } else {
        assert(a + b == (q + 1) * m + (r - m)) by (nonlinear_arith)
            requires
                a + b == q * m + r,
        ;
        lemma_fundamental_div_mod_converse(a + b, m, q + 1, r - m);
    }
}

/// The marks start at `0` and end at `total`.
pub proof fn lemma_breakpoint_ends(total: nat, parts: nat)
    requires
        parts > 0,
    ensures
        breakpoint(total, parts, 0) == 0,
        breakpoint(total, parts, parts) == total,
{
    let t = total as int;
    let p = parts as int;
    assert(0 * t == 0) by (nonlinear_arith);
    lemma_fundamental_div_mod_converse(p, 2 * p, 0, p);
    assert(2 * (p * t) + p == t * (2 * p) + p) by (nonlinear_arith);
    lemma_fundamental_div_mod_converse(2 * (p * t) + p, 2 * p, t, p);
}

/// Where there are as many cells as parts, every mark is its own number, and
/// every share is one cell.
pub proof fn lemma_breakpoint_identity(parts: nat, i: nat)
    requires
        parts > 0,
    ensures
        breakpoint(parts, parts, i) == i,
        share(parts, parts, i) == 1,
{
    let p = parts as int;
    assert(2 * (i * p) + p == i * (2 * p) + p) by (nonlinear_arith);
    lemma_fundamental_div_mod_converse(2 * (i * p) + p, 2 * p, i as int, p);
    assert(2 * ((i + 1) * p) + p == (i + 1) * (2 * p) + p) by (nonlinear_arith);
    lemma_fundamental_div_mod_converse(2 * ((i + 1) * p) + p, 2 * p, (i + 1) as int, p);
}

/// Each share is the quotient `total / parts` or one more.
pub proof fn lemma_share_range(total: nat, parts: nat, i: nat)
    requires
        parts > 0,
    ensures
        total / parts <= share(total, parts, i) <= total / parts + 1,
        breakpoint(total, parts, i) <= breakpoint(total, parts, i + 1),
{
    let t = total as int;
    let p = parts as int;
    let a = 2 * (i * t) + p;
    let b = 2 * t;
    let m = 2 * p;
    assert(2 * ((i + 1) * t) + p == a + b) by (nonlinear_arith)
        requires
            a == 2 * (i * t) + p,
            b == 2 * t,
    ;
    assert(0 <= i * t) by (nonlinear_arith)
        requires
            0 <= i,
            0 <= t,
    ;
    lemma_quotient_step(a, b, m);
    // 2 * total / (2 * parts) is total / parts
    lemma_fundamental_div_mod(t, p);
    assert(b == (t / p) * m + 2 * (t % p)) by (nonlinear_arith)
        requires
            t == p * (t / p) + t % p,
            b == 2 * t,
            m == 2 * p,
    ;
    lemma_fundamental_div_mod_converse(b, m, t / p, 2 * (t % p));
}

/// Where `total` is a multiple of `parts`, every share is the quotient.
pub proof fn lemma_even_split(total: nat, parts: nat, i: nat)
    requires
        parts > 0,
        total % parts == 0,
    ensures
        breakpoint(total, parts, i) == i * (total / parts),
        share(total, parts, i) == total / parts,
{
    let t = total as int;
    let p = parts as int;
    let q = t / p;
    lemma_fundamental_div_mod(t, p);
    assert(2 * (i * t) + p == (i * q) * (2 * p) + p) by (nonlinear_arith)
        requires
            t == p * q,
    ;
    assert(0 <= i * q) by (nonlinear_arith)
        requires
            0 <= i,
            0 <= q,
    ;
    lemma_fundamental_div_mod_converse(2 * (i * t) + p, 2 * p, i * q, p);
    assert(2 * ((i + 1) * t) + p == ((i + 1) * q) * (2 * p) + p) by (nonlinear_arith)
        requires
            t == p * q,
    ;
    lemma_fundamental_div_mod_converse(2 * ((i + 1) * t) + p, 2 * p, (i + 1) * q, p);
    assert((i + 1) * q - i * q == q) by (nonlinear_arith);
}

/// The marks are ordered.
pub proof fn lemma_breakpoint_monotonic(total: nat, parts: nat, i: nat, j: nat)
    requires
        parts > 0,
        i <= j,
    ensures
        breakpoint(total, parts, i) <= breakpoint(total, parts, j),
    decreases j - i,
{
    if i < j {
        lemma_breakpoint_monotonic(total, parts, i, (j - 1) as nat);
        lemma_share_range(total, parts, (j - 1) as nat);
    }
}

/// The shares of the parts `from .. to` add up to the distance between the
/// marks `from` and `to`.
pub proof fn lemma_shares_telescope(total: nat, parts: nat, from: nat, to: nat)
    requires
        parts > 0,
        from <= to <= parts,
    ensures
        sum(shares(total, parts).subrange(from as int, to as int)) == breakpoint(total, parts, to)
            - breakpoint(total, parts, from),
    decreases to - from,
{
    let s = shares(total, parts).subrange(from as int, to as int);
    if from < to {
        let before = shares(total, parts).subrange(from as int, to - 1);
        assert(s.drop_last() == before);
        lemma_shares_telescope(total, parts, from, (to - 1) as nat);
        lemma_breakpoint_monotonic(total, parts, from, (to - 1) as nat);
        lemma_share_range(total, parts, (to - 1) as nat);
    }
}

/// The shares add up to `total`.
pub proof fn lemma_shares_sum(total: nat, parts: nat)
    requires
        parts > 0,
    ensures
        sum(shares(total, parts)) == total,
{
    lemma_shares_telescope(total, parts, 0, parts);
    lemma_breakpoint_ends(total, parts);
    assert(shares(total, parts).subrange(0, parts as int) == shares(total, parts));
}

/// Computes one mark.
pub(crate) fn breakpoint_at(total: usize, parts: usize, i: usize) -> (mark: usize)
    requires
        parts > 0,
        i <= parts,
    ensures
        mark == breakpoint(total as nat, parts as nat, i as nat),
        mark <= total,
{
    assert(i * total <= usize::MAX * usize::MAX) by (nonlinear_arith)
        requires
            i <= usize::MAX,
            total <= usize::MAX,
    ;
    let product: u128 = (i as u128) * (total as u128);
    let quotient: u128 = product / (parts as u128);
    let rest: u128 = product % (parts as u128);
    let ghost up: int = if 2 * rest >= parts { 1 } else { 0 };
    proof {
        let p = parts as int;
        let x = product as int;
        let q = quotient as int;
        let r = rest as int;
        lemma_fundamental_div_mod(x, p);
        assert(2 * x + p == (q + up) * (2 * p) + (2 * r + p - up * (2 * p))) by (nonlinear_arith)
            requires
                x == p * q + r,
        ;
        lemma_fundamental_div_mod_converse(2 * x + p, 2 * p, q + up, 2 * r + p - up * (2 * p));
        lemma_breakpoint_monotonic(total as nat, parts as nat, i as nat, parts as nat);
        lemma_breakpoint_ends(total as nat, parts as nat);
    }
    if rest >= parts as u128 - rest {
        (quotient + 1) as usize
    } else {
        quotient as usize
    }
}

/// Divides `number` into `into` integer parts as evenly as possible.
///
/// Part `i` spans from the mark `i * number / into` to the next, each mark
/// rounded to the nearest integer and a half rounded up. So the parts add up
/// to `number` and no two of them differ by more than one. Dividing into zero
/// parts gives no part at all.
pub fn split_evenly(number: usize, into: usize) -> (deltas: Vec<usize>)
    ensures
        deltas@.len() == into,
        as_nats(deltas@) == shares(number as nat, into as nat),
        into == 0 ==> deltas@ == Seq::<usize>::empty(),
        into > 0 ==> sum(as_nats(deltas@)) == number,
        forall|i: int, j: int|
            0 <= i < into && 0 <= j < into ==> #[trigger] deltas@[i] <= #[trigger] deltas@[j] + 1,
{
    let mut deltas: Vec<usize> = Vec::new();
    if into == 0 {
        assert(as_nats(deltas@) =~= shares(number as nat, into as nat));
        return deltas;
    }
    let mut i: usize = 0;
    let mut previous: usize = breakpoint_at(number, into, 0);
    while i < into
        invariant
            into > 0,
            i <= into,
            deltas@.len() == i,
            previous == breakpoint(number as nat, into as nat, i as nat),
            forall|k: int| 0 <= k < i ==> #[trigger] deltas@[k] == share(number as nat, into as nat, k as nat),
        decreases into - i,
    {
        let next: usize = breakpoint_at(number, into, i + 1);
        proof {
            lemma_share_range(number as nat, into as nat, i as nat);
        }
        deltas.push(next - previous);
        previous = next;
        i = i + 1;
    }
    proof {
        assert(as_nats(deltas@) =~= shares(number as nat, into as nat));
        lemma_shares_sum(number as nat, into as nat);
        assert forall|i: int, j: int| 0 <= i < into && 0 <= j < into implies #[trigger] deltas@[i]
            <= #[trigger] deltas@[j] + 1 by {
            lemma_share_range(number as nat, into as nat, i as nat);
            lemma_share_range(number as nat, into as nat, j as nat);
        }
    }
    deltas
}

/// The length of the longest row, `0` where there is no row.
pub open spec fn longest<T>(v: Seq<Vec<T>>) -> nat
    decreases v.len(),
{
    if v.len() == 0 {
        0
    } else if v.last().len() > longest(v.drop_last()) {
        v.last().len() as nat
    } else {
        longest(v.drop_last())
    }
}

/// No row is longer than the longest, and some row is that long.
pub proof fn lemma_longest<T>(v: Seq<Vec<T>>)
    ensures
        forall|i: int| 0 <= i < v.len() ==> (#[trigger] v[i]).len() <= longest(v),
        v.len() > 0 ==> exists|i: int| 0 <= i < v.len() && (#[trigger] v[i]).len() == longest(v),
    decreases v.len(),
{
    if v.len() > 0 {
        let front = v.drop_last();
        lemma_longest(front);
        assert forall|i: int| 0 <= i < v.len() implies (#[trigger] v[i]).len() <= longest(v) by {
            if i < front.len() {
                assert(front[i] == v[i]);
            }
        }
        if v.last().len() > longest(front) || front.len() == 0 {
            assert(v[v.len() - 1].len() == longest(v));
        } else {
            let i = choose|i: int| 0 <= i < front.len() && (#[trigger] front[i]).len() == longest(front);
            assert(v[i] == front[i]);
        }
    }
}

/// Whether `after` holds the cells of `before` with rows and columns
/// exchanged: as many rows as the longest row of `before` has cells, each with
/// one cell for every row of `before`, and a default value wherever a row of
/// `before` was too short to have the cell.
pub open spec fn inverts<T: Default>(before: Seq<Vec<T>>, after: Seq<Vec<T>>) -> bool {
    &&& after.len() == longest(before)
    &&& forall|j: int| 0 <= j < after.len() ==> (#[trigger] after[j]).len() == before.len()
    &&& forall|i: int, j: int|
        0 <= i < before.len() && 0 <= j < after.len() ==> if j < before[i].len() {
            after[j][i] == before[i][j]
        } else {
            call_ensures(T::default, (), #[trigger] after[j][i])
        }
}

/// Computes the length of the longest row.
fn longest_row<T>(v: &Vec<Vec<T>>) -> (width: usize)
    ensures
        width == longest(v@),
{
    let mut width: usize = 0;
    for i in 0..v.len()
        invariant
            width == longest(v@.take(i as int)),
    {
        assert(v@.take(i + 1).drop_last() == v@.take(i as int));
        if v[i].len() > width {
            width = v[i].len();
        }
    }
    assert(v@.take(v.len() as int) == v@);
    width
}

/// Moves one cell out of `v`, leaving a default value in its place.
fn take_cell<T: Default>(v: &mut Vec<Vec<T>>, i: usize, j: usize) -> (cell: T)
    requires
        i < old(v).len(),
        j < old(v)[i as int].len(),
    ensures
        cell == old(v)[i as int][j as int],
        final(v).len() == old(v).len(),
        forall|a: int| 0 <= a < old(v).len() ==> (#[trigger] final(v)[a]).len() == old(v)[a].len(),
        forall|a: int, b: int|
            0 <= a < old(v).len() && 0 <= b < old(v)[a].len() && (a != i || b != j)
                ==> #[trigger] final(v)[a][b] == old(v)[a][b],
{
    let mut cell = T::default();
    std::mem::swap(&mut v[i][j], &mut cell);
    cell
}

/// Inverts a 2-dimensional vector: what was cell `j` of row `i` becomes cell
/// `i` of row `j`. Rows shorter than the longest are filled up with default
/// values, so that no cell of a longer row is lost.
pub fn invert_2d_vec<T: Default>(v: &mut Vec<Vec<T>>)
    ensures
        inverts(old(v)@, final(v)@),
{
    let height = v.len();
    let width = longest_row(v);
    let mut inverted: Vec<Vec<T>> = Vec::new();
    let mut j: usize = 0;
    while j < width
        invariant
            j <= width,
            width == longest(old(v)@),
            v.len() == height,
            height == old(v).len(),
            forall|a: int| 0 <= a < height ==> (#[trigger] v[a]).len() == old(v)[a].len(),
            forall|a: int, b: int|
                0 <= a < height && j <= b < old(v)[a].len() ==> #[trigger] v[a][b] == old(v)[a][b],
            inverted.len() == j,
            forall|b: int| 0 <= b < j ==> (#[trigger] inverted[b]).len() == height,
            forall|a: int, b: int|
                0 <= a < height && 0 <= b < j ==> if b < old(v)[a].len() {
                    inverted[b][a] == old(v)[a][b]
                } else {
                    call_ensures(T::default, (), #[trigger] inverted[b][a])
                },
        decreases width - j,
    {
        let mut row: Vec<T> = Vec::new();
        let mut i: usize = 0;
        while i < height
            invariant
                i <= height,
                j < width,
                v.len() == height,
                height == old(v).len(),
                forall|a: int| 0 <= a < height ==> (#[trigger] v[a]).len() == old(v)[a].len(),
                forall|a: int, b: int|
                    0 <= a < height && j < b < old(v)[a].len() ==> #[trigger] v[a][b] == old(
                        v,
                    )[a][b],
                forall|a: int|
                    i <= a < height && j < old(v)[a].len() ==> (#[trigger] v[a])[j as int] == old(
                        v,
                    )[a][j as int],
                row.len() == i,
                forall|a: int|
                    0 <= a < i ==> if j < old(v)[a].len() {
                        row[a] == old(v)[a][j as int]
                    } else {
                        call_ensures(T::default, (), #[trigger] row[a])
                    },
            decreases height - i,
        {
            if j < v[i].len() {
                let cell = take_cell(v, i, j);
                row.push(cell);
            } else {
                row.push(T::default());
            }
            i = i + 1;
        }
        inverted.push(row);
        j = j + 1;
    }
    *v = inverted;
}

/// The number of cells that the spacing between `columns` columns takes.
pub open spec fn spacing_overhead(spacing: Spacing, columns: nat) -> nat {
    match spacing {
        Spacing::NONE => 0,
        Spacing::BETWEEN => if columns == 0 {
            0
        } else {
            (columns - 1) as nat
        },
        Spacing::AROUND => columns + 1,
    }
}

/// Space to allocate for spacing.
pub fn spacing_needed(spacing: Spacing, columns: usize) -> (cells: usize)
    requires
        spacing_overhead(spacing, columns as nat) <= usize::MAX,
    ensures
        cells == spacing_overhead(spacing, columns as nat),
{
    match spacing {
        Spacing::NONE => 0,
        Spacing::BETWEEN => {
            if columns == 0 {
                0
            } else {
                columns - 1
            }
        },
        Spacing::AROUND => columns.checked_add(1).expect("the spacing must fit a machine word"),
    }
}

} // verus!
