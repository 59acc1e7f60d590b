//! The candidate space: rendering a candidate index as a zero-padded decimal
//! password, and splitting `[0, upper_bound)` into contiguous ranges.
use vstd::prelude::*;
use vstd::arithmetic::div_mod::{lemma_fundamental_div_mod, lemma_div_pos_is_pos};
use vstd::arithmetic::mul::lemma_mul_inequality;

verus! {

/// The decimal digit character for `d` (meaningful for `d < 10`).
pub open spec fn digit_char(d: nat) -> char {
    (d + 48) as char
}

/// The numeric value of a digit character.
pub open spec fn digit_value(c: char) -> int {
    c as int - 48
}

/// `n` written in decimal, zero-padded on the left to at least `width`
/// characters; at least one digit is always written.
pub open spec fn render(n: nat, width: nat) -> Seq<char>
    decreases n + width,
{
    if n < 10 && width <= 1 {
        seq![digit_char(n)]
    } else {
        render(n / 10, if width > 0 { (width - 1) as nat } else { 0 }).push(digit_char(n % 10))
    }
}

/// Reads a sequence of decimal digits back as a number.
pub open spec fn decimal_value(s: Seq<char>) -> int
    decreases s.len(),
{
    if s.len() == 0 {
        0
    } else {
        decimal_value(s.drop_last()) * 10 + digit_value(s.last())
    }
}

/// Reading a rendered candidate back gives the candidate.
pub proof fn lemma_render_decodes(n: nat, width: nat)
    ensures
        decimal_value(render(n, width)) == n,
    decreases n + width,
{
    let s = render(n, width);
    assert(digit_value(digit_char(n % 10)) == n % 10);
    if n < 10 && width <= 1 {
        assert(s.drop_last() =~= Seq::<char>::empty());
        assert(decimal_value(Seq::<char>::empty()) == 0);
        assert(s.last() == digit_char(n));
    } else {
        let w1: nat = if width > 0 { (width - 1) as nat } else { 0 };
        lemma_render_decodes(n / 10, w1);
        assert(s.drop_last() =~= render(n / 10, w1));
        assert(s.last() == digit_char(n % 10));
        assert(decimal_value(s) == decimal_value(render(n / 10, w1)) * 10 + digit_value(s.last()));
    }
}

/// Rendering is injective: two different candidates never share a password.
pub proof fn lemma_render_injective(i: nat, j: nat, width: nat)
    requires
        i != j,
    ensures
        render(i, width) != render(j, width),
{
    lemma_render_decodes(i, width);
    lemma_render_decodes(j, width);
}

/// The decimal digit text for `d`.
fn digit_text(d: u32) -> (r: &'static str)
    requires
        d < 10,
    ensures
        r@ == seq![digit_char(d as nat)],
{
    proof {
        reveal_strlit("0");
        reveal_strlit("1");
        reveal_strlit("2");
        reveal_strlit("3");
        reveal_strlit("4");
        reveal_strlit("5");
        reveal_strlit("6");
        reveal_strlit("7");
        reveal_strlit("8");
        reveal_strlit("9");
    }
    match d {
        0 => "0",
        1 => "1",
        2 => "2",
        3 => "3",
        4 => "4",
        5 => "5",
        6 => "6",
        7 => "7",
        8 => "8",
        _ => "9",
    }
}

/// Renders candidate `num` as a decimal password zero-padded to `width`.
pub fn format_password(num: u32, width: usize) -> (r: String)
    ensures
        r@ == render(num as nat, width as nat),
{
    let mut m: u32 = num;
    let mut rest: usize = width;
    let mut acc = String::new();
    loop
        invariant
            render(num as nat, width as nat) == render(m as nat, rest as nat) + acc@,
        decreases m + rest,
    {
        let d = m % 10;
        let next = String::from_str(digit_text(d)).concat(acc.as_str());
        if m < 10 && rest <= 1 {
            assert(next@ =~= render(m as nat, rest as nat) + acc@);
            return next;
        }
        proof {
            let w1: nat = if rest > 0 { (rest - 1) as nat } else { 0 };
            assert(render(m as nat, rest as nat) == render((m / 10) as nat, w1).push(digit_char((m % 10) as nat)));
            assert(render(m as nat, rest as nat) + acc@ =~= render((m / 10) as nat, w1) + next@);
        }
        acc = next;
        m = m / 10;
        if rest > 0 {
            rest = rest - 1;
        }
    }
}

/// The number of decimal digits of `n`.
pub open spec fn num_digits(n: nat) -> nat
    decreases n,
{
    if n < 10 {
        1
    } else {
        1 + num_digits(n / 10)
    }
}

/// The password width for a keyspace of `upper_bound` candidates: the number
/// of digits of the largest candidate.
pub open spec fn width_for(upper_bound: nat) -> nat {
    if upper_bound == 0 {
        1
    } else {
        num_digits((upper_bound - 1) as nat)
    }
}

/// A rendered candidate is as long as the wider of `width` and its own digits.
pub proof fn lemma_render_len(n: nat, width: nat)
    ensures
        render(n, width).len() == if width > num_digits(n) { width } else { num_digits(n) },
    decreases n + width,
{
    if !(n < 10 && width <= 1) {
        let w1: nat = if width > 0 { (width - 1) as nat } else { 0 };
        lemma_render_len(n / 10, w1);
        assert(num_digits(0) == 1);
    }
}

/// A smaller number never has more digits.
pub proof fn lemma_num_digits_monotone(a: nat, b: nat)
    requires
        a <= b,
    ensures
        num_digits(a) <= num_digits(b),
    decreases b,
{
    if a >= 10 {
        lemma_num_digits_monotone(a / 10, b / 10);
    }
}

/// Every candidate of a keyspace renders to exactly the keyspace's width.
pub proof fn lemma_width_fixed(upper_bound: nat, n: nat)
    requires
        n < upper_bound,
    ensures
        render(n, width_for(upper_bound)).len() == width_for(upper_bound),
{
    lemma_num_digits_monotone(n, (upper_bound - 1) as nat);
    lemma_render_len(n, width_for(upper_bound));
}

/// The password width for a keyspace of `upper_bound` candidates.
pub fn digit_width(upper_bound: u32) -> (r: usize)
    ensures
        r == width_for(upper_bound as nat),
        forall|n: nat| n < upper_bound ==> (#[trigger] render(n, r as nat)).len() == r,
{
    let top: u32 = if upper_bound == 0 { 0 } else { upper_bound - 1 };
    let mut m: u32 = top;
    let mut count: usize = 1;
    while m >= 10
        invariant
            width_for(upper_bound as nat) == count - 1 + num_digits(m as nat),
            m <= top,
            1 <= count,
            9 * count <= 9 + top - m,
        decreases m,
    {
        m = m / 10;
        count = count + 1;
    }
    proof {
        assert forall|n: nat| n < upper_bound implies (#[trigger] render(n, count as nat)).len() == count by {
            lemma_width_fixed(upper_bound as nat, n);
        }
    }
    count
}

/// A half-open interval `[start, end)` of candidate indices.
#[derive(Clone, Copy, Debug, PartialEq, Eq, Structural)]
pub struct CandidateRange {
    pub start: u32,
    pub end: u32,
}

/// The length of each chunk: `upper_bound / worker_count`, rounded up.
pub open spec fn chunk_len(upper_bound: nat, worker_count: nat) -> nat
    recommends
        worker_count >= 1,
{
    ((upper_bound + worker_count - 1) / (worker_count as int)) as nat
}

/// The `i`-th boundary of the partition: `i` chunks in, clamped to the bound.
pub open spec fn boundary(upper_bound: nat, worker_count: nat, i: nat) -> nat {
    let b = i * chunk_len(upper_bound, worker_count);
    if b < upper_bound {
        b
    } else {
        upper_bound
    }
}

/// The number of ranges a partition produces: one empty range for an empty
/// keyspace, else one per worker.
pub open spec fn range_count(upper_bound: nat, worker_count: nat) -> nat {
    if upper_bound == 0 {
        1
    } else {
        worker_count
    }
}

/// The ranges of the partition of `[0, upper_bound)` among `worker_count` workers.
pub open spec fn partition_ranges(upper_bound: nat, worker_count: nat) -> Seq<CandidateRange> {
    Seq::new(
        range_count(upper_bound, worker_count),
        |i: int|
            CandidateRange {
                start: boundary(upper_bound, worker_count, i as nat) as u32,
                end: boundary(upper_bound, worker_count, (i + 1) as nat) as u32,
            },
    )
}

/// `ranges` splits `[0, upper_bound)` into contiguous, pairwise disjoint
/// ranges whose union is the whole keyspace.
pub open spec fn is_partition(ranges: Seq<CandidateRange>, upper_bound: nat) -> bool {
    &&& ranges.len() >= 1
    &&& ranges[0].start == 0
    &&& ranges.last().end == upper_bound
    &&& forall|i: int| 0 <= i < ranges.len() ==> #[trigger] ranges[i].start <= ranges[i].end
    &&& forall|i: int| 0 <= i < ranges.len() - 1 ==> #[trigger] ranges[i].end == ranges[i + 1].start
    &&& forall|i: int, j: int|
        0 <= i < j < ranges.len() ==> #[trigger] ranges[i].end <= #[trigger] ranges[j].start
    &&& forall|n: nat| n < upper_bound ==> #[trigger] covered(ranges, n)
}

/// Some range of `ranges` holds candidate `n`.
pub open spec fn covered(ranges: Seq<CandidateRange>, n: nat) -> bool {
    exists|i: int| 0 <= i < ranges.len() && #[trigger] ranges[i].start <= n < ranges[i].end
}

proof fn lemma_chunk_bounds(upper_bound: nat, worker_count: nat)
    requires
        worker_count >= 1,
    ensures
        worker_count * chunk_len(upper_bound, worker_count) >= upper_bound,
        chunk_len(upper_bound, worker_count) <= upper_bound,
        upper_bound >= 1 ==> chunk_len(upper_bound, worker_count) >= 1,
{
    let c = chunk_len(upper_bound, worker_count);
    let t = (upper_bound + worker_count - 1) as int;
    lemma_fundamental_div_mod(t, worker_count as int);
    assert(t == worker_count * (t / worker_count as int) + t % (worker_count as int));
    assert(worker_count * c >= upper_bound) by (nonlinear_arith)
        requires
            t == worker_count * c + t % (worker_count as int),
            t % (worker_count as int) < worker_count,
            t == upper_bound + worker_count - 1,
    ;
    if upper_bound >= 1 {
        assert(c >= 1) by (nonlinear_arith)
            requires
                worker_count * c >= upper_bound,
                upper_bound >= 1,
        ;
    }
    assert(c <= upper_bound) by (nonlinear_arith)
        requires
            t == worker_count * c + t % (worker_count as int),
            t % (worker_count as int) >= 0,
            t == upper_bound + worker_count - 1,
            worker_count >= 1,
    ;
}

proof fn lemma_boundary_monotone(upper_bound: nat, worker_count: nat, i: nat, j: nat)
    requires
        i <= j,
    ensures
        boundary(upper_bound, worker_count, i) <= boundary(upper_bound, worker_count, j),
{
    lemma_mul_inequality(i as int, j as int, chunk_len(upper_bound, worker_count) as int);
}

/// The boundaries `0, 1, ..., count` of a partition form a partition of the keyspace.
proof fn lemma_boundaries_partition(ranges: Seq<CandidateRange>, upper_bound: nat, worker_count: nat)
    requires
        worker_count >= 1,
        ranges.len() == range_count(upper_bound, worker_count),
        forall|i: int|
            0 <= i < ranges.len() ==> (#[trigger] ranges[i]).start == boundary(upper_bound, worker_count, i as nat)
                && ranges[i].end == boundary(upper_bound, worker_count, (i + 1) as nat),
    ensures
        is_partition(ranges, upper_bound),
{
    let c = chunk_len(upper_bound, worker_count);
    lemma_chunk_bounds(upper_bound, worker_count);
    let last = ranges.len() - 1;
    assert(ranges[last].end == boundary(upper_bound, worker_count, ranges.len()));
    if upper_bound > 0 {
        assert(ranges.len() * c >= upper_bound);
    }
    assert(ranges[0].start == boundary(upper_bound, worker_count, 0));
    assert forall|i: int| 0 <= i < ranges.len() implies #[trigger] ranges[i].start <= ranges[i].end by {
        lemma_boundary_monotone(upper_bound, worker_count, i as nat, (i + 1) as nat);
    }
    assert forall|i: int| 0 <= i < ranges.len() - 1 implies #[trigger] ranges[i].end == ranges[i + 1].start by {
        assert(ranges[i + 1].start == boundary(upper_bound, worker_count, (i + 1) as nat));
    }
    assert forall|i: int, j: int| 0 <= i < j < ranges.len() implies #[trigger] ranges[i].end
        <= #[trigger] ranges[j].start by {
        lemma_boundary_monotone(upper_bound, worker_count, (i + 1) as nat, j as nat);
    }
    assert forall|n: nat| n < upper_bound implies #[trigger] covered(ranges, n) by {
        let k = n / c;
        lemma_fundamental_div_mod(n as int, c as int);
        assert(k * c <= n < (k + 1) * c) by (nonlinear_arith)
            requires
                n as int == (c as int) * (k as int) + (n as int) % (c as int),
                0 <= (n as int) % (c as int) < c,
        ;
        if k >= ranges.len() {
            lemma_mul_inequality(ranges.len() as int, k as int, c as int);
        }
        assert(k < ranges.len());
        assert(ranges[k as int].start <= n < ranges[k as int].end);
    }
}

/// Splits `[0, upper_bound)` into `worker_count` contiguous chunks of
/// `ceil(upper_bound / worker_count)` candidates, the last ones shorter (or
/// empty) where the division is not exact. An empty keyspace gives one empty
/// range.
pub fn partition(upper_bound: u32, worker_count: u32) -> (r: Vec<CandidateRange>)
    requires
        worker_count >= 1,
    ensures
        r@ == partition_ranges(upper_bound as nat, worker_count as nat),
        is_partition(r@, upper_bound as nat),
{
    let mut r: Vec<CandidateRange> = Vec::new();
    if upper_bound == 0 {
        r.push(CandidateRange { start: 0, end: 0 });
        proof {
            lemma_partition_ranges(0, worker_count as nat);
            assert(r@ =~= partition_ranges(0, worker_count as nat));
        }
        return r;
    }
    let ub = upper_bound as u64;
    let wc = worker_count as u64;
    let chunk: u64 = (ub + wc - 1) / wc;
    proof {
        lemma_chunk_bounds(upper_bound as nat, worker_count as nat);
    }
    let mut i: u64 = 0;
    while i < wc
        invariant
            chunk == chunk_len(upper_bound as nat, worker_count as nat),
            chunk <= ub,
            ub == upper_bound,
            wc == worker_count,
            i <= wc,
            r.len() == i,
            forall|k: int|
                0 <= k < r.len() ==> (#[trigger] r[k]).start == boundary(upper_bound as nat, worker_count as nat, k as nat)
                    && r[k].end == boundary(upper_bound as nat, worker_count as nat, (k + 1) as nat),
        decreases wc - i,
    {
        proof {
            lemma_mul_inequality((i + 1) as int, wc as int, chunk as int);
            lemma_mul_inequality(chunk as int, ub as int, wc as int);
            vstd::arithmetic::mul::lemma_mul_is_commutative(chunk as int, wc as int);
            lemma_mul_inequality(i as int, (i + 1) as int, chunk as int);
            assert((ub as int) * (wc as int) <= 0xffff_ffffint * 0xffff_ffffint) by (nonlinear_arith)
                requires
                    ub <= 0xffff_ffff,
                    wc <= 0xffff_ffff,
            ;
        }
        let lo = i * chunk;
        let hi = (i + 1) * chunk;
        let start: u32 = if lo < ub { lo as u32 } else { upper_bound };
        let end: u32 = if hi < ub { hi as u32 } else { upper_bound };
        r.push(CandidateRange { start, end });
        i = i + 1;
    }
    proof {
        lemma_partition_ranges(upper_bound as nat, worker_count as nat);
        assert(r@ =~= partition_ranges(upper_bound as nat, worker_count as nat));
    }
    r
}

/// The partition of a keyspace of at most `u32::MAX` candidates is a
/// partition: contiguous, disjoint, no range outside the keyspace, and
/// together they cover it.
pub proof fn lemma_partition_ranges(upper_bound: nat, worker_count: nat)
    requires
        worker_count >= 1,
        upper_bound <= u32::MAX,
    ensures
        is_partition(partition_ranges(upper_bound, worker_count), upper_bound),
        forall|i: int|
            0 <= i < range_count(upper_bound, worker_count) ==> (#[trigger] partition_ranges(
                upper_bound,
                worker_count,
            )[i]).end <= upper_bound,
{
    let ranges = partition_ranges(upper_bound, worker_count);
    assert forall|i: int| 0 <= i < ranges.len() implies (#[trigger] ranges[i]).start == boundary(
        upper_bound,
        worker_count,
        i as nat,
    ) && ranges[i].end == boundary(upper_bound, worker_count, (i + 1) as nat) by {
        assert(boundary(upper_bound, worker_count, i as nat) <= upper_bound);
        assert(boundary(upper_bound, worker_count, (i + 1) as nat) <= upper_bound);
    }
    lemma_boundaries_partition(ranges, upper_bound, worker_count);
}

} // verus!
