use vstd::prelude::*;

verus! {

/// Largest integer that `f32` holds exactly together with all smaller ones.
pub open spec fn f32_exact_limit() -> int {
    16777216
}

/// Sum of the first `n` portions.
pub open spec fn prefix_sum(portions: Seq<u8>, n: int) -> int
    decreases n,
{
    if n <= 0 {
        0
    } else {
        prefix_sum(portions, n - 1) + portions[n - 1]
    }
}

/// Sum of all portions.
pub open spec fn portion_total(portions: Seq<u8>) -> int {
    prefix_sum(portions, portions.len() as int)
}

/// Outputs given per unit of portion: `output_count` divided by the total of
/// the portions, rounded up (0 when there are no portions to share).
pub open spec fn share_per_portion(portions: Seq<u8>, output_count: int) -> int {
    let total = portion_total(portions);
    if total == 0 {
        0
    } else {
        (output_count + total - 1) / total
    }
}

/// `count` read as an unsigned 32-bit number, as a cast to `u32` does.
pub open spec fn count_as_u32(count: i32) -> int {
    if count >= 0 {
        count as int
    } else {
        count + 4294967296
    }
}

/// Outputs assigned to processors `0..i+1` together.
pub open spec fn outputs_through(portions: Seq<u8>, output_count: int, i: int) -> int {
    share_per_portion(portions, output_count) * prefix_sum(portions, i + 1)
}

/// The first processor, from `i` on, whose cumulative share reaches
/// `threshold`; the number of processors when none does.
pub open spec fn first_cpu_reaching(portions: Seq<u8>, output_count: int, threshold: int, i: int) -> int
    decreases portions.len() - i,
{
    if i >= portions.len() || i < 0 {
        portions.len() as int
    } else if outputs_through(portions, output_count, i) >= threshold {
        i
    } else {
        first_cpu_reaching(portions, output_count, threshold, i + 1)
    }
}

/// The processor that computes output number `count` when `output_count`
/// outputs are shared among processors in proportion to `portions`.
pub open spec fn spec_which_cpu(portions: Seq<u8>, count: i32, output_count: u32) -> int {
    first_cpu_reaching(portions, output_count as int, count_as_u32(count), 0)
}

/// The inputs on which `find_which_cpu` neither overflows nor leaves the
/// range on which single precision division is exact.
pub open spec fn which_cpu_defined(portions: Seq<u8>, count: i32, output_count: u32) -> bool {
    &&& output_count < f32_exact_limit()
    &&& portion_total(portions) < f32_exact_limit()
    &&& spec_which_cpu(portions, count, output_count) <= 255
    &&& forall|i: int|
        0 <= i < portions.len() && i <= spec_which_cpu(portions, count, output_count)
            ==> #[trigger] outputs_through(portions, output_count as int, i) <= u32::MAX
}

proof fn lemma_prefix_sum_monotone(portions: Seq<u8>, i: int, j: int)
    requires
        0 <= i <= j,
    ensures
        prefix_sum(portions, i) <= prefix_sum(portions, j),
    decreases j - i,
{
    if i < j {
        lemma_prefix_sum_monotone(portions, i, j - 1);
    }
}

proof fn lemma_first_cpu_bounds(portions: Seq<u8>, output_count: int, threshold: int, i: int)
    requires
        0 <= i <= portions.len(),
    ensures
        i <= first_cpu_reaching(portions, output_count, threshold, i) <= portions.len(),
    decreases portions.len() - i,
{
    if i < portions.len() && outputs_through(portions, output_count, i) < threshold {
        lemma_first_cpu_bounds(portions, output_count, threshold, i + 1);
    }
}

/// The processor number is never negative.
pub proof fn lemma_which_cpu_nonnegative(portions: Seq<u8>, count: i32, output_count: u32)
    ensures
        0 <= spec_which_cpu(portions, count, output_count) <= portions.len(),
{
    lemma_first_cpu_bounds(portions, output_count as int, count_as_u32(count), 0);
}

/// Which processor computes output number `count` when `output_count`
/// outputs are shared among `portions.len()` processors in proportion to
/// `portions`: each portion unit takes `output_count / total` outputs rounded
/// up, and the processor is the first whose cumulative share reaches `count`
/// (read as unsigned).  The share is computed exactly in integers; this is
/// the value the single precision expression gives on the inputs admitted.
pub fn find_which_cpu(portions: &Vec<u8>, count: i32, output_count: u32) -> (r: u8)
    requires
        which_cpu_defined(portions@, count, output_count),
    ensures
        r == spec_which_cpu(portions@, count, output_count),
{
    let n = portions.len();
    let mut total: u32 = 0;
    let mut t: usize = 0;
    while t < n
        invariant
            t <= n == portions@.len(),
            total == prefix_sum(portions@, t as int),
            portion_total(portions@) < f32_exact_limit(),
        decreases n - t,
    {
        proof {
            lemma_prefix_sum_monotone(portions@, t as int + 1, n as int);
        }
        total = total + portions[t] as u32;
        t = t + 1;
    }
    let per: u32 = if total == 0 {
        0
    } else {
        (output_count + total - 1) / total
    };
    assert(per == share_per_portion(portions@, output_count as int));
    let threshold: u32 = if count >= 0 {
        count as u32
    } else {
        (count as i64 + 4294967296i64) as u32
    };
    let mut which_cpu: u8 = 0;
    let mut acc: u32 = 0;
    let mut i: usize = 0;
    proof {
        lemma_first_cpu_bounds(portions@, output_count as int, threshold as int, 0);
    }
    while i < n
        invariant_except_break
            i <= n == portions@.len(),
            which_cpu == i,
            acc == per * prefix_sum(portions@, i as int),
            spec_which_cpu(portions@, count, output_count)
                == first_cpu_reaching(portions@, output_count as int, threshold as int, i as int),
        invariant
            per == share_per_portion(portions@, output_count as int),
            threshold == count_as_u32(count),
            which_cpu_defined(portions@, count, output_count),
        ensures
            which_cpu == spec_which_cpu(portions@, count, output_count),
        decreases n - i,
    {
        proof {
            lemma_first_cpu_bounds(portions@, output_count as int, threshold as int, i as int);
            assert(outputs_through(portions@, output_count as int, i as int) <= u32::MAX);
            assert(per * prefix_sum(portions@, i as int + 1) == per * prefix_sum(portions@, i as int)
                + per * portions@[i as int]) by (nonlinear_arith)
                requires
                    prefix_sum(portions@, i as int + 1) == prefix_sum(portions@, i as int)
                        + portions@[i as int],
            ;
            assert(0 <= per * portions@[i as int]) by (nonlinear_arith)
                requires
                    0 <= per,
                    0 <= portions@[i as int],
            ;
            lemma_prefix_sum_monotone(portions@, 0, i as int);
            assert(0 <= per * prefix_sum(portions@, i as int)) by (nonlinear_arith)
                requires
                    0 <= per,
                    0 <= prefix_sum(portions@, i as int),
            ;
        }
        acc = acc + per * (portions[i] as u32);
        if acc >= threshold {
            break;
        }
        proof {
            lemma_first_cpu_bounds(portions@, output_count as int, threshold as int, i as int + 1);
        }
        which_cpu = which_cpu + 1;
        i = i + 1;
    }
    which_cpu
}


proof fn lemma_outputs_through_monotone(portions: Seq<u8>, output_count: int, i: int, j: int)
    requires
        -1 <= i <= j,
        output_count >= 0,
    ensures
        0 <= outputs_through(portions, output_count, i) <= outputs_through(portions, output_count, j),
{
    let per = share_per_portion(portions, output_count);
    let total = portion_total(portions);
    assert(per >= 0) by {
        if total != 0 {
            lemma_prefix_sum_monotone(portions, 0, portions.len() as int);
            assert((output_count + total - 1) / total >= 0) by (nonlinear_arith)
                requires
                    output_count >= 0,
                    total > 0,
            ;
        }
    }
    lemma_prefix_sum_monotone(portions, 0, i + 1);
    lemma_prefix_sum_monotone(portions, i + 1, j + 1);
    let a = prefix_sum(portions, i + 1);
    let b = prefix_sum(portions, j + 1);
    assert(0 <= per * a <= per * b) by (nonlinear_arith)
        requires
            per >= 0,
            0 <= a <= b,
    ;
}

proof fn lemma_first_cpu_monotone(portions: Seq<u8>, output_count: int, t1: int, t2: int, i: int)
    requires
        0 <= i <= portions.len(),
        t1 <= t2,
        output_count >= 0,
    ensures
        first_cpu_reaching(portions, output_count, t1, i) <= first_cpu_reaching(portions, output_count, t2, i),
    decreases portions.len() - i,
{
    lemma_first_cpu_bounds(portions, output_count, t1, i);
    lemma_first_cpu_bounds(portions, output_count, t2, i);
    if i < portions.len() && outputs_through(portions, output_count, i) < t2 {
        lemma_first_cpu_monotone(portions, output_count, t1, t2, i + 1);
    }
}

/// Outputs are dealt out in order: a later output (by number) never goes to
/// an earlier processor than an earlier output does.
pub proof fn lemma_which_cpu_monotone(portions: Seq<u8>, c1: i32, c2: i32, output_count: u32)
    requires
        0 <= c1 <= c2,
    ensures
        spec_which_cpu(portions, c1, output_count) <= spec_which_cpu(portions, c2, output_count),
{
    lemma_first_cpu_monotone(portions, output_count as int, c1 as int, c2 as int, 0);
}

proof fn lemma_share_covers(portions: Seq<u8>, output_count: int)
    requires
        portion_total(portions) > 0,
        output_count >= 0,
    ensures
        share_per_portion(portions, output_count) * portion_total(portions) >= output_count,
{
    let total = portion_total(portions);
    let per = (output_count + total - 1) / total;
    assert(per * total >= output_count) by (nonlinear_arith)
        requires
            total > 0,
            output_count >= 0,
            per == (output_count + total - 1) / total,
    ;
}

proof fn lemma_first_cpu_found(portions: Seq<u8>, output_count: int, t: int, i: int)
    requires
        0 <= i < portions.len(),
        outputs_through(portions, output_count, portions.len() - 1) >= t,
        output_count >= 0,
    ensures
        first_cpu_reaching(portions, output_count, t, i) < portions.len(),
    decreases portions.len() - i,
{
    if outputs_through(portions, output_count, i) < t {
        lemma_first_cpu_found(portions, output_count, t, i + 1);
    }
}

/// Every output gets a processor: when the portions are not all zero, each
/// output number from 0 to `output_count` goes to one of the processors.
pub proof fn lemma_which_cpu_in_range(portions: Seq<u8>, count: i32, output_count: u32)
    requires
        portion_total(portions) > 0,
        0 <= count <= output_count,
    ensures
        spec_which_cpu(portions, count, output_count) < portions.len(),
{
    lemma_share_covers(portions, output_count as int);
    assert(portions.len() > 0);
    assert(prefix_sum(portions, portions.len() as int) == portion_total(portions));
    lemma_first_cpu_found(portions, output_count as int, count as int, 0);
}

proof fn lemma_first_cpu_exact(portions: Seq<u8>, output_count: int, t: int, i: int, c: int)
    requires
        0 <= i <= c < portions.len(),
        output_count >= 0,
        i == 0 || outputs_through(portions, output_count, i - 1) < t,
    ensures
        (first_cpu_reaching(portions, output_count, t, i) == c) <==> (t <= outputs_through(
            portions,
            output_count,
            c,
        ) && (c == 0 || outputs_through(portions, output_count, c - 1) < t)),
    decreases portions.len() - i,
{
    lemma_first_cpu_bounds(portions, output_count, t, i);
    if outputs_through(portions, output_count, i) >= t {
        if c > i {
            lemma_outputs_through_monotone(portions, output_count, i, c - 1);
        }
    } else {
        if i < c {
            lemma_first_cpu_exact(portions, output_count, t, i + 1, c);
        } else {
            lemma_first_cpu_bounds(portions, output_count, t, i + 1);
        }
    }
}

/// Processor `cpu` computes exactly the outputs whose number lies above
/// the shares of the processors before it and within its own cumulative
/// share.
pub proof fn lemma_which_cpu_share(portions: Seq<u8>, count: i32, output_count: u32, cpu: int)
    requires
        0 <= cpu < portions.len(),
        count >= 0,
    ensures
        (spec_which_cpu(portions, count, output_count) == cpu) <==> (count <= outputs_through(
            portions,
            output_count as int,
            cpu,
        ) && (cpu == 0 || outputs_through(portions, output_count as int, cpu - 1) < count)),
{
    lemma_first_cpu_exact(portions, output_count as int, count as int, 0, cpu);
}

proof fn lemma_first_cpu_at_most(portions: Seq<u8>, output_count: int, t: int, i: int, c: int)
    requires
        0 <= i <= c < portions.len(),
        outputs_through(portions, output_count, c) >= t,
    ensures
        first_cpu_reaching(portions, output_count, t, i) <= c,
    decreases c - i,
{
    if i < c && outputs_through(portions, output_count, i) < t {
        lemma_first_cpu_at_most(portions, output_count, t, i + 1, c);
    }
}

/// The first output always goes to the first processor.
pub proof fn lemma_which_cpu_first(portions: Seq<u8>, output_count: u32)
    ensures
        spec_which_cpu(portions, 0, output_count) == 0,
{
    if portions.len() > 0 {
        lemma_outputs_through_monotone(portions, output_count as int, -1, 0);
    }
}

/// With every portion non-zero and at least one output, consecutive outputs
/// move on by at most one processor: no processor is skipped.
pub proof fn lemma_which_cpu_steps_by_one(portions: Seq<u8>, count: i32, output_count: u32)
    requires
        forall|i: int| 0 <= i < portions.len() ==> #[trigger] portions[i] > 0,
        output_count >= 1,
        1 <= count,
    ensures
        spec_which_cpu(portions, count, output_count) <= spec_which_cpu(portions, (count - 1) as i32, output_count) + 1,
{
    let oc = output_count as int;
    let c = spec_which_cpu(portions, (count - 1) as i32, output_count);
    lemma_which_cpu_nonnegative(portions, (count - 1) as i32, output_count);
    lemma_which_cpu_nonnegative(portions, count, output_count);
    if c + 1 < portions.len() {
        lemma_first_cpu_bounds(portions, oc, count - 1, 0);
        assert(outputs_through(portions, oc, c) >= count - 1) by {
            lemma_first_cpu_exact(portions, oc, count - 1, 0, c);
        }
        let total = portion_total(portions);
        lemma_prefix_sum_monotone(portions, 1, portions.len() as int);
        assert(prefix_sum(portions, 0) == 0);
        assert(prefix_sum(portions, 1) == portions[0]);
        let per = share_per_portion(portions, oc);
        assert(per >= 1) by {
            assert(total >= 1);
            assert((oc + total - 1) / total >= 1) by (nonlinear_arith)
                requires
                    oc >= 1,
                    total >= 1,
            ;
        }
        let a = prefix_sum(portions, c + 1);
        assert(prefix_sum(portions, c + 2) == a + portions[c + 1]);
        assert(per * (a + portions[c + 1]) >= per * a + 1) by (nonlinear_arith)
            requires
                per >= 1,
                portions[c + 1] >= 1,
        ;
        lemma_first_cpu_at_most(portions, oc, count as int, 0, c + 1);
    }
}

/// `find_which_cpu` is defined for every output number up to the output
/// count when there are at most 255 processors, the portions are not all
/// zero, and the output count and the portion total are below 2^24.
pub proof fn lemma_which_cpu_defined_for_outputs(portions: Seq<u8>, count: i32, output_count: u32)
    requires
        portions.len() <= 255,
        0 < portion_total(portions) < f32_exact_limit(),
        output_count < f32_exact_limit(),
        0 <= count <= output_count,
    ensures
        which_cpu_defined(portions, count, output_count),
        spec_which_cpu(portions, count, output_count) < portions.len(),
{
    lemma_which_cpu_in_range(portions, count, output_count);
    let oc = output_count as int;
    let total = portion_total(portions);
    let per = share_per_portion(portions, oc);
    assert(0 <= per * total <= oc + total) by {
        assert(per == (oc + total - 1) / total);
        assert(0 <= per * total <= oc + total) by (nonlinear_arith)
            requires
                per == (oc + total - 1) / total,
                total >= 1,
                oc >= 0,
        ;
    }
    assert forall|i: int|
        0 <= i < portions.len() && i <= spec_which_cpu(portions, count, output_count) implies #[trigger] outputs_through(
        portions,
        oc,
        i,
    ) <= u32::MAX by {
        lemma_prefix_sum_monotone(portions, 0, i + 1);
        lemma_prefix_sum_monotone(portions, i + 1, portions.len() as int);
        let a = prefix_sum(portions, i + 1);
        assert(per >= 0) by {
            assert((oc + total - 1) / total >= 0) by (nonlinear_arith)
                requires
                    oc >= 0,
                    total >= 1,
            ;
        }
        assert(per * a <= per * total) by (nonlinear_arith)
            requires
                per >= 0,
                0 <= a <= total,
        ;
    }
}

} // verus!
