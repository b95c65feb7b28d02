use vstd::prelude::*;

verus! {

/// The sum of a vector of small counters.
pub open spec fn seq_total(v: Seq<u8>) -> int
    decreases v.len(),
{
    if v.len() == 0 {
        0
    } else {
        v[0] + seq_total(v.drop_first())
    }
}

/// `v` is one of the vectors that `out` holds.
pub open spec fn holds(out: Seq<Vec<u8>>, v: Seq<u8>) -> bool {
    exists|m: int| 0 <= m < out.len() && out[m]@ == v
}

/// No vector occurs twice in `out`.
pub open spec fn distinct(out: Seq<Vec<u8>>) -> bool {
    forall|a: int, b: int| 0 <= a < b < out.len() ==> out[a]@ != out[b]@
}

/// `v` has `k` parts whose sum is below `n`.
pub open spec fn is_composition(v: Seq<u8>, n: int, k: int) -> bool {
    v.len() == k && seq_total(v) < n
}

/// `v` is a budget vector within `cap` whose entries sum to `k`.
pub open spec fn in_class(cap: Seq<u8>, v: Seq<u8>, k: int) -> bool {
    &&& v.len() == cap.len()
    &&& forall|i: int| 0 <= i < v.len() ==> #[trigger] v[i] <= cap[i]
    &&& seq_total(v) == k
}

/// A sum of counters is between 0 and 255 per counter.
pub proof fn lemma_total_nonneg(v: Seq<u8>)
    ensures
        0 <= seq_total(v) <= 255 * v.len(),
    decreases v.len(),
{
    if v.len() > 0 {
        lemma_total_nonneg(v.drop_first());
    }
}

/// Changing one entry changes the sum by the difference.
pub proof fn lemma_total_update(v: Seq<u8>, i: int, x: u8)
    requires
        0 <= i < v.len(),
    ensures
        seq_total(v.update(i, x)) == seq_total(v) - v[i] + x,
    decreases v.len(),
{
    if i == 0 {
        assert(v.update(i, x).drop_first() =~= v.drop_first());
    } else {
        lemma_total_update(v.drop_first(), i - 1, x);
        assert(v.update(i, x).drop_first() =~= v.drop_first().update(i - 1, x));
    }
}

/// A vector with a positive sum has a positive entry.
proof fn lemma_total_positive(v: Seq<u8>) -> (i: int)
    requires
        seq_total(v) > 0,
    ensures
        0 <= i < v.len(),
        v[i] > 0,
    decreases v.len(),
{
    if v[0] > 0 {
        0
    } else {
        let j = lemma_total_positive(v.drop_first());
        j + 1
    }
}

/// A suffix sum splits off its first counter.
proof fn lemma_total_suffix(v: Seq<u8>, i: int)
    requires
        0 <= i < v.len(),
    ensures
        seq_total(v.subrange(i, v.len() as int)) == v[i] + seq_total(
            v.subrange(i + 1, v.len() as int),
        ),
{
    assert(v.subrange(i, v.len() as int).drop_first() =~= v.subrange(i + 1, v.len() as int));
}

/// The sum of the counters of `v`.
pub fn vec_total(v: &Vec<u8>) -> (r: u64)
    requires
        v@.len() <= 0x1_0000,
    ensures
        r as int == seq_total(v@),
{
    let mut sum: u64 = 0;
    let mut i: usize = v.len();
    while i > 0
        invariant
            i <= v@.len() <= 0x1_0000,
            sum as int == seq_total(v@.subrange(i as int, v@.len() as int)),
            sum <= 255 * (v@.len() - i),
        decreases i,
    {
        proof {
            lemma_total_suffix(v@, i - 1);
        }
        sum = sum + v[i - 1] as u64;
        i = i - 1;
    }
    assert(v@.subrange(0, v@.len() as int) =~= v@);
    sum
}

/// Two vectors are equal, element by element.
fn same_vec(a: &Vec<u8>, b: &Vec<u8>) -> (r: bool)
    ensures
        r == (a@ == b@),
{
    if a.len() != b.len() {
        return false;
    }
    let mut i: usize = 0;
    while i < a.len()
        invariant
            a@.len() == b@.len(),
            i <= a@.len(),
            forall|j: int| 0 <= j < i ==> a@[j] == b@[j],
        decreases a@.len() - i,
    {
        if a[i] != b[i] {
            return false;
        }
        i = i + 1;
    }
    assert(a@ =~= b@);
    true
}

/// `out` holds a vector equal to `v`.
fn contains_vec(out: &Vec<Vec<u8>>, v: &Vec<u8>) -> (r: bool)
    ensures
        r == holds(out@, v@),
{
    let mut m: usize = 0;
    while m < out.len()
        invariant
            m <= out@.len(),
            forall|j: int| 0 <= j < m ==> out@[j]@ != v@,
        decreases out@.len() - m,
    {
        if same_vec(&out[m], v) {
            return true;
        }
        m = m + 1;
    }
    false
}

/// Weak compositions: every vector of `k` counters whose sum is below `n` (for `k == 0`, the
/// one empty vector).
pub fn compositions(n: u8, k: usize) -> (r: Vec<Vec<u8>>)
    requires
        k <= 0x1_0000,
    ensures
        k == 0 ==> r@.len() == 1 && r@[0]@.len() == 0,
        k > 0 ==> forall|v: Seq<u8>| #[trigger] holds(r@, v) <==> is_composition(v, n as int, k as int),
        k > 0 ==> distinct(r@),
    decreases k,
{
    if k == 0 {
        let mut out: Vec<Vec<u8>> = Vec::new();
        out.push(Vec::new());
        return out;
    }
    let tails = compositions(n, k - 1);
    let mut output: Vec<Vec<u8>> = Vec::new();
    let mut t: usize = 0;
    while t < tails.len()
        invariant
            0 < k <= 0x1_0000,
            t <= tails@.len(),
            k - 1 == 0 ==> tails@.len() == 1 && tails@[0]@.len() == 0,
            k - 1 > 0 ==> forall|v: Seq<u8>| #[trigger] holds(tails@, v) <==> is_composition(v, n as int, k - 1),
            k - 1 > 0 ==> distinct(tails@),
            forall|m: int| 0 <= m < output@.len() ==> is_composition(#[trigger] output@[m]@, n as int, k as int),
            forall|m: int| 0 <= m < output@.len() ==> exists|j: int| 0 <= j < t && (#[trigger] output@[m]@).drop_first() == tails@[j]@,
            distinct(output@),
            forall|j: int, x: u8| 0 <= j < t && x + seq_total(tails@[j]@) < n ==> #[trigger] holds(output@, seq![x] + tails@[j]@),
        decreases tails@.len() - t,
    {
        let tail = &tails[t];
        assert(holds(tails@, tail@));
        proof {
            lemma_total_nonneg(tail@);
            if k - 1 == 0 {
                assert(seq_total(tail@) == 0);
            }
        }
        let tail_sum = vec_total(tail);
        let cap: u8 = n - tail_sum as u8;
        let mut x: u8 = 0;
        while x < cap
            invariant
                0 < k <= 0x1_0000,
                t < tails@.len(),
                tail == tails@[t as int],
                tail_sum as int == seq_total(tail@),
                tail_sum <= n,
                tail@.len() == k - 1,
                cap as int == n - tail_sum,
                x <= cap,
                k - 1 == 0 ==> tails@.len() == 1 && tails@[0]@.len() == 0,
                k - 1 > 0 ==> forall|v: Seq<u8>| #[trigger] holds(tails@, v) <==> is_composition(v, n as int, k - 1),
                k - 1 > 0 ==> distinct(tails@),
                forall|m: int| 0 <= m < output@.len() ==> is_composition(#[trigger] output@[m]@, n as int, k as int),
                forall|m: int| 0 <= m < output@.len() ==> exists|j: int| 0 <= j <= t && (#[trigger] output@[m]@).drop_first() == tails@[j]@,
                forall|m: int| 0 <= m < output@.len() && (#[trigger] output@[m]@).drop_first() == tail@ ==> output@[m]@[0] < x,
                distinct(output@),
                forall|j: int, y: u8| 0 <= j < t && y + seq_total(tails@[j]@) < n ==> #[trigger] holds(output@, seq![y] + tails@[j]@),
                forall|y: u8| y < x && y + seq_total(tail@) < n ==> #[trigger] holds(output@, seq![y] + tail@),
            decreases cap - x,
        {
            let mut new_tail: Vec<u8> = Vec::new();
            new_tail.push(x);
            let mut i: usize = 0;
            while i < tail.len()
                invariant
                    i <= tail@.len(),
                    new_tail@ == seq![x] + tail@.take(i as int),
                decreases tail@.len() - i,
            {
                new_tail.push(tail[i]);
                i = i + 1;
                assert(new_tail@ =~= seq![x] + tail@.take(i as int));
            }
            assert(tail@.take(tail@.len() as int) =~= tail@);
            assert(new_tail@.drop_first() =~= tail@);
            assert(new_tail@[0] == x);
            {
                let ghost old_out = output@;
                assert(seq_total(new_tail@) == x + seq_total(tail@));
                proof {
                    assert forall|m: int| 0 <= m < old_out.len() implies old_out[m]@ != new_tail@ by {
                        if old_out[m]@ == new_tail@ {
                            assert(old_out[m]@.drop_first() == tail@);
                        }
                    }
                }
                output.push(new_tail);
                proof {
                    assert forall|j: int, y: u8| 0 <= j < t && y + seq_total(tails@[j]@) < n implies #[trigger] holds(output@, seq![y] + tails@[j]@) by {
                        assert(holds(old_out, seq![y] + tails@[j]@));
                        let m = choose|m: int| 0 <= m < old_out.len() && old_out[m]@ == seq![y] + tails@[j]@;
                        assert(output@[m] == old_out[m]);
                    }
                    assert forall|y: u8| y < x + 1 && y + seq_total(tail@) < n implies #[trigger] holds(output@, seq![y] + tail@) by {
                        if y < x {
                            assert(holds(old_out, seq![y] + tail@));
                            let m = choose|m: int| 0 <= m < old_out.len() && old_out[m]@ == seq![y] + tail@;
                            assert(output@[m] == old_out[m]);
                        } else {
                            assert(seq![y] + tail@ =~= output@[old_out.len() as int]@);
                        }
                    }
                    assert forall|m: int| 0 <= m < output@.len() && (#[trigger] output@[m]@).drop_first() == tail@ implies output@[m]@[0] < x + 1 by {
                        if m < old_out.len() {
                            assert(output@[m] == old_out[m]);
                        }
                    }
                    assert forall|m: int| 0 <= m < output@.len() implies exists|j: int| 0 <= j <= t && (#[trigger] output@[m]@).drop_first() == tails@[j]@ by {
                        if m < old_out.len() {
                            assert(output@[m] == old_out[m]);
                        } else {
                            assert(output@[m]@.drop_first() == tails@[t as int]@);
                        }
                    }
                }
            }
            x = x + 1;
        }
        proof {
            assert forall|j: int, y: u8| 0 <= j < t + 1 && y + seq_total(tails@[j]@) < n implies #[trigger] holds(output@, seq![y] + tails@[j]@) by {
                if j == t {
                    assert(y < x || y + seq_total(tail@) >= n);
                }
            }
        }
        t = t + 1;
    }
    proof {
        assert forall|v: Seq<u8>| is_composition(v, n as int, k as int) implies #[trigger] holds(output@, v) by {
            let tail = v.drop_first();
            assert(v =~= seq![v[0]] + tail);
            assert(seq_total(v) == v[0] + seq_total(tail));
            if k - 1 == 0 {
                assert(tail =~= tails@[0]@);
            } else {
                assert(is_composition(tail, n as int, k - 1));
                assert(holds(tails@, tail));
            }
            let j = choose|j: int| 0 <= j < tails@.len() && tails@[j]@ == tail;
            assert(holds(output@, seq![v[0]] + tails@[j]@));
        }
    }
    output
}

/// Every single-use successor of a vector of class `k` lies in class `k - 1`.
pub proof fn lemma_class_successor(cap: Seq<u8>, v: Seq<u8>, k: int, a: int)
    requires
        in_class(cap, v, k),
        0 <= a < v.len(),
        v[a] > 0,
    ensures
        in_class(cap, v.update(a, (v[a] - 1) as u8), k - 1),
{
    lemma_total_update(v, a, (v[a] - 1) as u8);
}

/// The class of `k + 1` from that of `k`: each member with one entry raised within its cap,
/// each result kept once.
fn next_class(cap: &Vec<u8>, prev: &Vec<Vec<u8>>, k: Ghost<int>) -> (out: Vec<Vec<u8>>)
    requires
        k@ >= 0,
        forall|v: Seq<u8>| #[trigger] holds(prev@, v) <==> in_class(cap@, v, k@),
    ensures
        forall|v: Seq<u8>| #[trigger] holds(out@, v) <==> in_class(cap@, v, k@ + 1),
        distinct(out@),
{
    let mut out: Vec<Vec<u8>> = Vec::new();
    let mut j: usize = 0;
    while j < prev.len()
        invariant
            j <= prev@.len(),
            forall|v: Seq<u8>| #[trigger] holds(prev@, v) <==> in_class(cap@, v, k@),
            forall|m: int| 0 <= m < out@.len() ==> in_class(cap@, #[trigger] out@[m]@, k@ + 1),
            distinct(out@),
            forall|jj: int, i: int|
                0 <= jj < j && 0 <= i < cap@.len() && #[trigger] prev@[jj]@[i] < cap@[i] ==> holds(
                    out@,
                    prev@[jj]@.update(i, (prev@[jj]@[i] + 1) as u8),
                ),
        decreases prev@.len() - j,
    {
        let elem = &prev[j];
        assert(holds(prev@, elem@));
        let mut i: usize = 0;
        while i < cap.len()
            invariant
                j < prev@.len(),
                elem == prev@[j as int],
                in_class(cap@, elem@, k@),
                i <= cap@.len(),
                forall|v: Seq<u8>| #[trigger] holds(prev@, v) <==> in_class(cap@, v, k@),
                forall|m: int| 0 <= m < out@.len() ==> in_class(cap@, #[trigger] out@[m]@, k@ + 1),
                distinct(out@),
                forall|jj: int, ii: int|
                    0 <= jj < j && 0 <= ii < cap@.len() && #[trigger] prev@[jj]@[ii] < cap@[ii] ==> holds(
                        out@,
                        prev@[jj]@.update(ii, (prev@[jj]@[ii] + 1) as u8),
                    ),
                forall|ii: int|
                    0 <= ii < i && #[trigger] elem@[ii] < cap@[ii] ==> holds(
                        out@,
                        elem@.update(ii, (elem@[ii] + 1) as u8),
                    ),
            decreases cap@.len() - i,
        {
            if elem[i] < cap[i] {
                let mut new_elem = elem.clone();
                new_elem.set(i, elem[i] + 1);
                proof {
                    lemma_total_update(elem@, i as int, (elem@[i as int] + 1) as u8);
                    assert(new_elem@ == elem@.update(i as int, (elem@[i as int] + 1) as u8));
                }
                if !contains_vec(&out, &new_elem) {
                    let ghost old_out = out@;
                    out.push(new_elem);
                    proof {
                        assert forall|m: int| 0 <= m < out@.len() implies in_class(cap@, #[trigger] out@[m]@, k@ + 1) by {
                            if m < old_out.len() {
                                assert(out@[m] == old_out[m]);
                            }
                        }
                        assert forall|a: int, b: int| 0 <= a < b < out@.len() implies out@[a]@ != out@[b]@ by {
                            if b < old_out.len() {
                                assert(out@[a] == old_out[a] && out@[b] == old_out[b]);
                            } else {
                                assert(out@[a] == old_out[a]);
                            }
                        }
                        assert forall|v: Seq<u8>| holds(old_out, v) implies #[trigger] holds(out@, v) by {
                            let m = choose|m: int| 0 <= m < old_out.len() && old_out[m]@ == v;
                            assert(out@[m] == old_out[m]);
                        }
                        assert(holds(out@, new_elem@)) by {
                            assert(out@[old_out.len() as int]@ == new_elem@);
                        }
                    }
                }
            }
            i = i + 1;
        }
        j = j + 1;
    }
    proof {
        assert forall|v: Seq<u8>| in_class(cap@, v, k@ + 1) implies #[trigger] holds(out@, v) by {
            let a = lemma_total_positive(v);
            lemma_class_successor(cap@, v, k@ + 1, a);
            let u = v.update(a, (v[a] - 1) as u8);
            assert(holds(prev@, u));
            let jj = choose|jj: int| 0 <= jj < prev@.len() && prev@[jj]@ == u;
            assert(prev@[jj]@[a] < cap@[a]);
            assert(u.update(a, (u[a] + 1) as u8) =~= v);
        }
    }
    out
}

/// Budget vectors within `cap`, grouped by their sum: entry `k` holds, once each, every vector
/// whose entries stay within `cap` and sum to `k`, for `k` from 0 to the sum of `cap`.
pub fn ranked_actions(cap: &Vec<u8>) -> (r: Vec<Vec<Vec<u8>>>)
    requires
        cap@.len() <= 0x1_0000,
    ensures
        r@.len() == seq_total(cap@) + 1,
        forall|k: int| 0 <= k < r@.len() ==> distinct(#[trigger] r@[k]@),
        forall|k: int, v: Seq<u8>|
            0 <= k < r@.len() ==> (#[trigger] holds(r@[k]@, v) <==> in_class(cap@, v, k)),
{
    let upper = vec_total(cap);
    proof {
        lemma_total_nonneg(cap@);
    }
    let mut zero: Vec<u8> = Vec::new();
    let mut i: usize = 0;
    while i < cap.len()
        invariant
            i <= cap@.len(),
            zero@ == Seq::new(i as nat, |j: int| 0u8),
        decreases cap@.len() - i,
    {
        zero.push(0);
        i = i + 1;
        assert(zero@ =~= Seq::new(i as nat, |j: int| 0u8));
    }
    let mut first: Vec<Vec<u8>> = Vec::new();
    first.push(zero);
    let mut result: Vec<Vec<Vec<u8>>> = Vec::new();
    result.push(first);
    proof {
        assert forall|v: Seq<u8>| #[trigger] holds(result@[0]@, v) <==> in_class(cap@, v, 0) by {
            if in_class(cap@, v, 0) {
                assert forall|j: int| 0 <= j < v.len() implies v[j] == 0u8 by {
                    if v[j] != 0u8 {
                        lemma_total_update(v, j, 0u8);
                        lemma_total_nonneg(v.update(j, 0u8));
                    }
                }
                assert(v =~= result@[0]@[0]@);
            }
            if holds(result@[0]@, v) {
                lemma_zero_total(v);
            }
        }
    }
    let mut k: u64 = 1;
    while k <= upper
        invariant
            1 <= k <= upper + 1,
            upper as int == seq_total(cap@),
            upper <= 255 * 0x1_0000,
            result@.len() == k,
            forall|kk: int| 0 <= kk < result@.len() ==> distinct(#[trigger] result@[kk]@),
            forall|kk: int, v: Seq<u8>|
                0 <= kk < result@.len() ==> (#[trigger] holds(result@[kk]@, v) <==> in_class(cap@, v, kk)),
        decreases upper + 1 - k,
    {
        let prev = &result[(k - 1) as usize];
        proof {
            assert forall|v: Seq<u8>| #[trigger] holds(prev@, v) <==> in_class(cap@, v, k - 1) by {
                assert(holds(result@[k - 1]@, v) <==> in_class(cap@, v, k - 1));
            }
        }
        let next = next_class(cap, prev, Ghost((k - 1) as int));
        result.push(next);
        k = k + 1;
    }
    result
}

/// Counters that are all zero sum to zero.
proof fn lemma_zero_total(v: Seq<u8>)
    requires
        forall|j: int| 0 <= j < v.len() ==> v[j] == 0u8,
    ensures
        seq_total(v) == 0,
    decreases v.len(),
{
    if v.len() > 0 {
        lemma_zero_total(v.drop_first());
    }
}

} // verus!
