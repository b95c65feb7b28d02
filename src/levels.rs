use vstd::prelude::*;

verus! {

/// A power level of one slot, or of a whole loadout.
pub type PowerLevel = i16;

/// The eight slot levels of a loadout, in slot order.
pub type SlotTable = [i16; 8];

/// Number of equipment slots.
pub const SLOT_COUNT: usize = 8;

/// Highest power level a slot table may hold; eight of them still fit a `PowerLevel`.
pub const MAX_LEVEL: i16 = 4000;

/// The slot levels as mathematical integers.
pub open spec fn slot_values(s: SlotTable) -> Seq<int> {
    s@.map_values(|x: i16| x as int)
}

/// Every slot lies between `lo` and `hi`.
pub open spec fn within(s: Seq<int>, lo: int, hi: int) -> bool {
    forall|i: int| 0 <= i < s.len() ==> lo <= #[trigger] s[i] <= hi
}

/// A slot table on which the leveling arithmetic cannot overflow.
pub open spec fn table_ok(s: SlotTable) -> bool {
    within(slot_values(s), 0, MAX_LEVEL as int)
}

/// The total of a sequence of levels.
pub open spec fn seq_sum(s: Seq<int>) -> int
    decreases s.len(),
{
    if s.len() == 0 {
        0
    } else {
        seq_sum(s.drop_last()) + s.last()
    }
}

/// The highest of a sequence of levels (0 for none).
pub open spec fn seq_max(s: Seq<int>) -> int
    decreases s.len(),
{
    if s.len() == 0 {
        0
    } else if s.len() == 1 {
        s[0]
    } else {
        let m = seq_max(s.drop_last());
        if s.last() > m {
            s.last()
        } else {
            m
        }
    }
}

/// The level of a loadout: the floor of the mean of its eight slots.
pub open spec fn level_of(s: Seq<int>) -> int {
    seq_sum(s) / 8
}

/// Some slot lies strictly below `t`.
pub open spec fn has_slot_below(s: Seq<int>, t: int) -> bool {
    exists|i: int| 0 <= i < s.len() && #[trigger] s[i] < t
}

/// One leveling pass: every slot below `t` is raised to `t`.
pub open spec fn raise_to(s: Seq<int>, t: int) -> Seq<int> {
    s.map_values(|x: int| if x < t { t } else { x })
}

/// Leveling run to its fixpoint: passes repeat while some slot lies below the level.
pub open spec fn flatten(s: Seq<int>) -> Seq<int>
    decreases 8 * seq_max(s) - seq_sum(s),
    via flatten_decreases
{
    if s.len() == 8 && has_slot_below(s, level_of(s)) {
        flatten(raise_to(s, level_of(s)))
    } else {
        s
    }
}

#[via_fn]
proof fn flatten_decreases(s: Seq<int>) {
    if s.len() == 8 && has_slot_below(s, level_of(s)) {
        lemma_flatten_step(s);
    }
}

/// The total is at most the length times the highest level, which some slot reaches.
proof fn lemma_sum_le_len_max(s: Seq<int>)
    ensures
        seq_sum(s) <= s.len() * seq_max(s),
        forall|i: int| 0 <= i < s.len() ==> s[i] <= seq_max(s),
        s.len() > 0 ==> exists|i: int| 0 <= i < s.len() && s[i] == seq_max(s),
    decreases s.len(),
{
    if s.len() > 1 {
        let p = s.drop_last();
        lemma_sum_le_len_max(p);
        assert forall|i: int| 0 <= i < s.len() implies s[i] <= seq_max(s) by {
            if i < s.len() - 1 {
                assert(s[i] == p[i]);
            }
        }
        let m = seq_max(p);
        assert(seq_sum(p) <= p.len() * m);
        if s.last() > m {
            assert(p.len() * m <= p.len() * s.last()) by (nonlinear_arith)
                requires s.last() > m, p.len() >= 0;
            assert(s[s.len() - 1] == seq_max(s));
        } else {
            let j = choose|j: int| 0 <= j < p.len() && p[j] == m;
            assert(s[j] == seq_max(s));
        }
        assert(s.len() * seq_max(s) == p.len() * seq_max(s) + seq_max(s)) by (nonlinear_arith)
            requires s.len() == p.len() + 1;
        assert(p.len() * m <= p.len() * seq_max(s)) by (nonlinear_arith)
            requires m <= seq_max(s), p.len() >= 0;
        assert(s.last() <= seq_max(s));
        assert(seq_sum(s) == seq_sum(p) + s.last());
    } else if s.len() == 1 {
        assert(s.drop_last().len() == 0);
        assert(seq_sum(s.drop_last()) == 0);
        assert(s[0] == seq_max(s));
        assert(seq_sum(s) == s[0]);
    }
}

/// A leveling pass never lowers the total, and raises it when some slot lies below `t`.
proof fn lemma_raise_sum(s: Seq<int>, t: int)
    ensures
        seq_sum(raise_to(s, t)) >= seq_sum(s),
        has_slot_below(s, t) ==> seq_sum(raise_to(s, t)) >= seq_sum(s) + 1,
        raise_to(s, t).len() == s.len(),
    decreases s.len(),
{
    if s.len() > 0 {
        let p = s.drop_last();
        lemma_raise_sum(p, t);
        assert(raise_to(s, t).drop_last() =~= raise_to(p, t));
        if has_slot_below(s, t) && !(s.last() < t) {
            let i = choose|i: int| 0 <= i < s.len() && s[i] < t;
            assert(p[i] < t);
        }
    }
}

/// A pass to a level no higher than the highest slot keeps the highest slot.
proof fn lemma_raise_max(s: Seq<int>, t: int)
    requires
        s.len() > 0,
        t <= seq_max(s),
    ensures
        seq_max(raise_to(s, t)) == seq_max(s),
    decreases s.len(),
{
    let r = raise_to(s, t);
    lemma_sum_le_len_max(s);
    lemma_sum_le_len_max(r);
    assert forall|i: int| 0 <= i < r.len() implies r[i] <= seq_max(s) by {}
    let j = choose|j: int| 0 <= j < s.len() && s[j] == seq_max(s);
    assert(r[j] == seq_max(s));
    let k = choose|k: int| 0 <= k < r.len() && r[k] == seq_max(r);
}

/// The level never exceeds the highest slot.
proof fn lemma_level_le_max(s: Seq<int>)
    requires
        s.len() == 8,
    ensures
        level_of(s) <= seq_max(s),
        seq_sum(s) <= 8 * seq_max(s),
{
    lemma_sum_le_len_max(s);
}

/// One leveling pass keeps the highest slot and strictly raises the total.
proof fn lemma_flatten_step(s: Seq<int>)
    requires
        s.len() == 8,
        has_slot_below(s, level_of(s)),
    ensures
        0 <= 8 * seq_max(raise_to(s, level_of(s))) - seq_sum(raise_to(s, level_of(s)))
            < 8 * seq_max(s) - seq_sum(s),
{
    let t = level_of(s);
    let r = raise_to(s, t);
    lemma_level_le_max(s);
    lemma_raise_sum(s, t);
    lemma_raise_max(s, t);
    lemma_sum_le_len_max(r);
}

/// Bounds on the slots bound the total.
proof fn lemma_sum_within(s: Seq<int>, lo: int, hi: int)
    requires
        within(s, lo, hi),
    ensures
        s.len() * lo <= seq_sum(s) <= s.len() * hi,
    decreases s.len(),
{
    if s.len() > 0 {
        let p = s.drop_last();
        assert(within(p, lo, hi)) by {
            assert forall|i: int| 0 <= i < p.len() implies lo <= #[trigger] p[i] <= hi by {
                assert(p[i] == s[i]);
            }
        }
        lemma_sum_within(p, lo, hi);
        assert(lo <= s[s.len() - 1] <= hi);
        assert(s.len() * lo == p.len() * lo + lo) by (nonlinear_arith)
            requires s.len() == p.len() + 1;
        assert(s.len() * hi == p.len() * hi + hi) by (nonlinear_arith)
            requires s.len() == p.len() + 1;
        assert(seq_sum(s) == seq_sum(p) + s.last());
    } else {
        assert(s.len() * lo == 0 && s.len() * hi == 0) by (nonlinear_arith)
            requires s.len() == 0;
    }
}

/// The total of eight slots, written out.
pub proof fn lemma_sum8(s: Seq<int>)
    requires
        s.len() == 8,
    ensures
        seq_sum(s) == s[0] + s[1] + s[2] + s[3] + s[4] + s[5] + s[6] + s[7],
{
    reveal_with_fuel(seq_sum, 9);
    let s7 = s.drop_last();
    let s6 = s7.drop_last();
    let s5 = s6.drop_last();
    let s4 = s5.drop_last();
    let s3 = s4.drop_last();
    let s2 = s3.drop_last();
    let s1 = s2.drop_last();
    let s0 = s1.drop_last();
    assert(s0.len() == 0);
    assert(s1[0] == s[0]);
    assert(s2[1] == s[1]);
    assert(s3[2] == s[2]);
    assert(s4[3] == s[3]);
    assert(s5[4] == s[4]);
    assert(s6[5] == s[5]);
    assert(s7[6] == s[6]);
}

/// The level of eight slots in `[lo, hi]` lies in `[lo, hi]` too.
pub proof fn lemma_level_within(s: Seq<int>, lo: int, hi: int)
    requires
        s.len() == 8,
        within(s, lo, hi),
    ensures
        lo <= level_of(s) <= hi,
        8 * lo <= seq_sum(s) <= 8 * hi,
{
    lemma_sum_within(s, lo, hi);
}

/// Leveling keeps every slot inside any range that the slots and their level already share.
pub proof fn lemma_flatten_within(s: Seq<int>, lo: int, hi: int)
    requires
        s.len() == 8,
        within(s, lo, hi),
    ensures
        flatten(s).len() == 8,
        within(flatten(s), lo, hi),
        !has_slot_below(flatten(s), level_of(flatten(s))),
        forall|i: int| 0 <= i < 8 ==> s[i] <= #[trigger] flatten(s)[i],
    decreases 8 * seq_max(s) - seq_sum(s),
{
    if has_slot_below(s, level_of(s)) {
        let t = level_of(s);
        let r = raise_to(s, t);
        lemma_level_within(s, lo, hi);
        lemma_flatten_step(s);
        assert(within(r, lo, hi));
        lemma_flatten_within(r, lo, hi);
        assert forall|i: int| 0 <= i < 8 implies s[i] <= #[trigger] flatten(s)[i] by {
            assert(s[i] <= r[i]);
        }
    }
}

/// Leveling is idempotent, and what it returns has no slot below its own level.
pub proof fn lemma_flatten_idempotent(s: Seq<int>)
    requires
        s.len() == 8,
    ensures
        flatten(flatten(s)) == flatten(s),
        !has_slot_below(flatten(s), level_of(flatten(s))),
{
    lemma_flatten_fixpoint(s);
}

/// Leveling ends in a table with no slot below its level, which leveling leaves as it is.
proof fn lemma_flatten_fixpoint(s: Seq<int>)
    requires
        s.len() == 8,
    ensures
        flatten(s).len() == 8,
        !has_slot_below(flatten(s), level_of(flatten(s))),
        flatten(flatten(s)) == flatten(s),
    decreases 8 * seq_max(s) - seq_sum(s),
{
    if has_slot_below(s, level_of(s)) {
        lemma_flatten_step(s);
        lemma_flatten_fixpoint(raise_to(s, level_of(s)));
    }
}

/// The level of a slot table: the floor of the mean of its slots.
pub fn current_level(slots: SlotTable) -> (r: PowerLevel)
    requires
        table_ok(slots),
    ensures
        r as int == level_of(slot_values(slots)),
        0 <= r <= MAX_LEVEL,
{
    let ghost v = slot_values(slots);
    let mut sum: i32 = 0;
    let mut i: usize = 0;
    while i < SLOT_COUNT
        invariant
            i <= 8,
            v == slot_values(slots),
            table_ok(slots),
            sum as int == seq_sum(v.take(i as int)),
            0 <= sum <= 4000 * i,
        decreases 8 - i,
    {
        assert(v.take(i as int + 1).drop_last() =~= v.take(i as int));
        assert(0 <= v[i as int] <= 4000);
        sum = sum + slots[i] as i32;
        i = i + 1;
    }
    assert(v.take(8) =~= v);
    proof {
        lemma_level_within(v, 0, MAX_LEVEL as int);
    }
    (sum / 8) as i16
}

/// The lowest slot of a table.
fn min_element(slots: SlotTable) -> (r: PowerLevel)
    ensures
        forall|i: int| 0 <= i < 8 ==> r <= #[trigger] slots[i],
        exists|i: int| 0 <= i < 8 && r == slots[i],
{
    let mut m: i16 = slots[0];
    let mut i: usize = 1;
    while i < SLOT_COUNT
        invariant
            1 <= i <= 8,
            forall|j: int| 0 <= j < i ==> m <= #[trigger] slots[j],
            exists|j: int| 0 <= j < i && m == slots[j],
        decreases 8 - i,
    {
        if slots[i] < m {
            m = slots[i];
        }
        i = i + 1;
    }
    m
}

/// One leveling pass on a table: every slot below `t` becomes `t`.
fn raise_slots(slots: SlotTable, t: PowerLevel) -> (r: SlotTable)
    ensures
        slot_values(r) == raise_to(slot_values(slots), t as int),
{
    let mut r = slots;
    let mut i: usize = 0;
    while i < SLOT_COUNT
        invariant
            i <= 8,
            forall|j: int| 0 <= j < i ==> #[trigger] r[j] == (if slots[j] < t { t } else { slots[j] }),
            forall|j: int| i <= j < 8 ==> #[trigger] r[j] == slots[j],
        decreases 8 - i,
    {
        if r[i] < t {
            r[i] = t;
        }
        i = i + 1;
    }
    assert(slot_values(r) =~= raise_to(slot_values(slots), t as int));
    r
}

/// Levels a slot table to its fixpoint: while a slot lies below the level, every such slot is
/// raised to the level and the level is taken again.
pub fn full_flatten(slots: SlotTable) -> (r: SlotTable)
    requires
        table_ok(slots),
    ensures
        slot_values(r) == flatten(slot_values(slots)),
        table_ok(r),
        !has_slot_below(slot_values(r), level_of(slot_values(r))),
{
    let mut cur = slots;
    let mut current = current_level(cur);
    while min_element(cur) < current
        invariant
            table_ok(cur),
            current as int == level_of(slot_values(cur)),
            flatten(slot_values(cur)) == flatten(slot_values(slots)),
        decreases 8 * seq_max(slot_values(cur)) - seq_sum(slot_values(cur)),
    {
        let ghost v = slot_values(cur);
        proof {
            let k = choose|k: int| 0 <= k < 8 && cur[k] < current;
            assert(v[k] < level_of(v));
            lemma_flatten_step(v);
            lemma_level_within(v, 0, MAX_LEVEL as int);
        }
        cur = raise_slots(cur, current);
        current = current_level(cur);
    }
    proof {
        let v = slot_values(cur);
        if has_slot_below(v, level_of(v)) {
            let k = choose|k: int| 0 <= k < v.len() && v[k] < level_of(v);
            assert(cur[k] < current);
        }
    }
    cur
}

} // verus!
