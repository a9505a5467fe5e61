//! The score-ranking module: picks the winning record among recorded
//! attempts under a deterministic total order — higher points first, then
//! lower elapsed time, then the most recent date; remaining ties go to the
//! first-encountered record.

use vstd::prelude::*;

verus! {

/// A calendar date as plain values, ordered most-recent-last.
#[derive(Clone, Copy, Debug, PartialEq, Eq, Structural)]
pub struct ScoreDate {
    pub year: u32,
    pub month: u32,
    pub day: u32,
}

/// One recorded attempt: player initials, the date it was played, the
/// points earned and the elapsed time in seconds.
#[derive(Debug)]
pub struct HighScore {
    pub name: String,
    pub date: ScoreDate,
    pub points: u64,
    pub seconds: u64,
}

/// Whether date `a` is strictly later than date `b`.
pub open spec fn date_after(a: ScoreDate, b: ScoreDate) -> bool {
    ||| a.year > b.year
    ||| (a.year == b.year && a.month > b.month)
    ||| (a.year == b.year && a.month == b.month && a.day > b.day)
}

/// The ranking order: `a` strictly beats `b` on higher points, then lower
/// elapsed time, then the more recent date. Initials never matter.
pub open spec fn beats(a: HighScore, b: HighScore) -> bool {
    ||| a.points > b.points
    ||| (a.points == b.points && a.seconds < b.seconds)
    ||| (a.points == b.points && a.seconds == b.seconds && date_after(a.date, b.date))
}

impl Clone for HighScore {
    /// A copy that ranks (and reads) exactly as the original.
    fn clone(&self) -> (r: Self)
        ensures
            r == *self,
    {
        HighScore {
            name: self.name.clone(),
            date: self.date,
            points: self.points,
            seconds: self.seconds,
        }
    }
}

/// Whether date `a` is strictly later than date `b`.
pub fn date_after_exec(a: &ScoreDate, b: &ScoreDate) -> (r: bool)
    ensures
        r == date_after(*a, *b),
{
    a.year > b.year || (a.year == b.year && a.month > b.month) || (a.year == b.year && a.month
        == b.month && a.day > b.day)
}

/// Whether record `a` strictly beats record `b` in the ranking order.
pub fn beats_exec(a: &HighScore, b: &HighScore) -> (r: bool)
    ensures
        r == beats(*a, *b),
{
    a.points > b.points || (a.points == b.points && a.seconds < b.seconds) || (a.points
        == b.points && a.seconds == b.seconds && date_after_exec(&a.date, &b.date))
}

/// The index of the winning record: scanning left to right, a record only
/// displaces the reigning winner when it strictly beats it, so full ties
/// keep the first-encountered record.
pub open spec fn best_idx(s: Seq<HighScore>) -> int
    decreases s.len(),
{
    if s.len() <= 1 {
        0
    } else {
        let i = best_idx(s.drop_last());
        if beats(s.last(), s[i]) {
            s.len() - 1
        } else {
            i
        }
    }
}

/// The winning index names a record.
pub proof fn lemma_best_idx_range(s: Seq<HighScore>)
    requires
        s.len() > 0,
    ensures
        0 <= best_idx(s) < s.len(),
    decreases s.len(),
{
    if s.len() > 1 {
        lemma_best_idx_range(s.drop_last());
    }
}

/// The ranking order is transitive.
proof fn lemma_beats_trans(a: HighScore, b: HighScore, c: HighScore)
    requires
        beats(a, b),
        beats(b, c),
    ensures
        beats(a, c),
{
}

/// Two records either rank strictly one way, or agree on every key.
proof fn lemma_beats_total(a: HighScore, b: HighScore)
    ensures
        beats(a, b) || beats(b, a) || (a.points == b.points && a.seconds == b.seconds && a.date
            == b.date),
{
}

/// The law behind `best`: no record beats the winner, and the winner
/// strictly beats every record before it — which is exactly what makes
/// the first-encountered record win full ties.
pub proof fn lemma_best_is_unbeaten(s: Seq<HighScore>)
    requires
        s.len() > 0,
    ensures
        0 <= best_idx(s) < s.len(),
        forall|j: int| 0 <= j < s.len() ==> !beats(#[trigger] s[j], s[best_idx(s)]),
        forall|j: int| 0 <= j < best_idx(s) ==> beats(s[best_idx(s)], #[trigger] s[j]),
    decreases s.len(),
{
    lemma_best_idx_range(s);
    if s.len() > 1 {
        let t = s.drop_last();
        lemma_best_is_unbeaten(t);
        let i = best_idx(t);
        let b = best_idx(s);
        if beats(s.last(), s[i]) {
            assert forall|j: int| 0 <= j < s.len() implies !beats(#[trigger] s[j], s[b]) by {
                if j < s.len() - 1 {
                    assert(!beats(t[j], t[i]));
                    if beats(s[j], s[b]) {
                        lemma_beats_trans(s[j], s[b], s[i]);
                    }
                }
            }
            assert forall|j: int| 0 <= j < b implies beats(s[b], #[trigger] s[j]) by {
                assert(!beats(t[j], t[i]));
                lemma_beats_total(s[b], s[j]);
            }
        } else {
            assert forall|j: int| 0 <= j < s.len() implies !beats(#[trigger] s[j], s[b]) by {
                if j < s.len() - 1 {
                    assert(!beats(t[j], t[i]));
                }
            }
            assert forall|j: int| 0 <= j < b implies beats(s[b], #[trigger] s[j]) by {
                assert(beats(t[i], t[j]));
            }
        }
    }
}

/// The index of the best record, or nothing when no records exist.
pub fn best_index(records: &Vec<HighScore>) -> (r: Option<usize>)
    ensures
        records@.len() == 0 ==> r is None,
        records@.len() > 0 ==> (r matches Some(i) && 0 <= i < records@.len() && i as int
            == best_idx(records@)),
{
    if records.len() == 0 {
        return None;
    }
    let mut bi: usize = 0;
    let mut k: usize = 1;
    while k < records.len()
        invariant
            1 <= k <= records@.len(),
            bi < k,
            bi as int == best_idx(records@.take(k as int)),
        decreases records@.len() - k,
    {
        proof {
            assert(records@.take(k as int + 1).drop_last() =~= records@.take(k as int));
            assert(records@.take(k as int + 1).last() == records@[k as int]);
            assert(records@.take(k as int + 1)[bi as int] == records@[bi as int]);
        }
        if beats_exec(&records[k], &records[bi]) {
            bi = k;
        }
        k += 1;
    }
    proof {
        assert(records@.take(records@.len() as int) =~= records@);
    }
    Some(bi)
}

/// The single best record under the ranking order, or nothing when no
/// records exist; records tied on every key keep the first one.
pub fn best(records: &Vec<HighScore>) -> (r: Option<HighScore>)
    ensures
        (records@.len() == 0) <==> (r is None),
        records@.len() > 0 ==> (r matches Some(b) && b == records@[best_idx(records@)]),
{
    match best_index(records) {
        None => None,
        Some(i) => Some(records[i].clone()),
    }
}

/// The ranking's first `n` records, best first: repeatedly extract the
/// winning record from what remains.
pub open spec fn top_spec(s: Seq<HighScore>, n: int) -> Seq<HighScore>
    decreases n,
{
    if n <= 0 || s.len() == 0 {
        Seq::empty()
    } else {
        seq![s[best_idx(s)]] + top_spec(s.remove(best_idx(s)), n - 1)
    }
}

/// `top_spec` keeps `n` records, or all of them when fewer exist.
pub proof fn lemma_top_spec_len(s: Seq<HighScore>, n: int)
    requires
        0 <= n,
    ensures
        top_spec(s, n).len() == if n <= s.len() {
            n
        } else {
            s.len() as int
        },
    decreases n,
{
    if n > 0 && s.len() > 0 {
        lemma_best_idx_range(s);
        lemma_top_spec_len(s.remove(best_idx(s)), n - 1);
    }
}

/// Every ranked record is one of the given records.
proof fn lemma_top_spec_membership(s: Seq<HighScore>, n: int, k: int)
    requires
        0 <= k < top_spec(s, n).len(),
    ensures
        exists|m: int| 0 <= m < s.len() && top_spec(s, n)[k] == s[m],
    decreases n,
{
    lemma_best_idx_range(s);
    let i0 = best_idx(s);
    if k == 0 {
        assert(top_spec(s, n)[0] == s[i0]);
    } else {
        lemma_top_spec_membership(s.remove(i0), n - 1, k - 1);
        let m = choose|m: int|
            0 <= m < s.remove(i0).len() && top_spec(s.remove(i0), n - 1)[k - 1] == s.remove(
                i0,
            )[m];
        assert(s.remove(i0)[m] == if m < i0 {
            s[m]
        } else {
            s[m + 1]
        });
        assert(top_spec(s, n)[k] == top_spec(s.remove(i0), n - 1)[k - 1]);
    }
}

/// The law behind `top_n`: its result is ordered best-to-worst — no later
/// entry beats an earlier one.
pub proof fn lemma_top_spec_sorted(s: Seq<HighScore>, n: int)
    ensures
        forall|i: int, j: int|
            #![trigger top_spec(s, n)[j], top_spec(s, n)[i]]
            0 <= i < j < top_spec(s, n).len() ==> !beats(top_spec(s, n)[j], top_spec(s, n)[i]),
    decreases n,
{
    if n > 0 && s.len() > 0 {
        let i0 = best_idx(s);
        lemma_best_is_unbeaten(s);
        let rest = top_spec(s.remove(i0), n - 1);
        lemma_top_spec_sorted(s.remove(i0), n - 1);
        let t = top_spec(s, n);
        assert forall|i: int, j: int|
            #![trigger t[j], t[i]]
            0 <= i < j < t.len() implies !beats(t[j], t[i]) by {
            assert(t[j] == rest[j - 1]);
            if i == 0 {
                lemma_top_spec_membership(s.remove(i0), n - 1, j - 1);
                let m = choose|m: int| 0 <= m < s.remove(i0).len() && rest[j - 1] == s.remove(
                    i0,
                )[m];
                assert(s.remove(i0)[m] == if m < i0 {
                    s[m]
                } else {
                    s[m + 1]
                });
                assert(t[0] == s[i0]);
            } else {
                assert(t[i] == rest[i - 1]);
                assert(!beats(rest[j - 1], rest[i - 1]));
            }
        }
    }
}

/// At most `n` records, sorted best-to-worst under the ranking order, by
/// repeated extraction of the winning record.
pub fn top_n(records: &Vec<HighScore>, n: usize) -> (r: Vec<HighScore>)
    ensures
        r@ == top_spec(records@, n as int),
{
    let mut working: Vec<HighScore> = Vec::new();
    let mut i: usize = 0;
    while i < records.len()
        invariant
            i <= records@.len(),
            working@ == records@.take(i as int),
        decreases records@.len() - i,
    {
        working.push(records[i].clone());
        i += 1;
        proof {
            assert(records@.take(i as int) =~= records@.take(i as int - 1).push(
                records@[i as int - 1],
            ));
        }
    }
    proof {
        assert(records@.take(records@.len() as int) =~= records@);
    }
    let mut out: Vec<HighScore> = Vec::new();
    let mut k: usize = 0;
    while k < n && working.len() > 0
        invariant
            k <= n,
            out@.len() == k,
            top_spec(records@, n as int) == out@ + top_spec(working@, n as int - k),
        decreases n - k,
    {
        let ghost prev_out = out@;
        let ghost prev_working = working@;
        let bi = match best_index(&working) {
            Some(i) => i,
            None => {
                proof {
                    assert(false);
                }
                0
            },
        };
        let picked = working.remove(bi);
        out.push(picked);
        k += 1;
        proof {
            assert(top_spec(prev_working, n as int - (k - 1)) == seq![
                prev_working[best_idx(prev_working)],
            ] + top_spec(prev_working.remove(best_idx(prev_working)), n as int - k));
            assert(out@ =~= prev_out + seq![prev_working[best_idx(prev_working)]]);
            assert((prev_out + seq![prev_working[best_idx(prev_working)]]) + top_spec(
                working@,
                n as int - k,
            ) =~= prev_out + (seq![prev_working[best_idx(prev_working)]] + top_spec(
                working@,
                n as int - k,
            )));
        }
    }
    proof {
        assert(top_spec(working@, n as int - out@.len()) =~= Seq::<HighScore>::empty());
        assert(out@ + Seq::<HighScore>::empty() =~= out@);
    }
    out
}

} // verus!
