//! The table of best times.
use vstd::prelude::*;

use std::time::{Duration, SystemTimeError};

use crate::clock::{epoch_gap, local_minute_stamp_at, part_nanos, since_unix_epoch, system_now, whole_seconds};

verus! {

/// How many scores the table keeps.
pub const MAX_SCORES: usize = 10;

/// The first second, counted from the Unix epoch, that chrono can date: the
/// start of 1 January of the year -262143.
pub const STAMP_FIRST: i64 = -8_334_601_228_800;

/// The last second, counted from the Unix epoch, that chrono can date: the
/// end of 31 December of the year 262142.
pub const STAMP_LAST: i64 = 8_210_266_876_799;

/// The whole second at or before a clock reading that lies `whole` seconds
/// and `nanos` nanoseconds after the Unix epoch, or before it when `before`.
pub open spec fn floor_seconds(before: bool, whole: u64, nanos: u32) -> int {
    if !before {
        whole as int
    } else if nanos == 0 {
        -(whole as int)
    } else {
        -(whole as int) - 1
    }
}

/// The whole second at or before a clock reading that lies `whole` seconds
/// and `nanos` nanoseconds after the Unix epoch, or before it when `before`;
/// `None` when that second lies outside `STAMP_FIRST..=STAMP_LAST`.
pub fn reading_seconds(before: bool, whole: u64, nanos: u32) -> (r: Option<i64>)
    ensures
        r == (if STAMP_FIRST <= floor_seconds(before, whole, nanos) <= STAMP_LAST {
            Some(floor_seconds(before, whole, nanos) as i64)
        } else {
            None::<i64>
        }),
        !before && whole <= STAMP_LAST ==> r == Some(whole as i64),
        before && nanos == 0 && whole <= -STAMP_FIRST ==> r == Some(-(whole as int) as i64),
        r matches Some(t) ==> (t >= 0 <==> (!before || whole == 0 && nanos == 0)),
{
    if !before {
        if whole <= STAMP_LAST as u64 {
            Some(whole as i64)
        } else {
            None
        }
    } else if whole > (-STAMP_FIRST) as u64 {
        None
    } else {
        let w = whole as i64;
        if nanos == 0 {
            Some(-w)
        } else if w < -STAMP_FIRST {
            Some(-w - 1)
        } else {
            None
        }
    }
}

/// One finished game: when it was won, how long it took, and the board size.
#[derive(Clone, Debug)]
pub struct Score {
    pub date: String,
    pub seconds: u64,
    pub difficulty: String,
}

/// The best times, fastest first.
pub struct Leaderboard {
    pub scores: Vec<Score>,
}

impl Default for Leaderboard {
    /// The empty table.
    fn default() -> (l: Self)
        ensures
            l.scores@ == Seq::<Score>::empty(),
    {
        Leaderboard { scores: Vec::new() }
    }
}

/// `s` placed into `sorted` behind every score that is not slower than it.
pub open spec fn insert_ranked(sorted: Seq<Score>, s: Score) -> Seq<Score>
    decreases sorted.len(),
{
    if sorted.len() == 0 {
        seq![s]
    } else if sorted.last().seconds <= s.seconds {
        sorted.push(s)
    } else {
        insert_ranked(sorted.drop_last(), s).push(sorted.last())
    }
}

/// `s` stably sorted by time: faster first, equal times in their order in `s`.
pub open spec fn ranked(s: Seq<Score>) -> Seq<Score>
    decreases s.len(),
{
    if s.len() == 0 {
        s
    } else {
        insert_ranked(ranked(s.drop_last()), s.last())
    }
}

/// What the table keeps of the scores `s`: the `MAX_SCORES` fastest, in rank order.
pub open spec fn kept(s: Seq<Score>) -> Seq<Score> {
    let r = ranked(s);
    if r.len() <= MAX_SCORES {
        r
    } else {
        r.take(MAX_SCORES as int)
    }
}

/// No score of `s` is slower than a score behind it.
pub open spec fn is_ranked(s: Seq<Score>) -> bool {
    forall|i: int, j: int| 0 <= i <= j < s.len() ==> s[i].seconds <= s[j].seconds
}

/// `s` and `t` hold the same scores, each as often.
pub open spec fn same_scores(s: Seq<Score>, t: Seq<Score>) -> bool {
    s.to_multiset() == t.to_multiset()
}

/// Inserting scans from the back: it stops behind the last score that is not slower.
proof fn lemma_insert_ranked_at(p: Seq<Score>, s: Score, j: int)
    requires
        0 <= j <= p.len(),
        forall|t: int| j <= t < p.len() ==> p[t].seconds > s.seconds,
        j == 0 || p[j - 1].seconds <= s.seconds,
    ensures
        insert_ranked(p, s) == p.take(j).push(s) + p.skip(j),
    decreases p.len(),
{
    if p.len() == 0 {
        assert(p.take(j).push(s) + p.skip(j) =~= seq![s]);
    } else if p.last().seconds <= s.seconds {
        assert(j == p.len());
        assert(p.take(j).push(s) + p.skip(j) =~= p.push(s));
    } else {
        let q = p.drop_last();
        lemma_insert_ranked_at(q, s, j);
        assert(q.take(j).push(s) + q.skip(j) + seq![p.last()] =~= p.take(j).push(s) + p.skip(j));
        assert((q.take(j).push(s) + q.skip(j)).push(p.last()) =~= q.take(j).push(s) + q.skip(j)
            + seq![p.last()]);
    }
}

proof fn lemma_insert_ranked_len_multiset(p: Seq<Score>, s: Score)
    ensures
        insert_ranked(p, s).len() == p.len() + 1,
        insert_ranked(p, s).to_multiset() == p.to_multiset().insert(s),
    decreases p.len(),
{
    broadcast use vstd::seq_lib::group_seq_properties;
    if p.len() == 0 {
        assert(seq![s] =~= Seq::<Score>::empty().push(s));
    } else if p.last().seconds <= s.seconds {
    } else {
        let q = p.drop_last();
        lemma_insert_ranked_len_multiset(q, s);
        assert(p =~= q.push(p.last()));
        assert(p.to_multiset() == q.to_multiset().insert(p.last()));
        assert(insert_ranked(p, s).to_multiset() == insert_ranked(q, s).to_multiset().insert(p.last()));
        assert(q.to_multiset().insert(s).insert(p.last()) =~= q.to_multiset().insert(p.last()).insert(s));
    }
}

proof fn lemma_insert_ranked_sorted(p: Seq<Score>, s: Score)
    requires
        is_ranked(p),
    ensures
        is_ranked(insert_ranked(p, s)),
        forall|i: int|
            0 <= i < insert_ranked(p, s).len() ==> (#[trigger] insert_ranked(p, s)[i] == s || exists|t: int|
                0 <= t < p.len() && p[t] == insert_ranked(p, s)[i]),
    decreases p.len(),
{
    if p.len() == 0 {
    } else if p.last().seconds <= s.seconds {
        let r = p.push(s);
        assert forall|i: int| 0 <= i < r.len() implies (#[trigger] r[i] == s || exists|t: int|
            0 <= t < p.len() && p[t] == r[i]) by {
            if i < p.len() {
                assert(p[i] == r[i]);
            }
        }
    } else {
        let q = p.drop_last();
        assert(is_ranked(q));
        lemma_insert_ranked_sorted(q, s);
        lemma_insert_ranked_len_multiset(q, s);
        let iq = insert_ranked(q, s);
        let r = iq.push(p.last());
        assert forall|i: int| 0 <= i < iq.len() implies iq[i].seconds <= p.last().seconds by {
            if iq[i] == s {
            } else {
                let t = choose|t: int| 0 <= t < q.len() && q[t] == iq[i];
                assert(p[t] == q[t]);
            }
        }
        assert forall|i: int| 0 <= i < r.len() implies (#[trigger] r[i] == s || exists|t: int|
            0 <= t < p.len() && p[t] == r[i]) by {
            if i < iq.len() {
                assert(r[i] == iq[i]);
                if iq[i] != s {
                    let t = choose|t: int| 0 <= t < q.len() && q[t] == iq[i];
                    assert(p[t] == r[i]);
                }
            } else {
                assert(p[p.len() - 1] == r[i]);
            }
        }
        assert forall|i: int, j: int| 0 <= i <= j < r.len() implies r[i].seconds <= r[j].seconds by {
            if j < iq.len() {
                assert(r[i] == iq[i] && r[j] == iq[j]);
            } else {
                assert(r[i] == iq[i] || i == j);
            }
        }
    }
}

/// Ranking sorts by time and keeps every score, each as often as before.
pub proof fn lemma_ranked(s: Seq<Score>)
    ensures
        is_ranked(ranked(s)),
        same_scores(ranked(s), s),
        ranked(s).len() == s.len(),
    decreases s.len(),
{
    broadcast use vstd::seq_lib::group_seq_properties;
    if s.len() > 0 {
        lemma_ranked(s.drop_last());
        lemma_insert_ranked_sorted(ranked(s.drop_last()), s.last());
        lemma_insert_ranked_len_multiset(ranked(s.drop_last()), s.last());
        assert(s =~= s.drop_last().push(s.last()));
    }
}

/// The scores of `t` seconds.
pub open spec fn takes(t: u64) -> spec_fn(Score) -> bool {
    |x: Score| x.seconds == t
}

proof fn lemma_insert_ranked_ties(p: Seq<Score>, x: Score, t: u64)
    ensures
        insert_ranked(p, x).filter(takes(t)) == if x.seconds == t {
            p.filter(takes(t)).push(x)
        } else {
            p.filter(takes(t))
        },
    decreases p.len(),
{
    if p.len() == 0 {
        assert(seq![x] =~= p.push(x));
        p.lemma_filter_push(x, takes(t));
    } else if p.last().seconds <= x.seconds {
        p.lemma_filter_push(x, takes(t));
    } else {
        let q = p.drop_last();
        lemma_insert_ranked_ties(q, x, t);
        insert_ranked(q, x).lemma_filter_push(p.last(), takes(t));
        assert(p =~= q.push(p.last()));
        q.lemma_filter_push(p.last(), takes(t));
    }
}

/// Ranking is stable: the scores of any one time keep the order in which
/// they were entered.
pub proof fn lemma_ranked_keeps_ties(s: Seq<Score>, t: u64)
    ensures
        ranked(s).filter(takes(t)) == s.filter(takes(t)),
    decreases s.len(),
{
    if s.len() > 0 {
        lemma_ranked_keeps_ties(s.drop_last(), t);
        lemma_insert_ranked_ties(ranked(s.drop_last()), s.last(), t);
        assert(s =~= s.drop_last().push(s.last()));
        s.drop_last().lemma_filter_push(s.last(), takes(t));
    }
}

/// The table keeps the fastest scores: at most `MAX_SCORES` of them, fastest
/// first, each of them at least as fast as every score it leaves out, and
/// all of them when there are no more than `MAX_SCORES`.
pub proof fn lemma_kept_best(s: Seq<Score>)
    ensures
        is_ranked(kept(s)),
        kept(s).len() == if s.len() <= MAX_SCORES { s.len() } else { MAX_SCORES as nat },
        kept(s) == ranked(s).take(kept(s).len() as int),
        forall|i: int, j: int|
            0 <= i < kept(s).len() && kept(s).len() <= j < ranked(s).len() ==> #[trigger] kept(s)[i].seconds
                <= #[trigger] ranked(s)[j].seconds,
        s.len() <= MAX_SCORES ==> same_scores(kept(s), s),
{
    lemma_ranked(s);
    let r = ranked(s);
    if r.len() <= MAX_SCORES {
        assert(r.take(r.len() as int) =~= r);
    } else {
        let k = r.take(MAX_SCORES as int);
        assert forall|i: int, j: int| 0 <= i <= j < k.len() implies k[i].seconds <= k[j].seconds by {
            assert(k[i] == r[i] && k[j] == r[j]);
        }
        assert forall|i: int, j: int|
            0 <= i < k.len() && k.len() <= j < r.len() implies #[trigger] k[i].seconds <= #[trigger] r[j].seconds by {
            assert(k[i] == r[i]);
        }
    }
}

/// Sorts `v` by time, stably, with insertion sort.
fn sort_by_seconds(v: &mut Vec<Score>)
    ensures
        final(v)@ == ranked(old(v)@),
{
    let ghost orig = v@;
    let n = v.len();
    if n == 0 {
        return;
    }
    let mut i: usize = 1;
    assert(orig.take(1) =~= seq![orig[0]]);
    assert(ranked(orig.take(1).drop_last()) =~= Seq::<Score>::empty());
    assert(v@.take(1) =~= ranked(orig.take(1)));
    while i < n
        invariant
            1 <= i <= n,
            n == orig.len(),
            v@.len() == n,
            v@.take(i as int) == ranked(orig.take(i as int)),
            v@.skip(i as int) == orig.skip(i as int),
        decreases n - i,
    {
        let ghost prefix = v@.take(i as int);
        let ghost vb = v@;
        let s = v.remove(i);
        assert(s == orig[i as int]) by {
            assert(vb.skip(i as int)[0] == orig.skip(i as int)[0]);
        }
        assert(v@.take(i as int) =~= prefix);
        let mut j: usize = i;
        while j > 0 && v[j - 1].seconds > s.seconds
            invariant
                0 <= j <= i,
                i < n,
                v@.len() == n - 1,
                v@.take(i as int) == prefix,
                forall|t: int| j <= t < i ==> prefix[t].seconds > s.seconds,
            decreases j,
        {
            j = j - 1;
        }
        proof {
            assert(j == 0 || prefix[j - 1].seconds <= s.seconds);
            lemma_insert_ranked_at(prefix, s, j as int);
        }
        let ghost before = v@;
        v.insert(j, s);
        proof {
            assert(orig.take(i + 1).drop_last() =~= orig.take(i as int));
            assert(orig.take(i + 1).last() == s);
            assert(v@.take(i + 1) =~= prefix.take(j as int).push(s) + prefix.skip(j as int));
            assert forall|t: int| 0 <= t < n - i - 1 implies #[trigger] before[i + t] == orig[i + 1 + t] by {
                assert(vb.skip(i as int)[t + 1] == orig.skip(i as int)[t + 1]);
            }
            assert forall|t: int| 0 <= t < n - i - 1 implies #[trigger] v@.skip(i + 1)[t] == orig.skip(
                i + 1,
            )[t] by {
                assert(v@[i + 1 + t] == before[i + t]);
            }
            assert(v@.skip(i + 1) =~= orig.skip(i + 1));
        }
        i = i + 1;
    }
    assert(v@ =~= v@.take(n as int));
    assert(orig =~= orig.take(n as int));
}

impl Leaderboard {
    /// Enters a game won in `seconds` on a board named `difficulty`, dated
    /// `date`, and keeps the `MAX_SCORES` fastest.
    pub fn record_score(&mut self, date: String, seconds: u64, difficulty: String)
        ensures
            final(self).scores@ == kept(
                old(self).scores@.push(Score { date, seconds, difficulty }),
            ),
    {
        self.scores.push(Score { date, seconds, difficulty });
        sort_by_seconds(&mut self.scores);
        self.scores.truncate(MAX_SCORES);
        proof {
            let s = old(self).scores@.push(Score { date, seconds, difficulty });
            lemma_ranked(s);
            if ranked(s).len() > MAX_SCORES {
                assert(ranked(s).subrange(0, MAX_SCORES as int) =~= ranked(s).take(MAX_SCORES as int));
            }
        }
    }

    /// The whole second, counted from the Unix epoch, of a clock reading
    /// whose distance from the epoch `SystemTime::duration_since` gave as
    /// `reading`: a reading at or after the epoch (`Ok`) counts forward from
    /// it, one before the epoch (`Err`) backward; `None` outside the seconds
    /// chrono can date.
    fn epoch_second(reading: Result<Duration, SystemTimeError>) -> (moment: Option<i64>)
        ensures
            reading is Ok ==> (moment matches Some(t) ==> t >= 0),
            reading is Err ==> (moment matches Some(t) ==> t <= 0),
            moment matches Some(t) ==> STAMP_FIRST <= t <= STAMP_LAST,
    {
        let moment = match reading {
            Ok(after) => reading_seconds(false, whole_seconds(&after), part_nanos(&after)),
            Err(e) => {
                let gap = epoch_gap(&e);
                reading_seconds(true, whole_seconds(&gap), part_nanos(&gap))
            },
        };
        moment
    }

    /// Enters a game won in `seconds` on a board named `difficulty`, dated by
    /// the local clock at the moment of the call, to the minute. A clock
    /// reading outside the moments chrono can date (`STAMP_FIRST` to
    /// `STAMP_LAST` seconds from the Unix epoch) leaves the date empty.
    pub fn add_score(&mut self, seconds: u64, difficulty: String)
        ensures
            exists|date: String|
                final(self).scores@ == kept(
                    #[trigger] old(self).scores@.push(Score { date, seconds, difficulty }),
                ),
    {
        let now = system_now();
        let moment = Self::epoch_second(since_unix_epoch(&now));
        let date = match moment {
            Some(secs) => local_minute_stamp_at(secs),
            None => String::new(),
        };
        let ghost d = date;
        let ghost label = difficulty;
        self.record_score(date, seconds, difficulty);
        assert(self.scores@ == kept(old(self).scores@.push(Score { date: d, seconds, difficulty: label })));
    }

    /// `after` is this table once a game won in `seconds` on a board named
    /// `difficulty` was entered, dated by whatever the clock showed.
    pub open spec fn won_entry(self, after: Leaderboard, seconds: u64, difficulty: Seq<char>) -> bool {
        exists|date: String, label: String|
            label@ == difficulty && after.scores@ == kept(
                #[trigger] self.scores@.push(Score { date, seconds, difficulty: label }),
            )
    }
}

} // verus!
