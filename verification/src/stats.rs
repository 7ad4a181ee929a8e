//! Bookkeeping a driver keeps across games: the history of finished games,
//! the lifetime point total, and a five-slot scoreboard of the best scores.

use vstd::prelude::*;

verus! {

/// One finished game: its final score and the date it ended.
pub struct PastGameDatapoint {
    pub date: String,
    pub score: u64,
}

/// The record of finished games, oldest first.
pub struct StatsHistory(pub Vec<PastGameDatapoint>);

/// The five best scores with their dates, best first.
pub struct Scoreboard {
    entries: Vec<Option<(u64, String)>>,
}

/// A scoreboard slot as the model sees it: the score and the date's text.
pub open spec fn entry_view(c: Option<(u64, String)>) -> Option<(u64, Seq<char>)> {
    match c {
        Option::Some(p) => Option::Some((p.0, p.1@)),
        Option::None => Option::None,
    }
}

/// All slots of a scoreboard, as the model sees them.
pub open spec fn sb_view(s: Seq<Option<(u64, String)>>) -> Seq<Option<(u64, Seq<char>)>> {
    s.map_values(|c: Option<(u64, String)>| entry_view(c))
}

/// Where a new score lands: it takes the first slot that is empty or holds a
/// lower score, everything from there shifts down one, the last slot falls
/// off; a score no better than any slot leaves the board alone.
pub open spec fn sb_insert(
    s: Seq<Option<(u64, Seq<char>)>>,
    score: u64,
    date: Seq<char>,
) -> Seq<Option<(u64, Seq<char>)>>
    decreases s.len(),
{
    if s.len() == 0 {
        s
    } else if s[0] is None || (s[0]->Some_0).0 < score {
        seq![Option::Some((score, date))] + s.drop_last()
    } else {
        seq![s[0]] + sb_insert(s.drop_first(), score, date)
    }
}

/// Five empty slots.
pub open spec fn sb_empty() -> Seq<Option<(u64, Seq<char>)>> {
    seq![Option::None, Option::None, Option::None, Option::None, Option::None]
}

impl Scoreboard {
    /// The slots as the model sees them, best first.
    pub closed spec fn entries_view(&self) -> Seq<Option<(u64, Seq<char>)>> {
        sb_view(self.entries@)
    }

    /// A scoreboard always has exactly five slots.
    pub open spec fn wf(&self) -> bool {
        self.entries_view().len() == 5
    }

    /// One slot, for display: the score and a copy of the date.
    pub fn slot(&self, i: usize) -> (r: Option<(u64, String)>)
        requires
            self.wf(),
            i < 5,
        ensures
            entry_view(r) == self.entries_view()[i as int],
    {
        match &self.entries[i] {
            Option::Some(p) => Option::Some((p.0, p.1.clone())),
            Option::None => Option::None,
        }
    }

    /// Record a finished game's score: it takes the first slot it beats,
    /// lower scores shift down, and the lowest falls off the board.
    pub fn add(&mut self, new_score: u64, date: String)
        requires
            old(self).wf(),
        ensures
            final(self).wf(),
            final(self).entries_view() == sb_insert(
                old(self).entries_view(),
                new_score,
                date@,
            ),
    {
        let ghost v = self.entries_view();
        let ghost dview = date@;
        proof {
            assert(v.skip(0) =~= v);
            assert(v.take(0) + sb_insert(v, new_score, date@) =~= sb_insert(v, new_score, date@));
        }
        let mut i: usize = 0;
        while i < 5
            invariant
                self == old(self),
                self.wf(),
                v == self.entries_view(),
                date@ == dview,
                i <= 5,
                sb_insert(v, new_score, date@) == v.take(i as int) + sb_insert(
                    v.skip(i as int),
                    new_score,
                    date@,
                ),
            decreases 5 - i,
        {
            let ghost rest = v.skip(i as int);
            proof {
                assert(rest[0] == v[i as int]);
                assert(v[i as int] == entry_view(self.entries@[i as int]));
            }
            let beaten: bool = match &self.entries[i] {
                Option::Some(p) => p.0 < new_score,
                Option::None => true,
            };
            if beaten {
                let ghost e0 = self.entries@;
                let entry: Option<(u64, String)> = Option::Some((new_score, date));
                let ghost entry_g = entry;
                proof {
                    assert(entry_view(entry_g) == Option::Some((new_score, dview)));
                }
                self.entries.insert(i, entry);
                let ghost e1 = self.entries@;
                self.entries.pop();
                proof {
                    e0.insert_ensures(i as int, entry_g);
                    assert(e1[i as int] == entry_g);
                    assert(entry_view(e1[i as int]) == Option::Some((new_score, dview)));
                    assert(self.entries@ =~= e1.subrange(0, 5));
                    assert(sb_insert(rest, new_score, dview) == seq![Option::Some(
                        (new_score, dview),
                    )] + rest.drop_last());
                    assert forall|q: int| 0 <= q < 5 implies self.entries_view()[q] == (v.take(
                        i as int,
                    ) + (seq![Option::Some((new_score, dview))] + rest.drop_last()))[q] by {
                        assert(self.entries@[q] == e1[q]);
                        if q < i as int {
                            assert(e1[q] == e0[q]);
                        } else if q == i as int {
                        } else {
                            assert(e1[q] == e0[q - 1]);
                            assert(rest.drop_last()[q - i - 1] == v[q - 1]);
                        }
                    }
                    assert(self.entries_view() =~= v.take(i as int) + (seq![Option::Some(
                        (new_score, dview),
                    )] + rest.drop_last()));
                }
                return;
            }
            proof {
                assert(rest.drop_first() =~= v.skip(i as int + 1));
                assert(sb_insert(rest, new_score, date@) == seq![v[i as int]] + sb_insert(
                    v.skip(i as int + 1),
                    new_score,
                    date@,
                ));
                assert(v.take(i as int) + (seq![v[i as int]] + sb_insert(
                    v.skip(i as int + 1),
                    new_score,
                    date@,
                )) =~= v.take(i as int + 1) + sb_insert(v.skip(i as int + 1), new_score, date@));
            }
            i += 1;
        }
        proof {
            assert(v.skip(5) =~= Seq::<Option<(u64, Seq<char>)>>::empty());
            assert(v.take(5) =~= v);
            assert(sb_insert(v, new_score, date@) =~= v);
        }
    }
}

impl Default for Scoreboard {
    /// Five empty slots.
    fn default() -> (r: Self)
        ensures
            r.wf(),
            r.entries_view() == sb_empty(),
    {
        let mut entries: Vec<Option<(u64, String)>> = Vec::new();
        entries.push(Option::None);
        entries.push(Option::None);
        entries.push(Option::None);
        entries.push(Option::None);
        entries.push(Option::None);
        let r = Scoreboard { entries };
        proof {
            assert(r.entries_view() =~= sb_empty());
        }
        r
    }
}

/// The sum of the recorded scores.
pub open spec fn scores_sum(h: Seq<PastGameDatapoint>) -> int
    decreases h.len(),
{
    if h.len() == 0 {
        0
    } else {
        scores_sum(h.drop_last()) + h.last().score as int
    }
}

/// The scoreboard that replaying a history, oldest first, builds up.
pub open spec fn sb_fold(h: Seq<PastGameDatapoint>) -> Seq<Option<(u64, Seq<char>)>>
    decreases h.len(),
{
    if h.len() == 0 {
        sb_empty()
    } else {
        sb_insert(sb_fold(h.drop_last()), h.last().score, h.last().date@)
    }
}

proof fn lemma_scores_sum_prefix(h: Seq<PastGameDatapoint>, n: int)
    requires
        0 <= n <= h.len(),
    ensures
        0 <= scores_sum(h.take(n)) <= scores_sum(h),
    decreases h.len() - n,
{
    if n == h.len() {
        assert(h.take(n) =~= h);
        lemma_scores_sum_nonneg(h);
    } else {
        lemma_scores_sum_prefix(h, n + 1);
        lemma_scores_sum_nonneg(h.take(n));
        assert(h.take(n + 1).drop_last() =~= h.take(n));
        assert(scores_sum(h.take(n + 1)) == scores_sum(h.take(n)) + h[n].score as int);
    }
}

proof fn lemma_scores_sum_nonneg(h: Seq<PastGameDatapoint>)
    ensures
        scores_sum(h) >= 0,
    decreases h.len(),
{
    if h.len() > 0 {
        lemma_scores_sum_nonneg(h.drop_last());
    }
}

/// Lifetime statistics a driver accumulates across games.
pub struct Stats {
    pub history: StatsHistory,
    pub lifetime_points: u64,
    pub scoreboard: Scoreboard,
}

impl Stats {
    /// Rebuild the running totals from a saved history: the lifetime points
    /// are the scores' sum, and the scoreboard replays every finished game,
    /// oldest first.
    pub fn new(history: StatsHistory) -> (r: Stats)
        requires
            scores_sum(history.0@) <= u64::MAX,
        ensures
            r.history == history,
            r.lifetime_points as int == scores_sum(history.0@),
            r.scoreboard.wf(),
            r.scoreboard.entries_view() == sb_fold(history.0@),
    {
        let ghost h = history.0@;
        let mut lifetime_points: u64 = 0;
        let mut scoreboard = Scoreboard::default();
        proof {
            assert(h.take(0) =~= Seq::<PastGameDatapoint>::empty());
        }
        let mut k: usize = 0;
        while k < history.0.len()
            invariant
                h == history.0@,
                scores_sum(h) <= u64::MAX,
                k <= h.len(),
                lifetime_points as int == scores_sum(h.take(k as int)),
                scoreboard.wf(),
                scoreboard.entries_view() == sb_fold(h.take(k as int)),
            decreases h.len() - k,
        {
            proof {
                lemma_scores_sum_prefix(h, k as int + 1);
                assert(h.take(k as int + 1).drop_last() =~= h.take(k as int));
                assert(h.take(k as int + 1).last() == h[k as int]);
            }
            let g = &history.0[k];
            scoreboard.add(g.score, g.date.clone());
            lifetime_points = lifetime_points + g.score;
            k += 1;
        }
        proof {
            assert(h.take(h.len() as int) =~= h);
        }
        Stats { history, lifetime_points, scoreboard }
    }

    /// Fold one more finished game into the record: onto the scoreboard,
    /// onto the history, and into the lifetime points.
    pub fn on_game_finish(&mut self, score: u64, date: String)
        requires
            old(self).scoreboard.wf(),
            old(self).lifetime_points + score <= u64::MAX,
        ensures
            final(self).scoreboard.wf(),
            final(self).scoreboard.entries_view() == sb_insert(
                old(self).scoreboard.entries_view(),
                score,
                date@,
            ),
            final(self).history.0@ =~= old(self).history.0@.push(
                (PastGameDatapoint { score, date }),
            ),
            final(self).lifetime_points == old(self).lifetime_points + score,
    {
        self.scoreboard.add(score, date.clone());
        self.history.0.push(PastGameDatapoint { score, date });
        self.lifetime_points = self.lifetime_points + score;
    }
}

} // verus!
