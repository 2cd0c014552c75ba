//! The running records of an exhaustive search, and the decision of when
//! one alphabet's statistics break a record and emit a report event.

use vstd::prelude::*;

verus! {

/// The five aggregate statistics of one alphabet's solution set.
#[derive(Clone, Copy, Debug, PartialEq, Eq, Structural)]
pub struct Stats {
    pub words: u64,
    pub pangrams: u64,
    pub perfect: u64,
    pub score: u64,
    pub ratio: u64,
}

/// The best value seen so far for each of the five tracked statistics.
#[derive(Clone, Copy, Debug, PartialEq, Eq, Structural)]
pub struct Maxima {
    pub pangrams: u64,
    pub perfect: u64,
    pub words: u64,
    pub score: u64,
    pub ratio: u64,
}

/// A fresh record set: every record starts at zero.
pub open spec fn initial_maxima() -> Maxima {
    Maxima { pangrams: 0, perfect: 0, words: 0, score: 0, ratio: 0 }
}

impl Default for Maxima {
    fn default() -> (m: Maxima)
        ensures
            m == initial_maxima(),
    {
        Maxima { pangrams: 0, perfect: 0, words: 0, score: 0, ratio: 0 }
    }
}

/// Which record a report event announces.
#[derive(Clone, Copy, Debug, PartialEq, Eq, Structural)]
pub enum RecordKind {
    Pangrams,
    Perfect,
    Words,
    Ratio,
    Score,
}

/// One improvement: the record broken, the alphabet that broke it (center
/// letter first), and that alphabet's statistics.
#[derive(Debug, PartialEq, Eq)]
pub struct ReportEvent {
    pub kind: RecordKind,
    pub alphabet: Vec<char>,
    pub stats: Stats,
}

/// Ghost image of a report event, with the alphabet as a sequence.
pub struct ReportEventV {
    pub kind: RecordKind,
    pub alphabet: Seq<char>,
    pub stats: Stats,
}

impl View for ReportEvent {
    type V = ReportEventV;

    open spec fn view(&self) -> ReportEventV {
        ReportEventV { kind: self.kind, alphabet: self.alphabet@, stats: self.stats }
    }
}

/// The view of each report event in a vector, in order.
pub open spec fn event_views(s: Seq<ReportEvent>) -> Seq<ReportEventV> {
    s.map_values(|e: ReportEvent| e@)
}

/// The records after considering one alphabet's statistics: each record
/// rises to the new value when strictly beaten; the ratio record moreover
/// moves only when the solution holds more than nine words.
pub open spec fn consider_next(m: Maxima, s: Stats) -> Maxima {
    Maxima {
        pangrams: if s.pangrams > m.pangrams {
            s.pangrams
        } else {
            m.pangrams
        },
        perfect: if s.perfect > m.perfect {
            s.perfect
        } else {
            m.perfect
        },
        words: if s.words > m.words {
            s.words
        } else {
            m.words
        },
        score: if s.score > m.score {
            s.score
        } else {
            m.score
        },
        ratio: if s.ratio > m.ratio && s.words > 9 {
            s.ratio
        } else {
            m.ratio
        },
    }
}

/// Zero or one report event, depending on whether the record fires.
pub open spec fn one_event(kind: RecordKind, a: Seq<char>, s: Stats, fires: bool) -> Seq<
    ReportEventV,
> {
    if fires {
        seq![ReportEventV { kind: kind, alphabet: a, stats: s }]
    } else {
        Seq::empty()
    }
}

/// The report events one alphabet emits, in the fixed order in which the
/// five records are checked. The checks are independent: one alphabet can
/// break several records at once.
pub open spec fn emitted_events(m: Maxima, s: Stats, a: Seq<char>) -> Seq<ReportEventV> {
    one_event(RecordKind::Pangrams, a, s, s.pangrams > m.pangrams) + one_event(
        RecordKind::Perfect,
        a,
        s,
        s.perfect > m.perfect,
    ) + one_event(RecordKind::Words, a, s, s.words > m.words) + one_event(
        RecordKind::Ratio,
        a,
        s,
        s.ratio > m.ratio && s.words > 9,
    ) + one_event(RecordKind::Score, a, s, s.score > m.score)
}

/// Considering an alphabet never lowers a record.
pub proof fn lemma_maxima_monotone(m: Maxima, s: Stats)
    ensures
        consider_next(m, s).pangrams >= m.pangrams,
        consider_next(m, s).perfect >= m.perfect,
        consider_next(m, s).words >= m.words,
        consider_next(m, s).score >= m.score,
        consider_next(m, s).ratio >= m.ratio,
{
}

/// The ratio record never moves, and no ratio event fires, for an
/// alphabet whose solution holds nine or fewer words, however large its
/// ratio may be.
pub proof fn lemma_ratio_needs_words(m: Maxima, s: Stats, a: Seq<char>)
    requires
        s.words <= 9,
    ensures
        consider_next(m, s).ratio == m.ratio,
        forall|i: int|
            0 <= i < emitted_events(m, s, a).len() ==> emitted_events(m, s, a)[i].kind
                != RecordKind::Ratio,
{
}

/// Update the records from one alphabet's statistics, appending a report
/// event for each record broken.
pub fn consider(
    max: &mut Maxima,
    stats: &Stats,
    alphabet: &Vec<char>,
    events: &mut Vec<ReportEvent>,
)
    ensures
        *final(max) == consider_next(*old(max), *stats),
        event_views(final(events)@) == event_views(old(events)@) + emitted_events(
            *old(max),
            *stats,
            alphabet@,
        ),
{
    let ghost m0 = *max;
    let ghost s = *stats;
    let ghost a = alphabet@;
    let ghost base = event_views(events@);
    if stats.pangrams > max.pangrams {
        events.push(
            ReportEvent { kind: RecordKind::Pangrams, alphabet: alphabet.clone(), stats: *stats },
        );
        max.pangrams = stats.pangrams;
    }
    assert(event_views(events@) =~= base + one_event(RecordKind::Pangrams, a, s, s.pangrams
        > m0.pangrams));
    let ghost p1 = event_views(events@);
    if stats.perfect > max.perfect {
        events.push(
            ReportEvent { kind: RecordKind::Perfect, alphabet: alphabet.clone(), stats: *stats },
        );
        max.perfect = stats.perfect;
    }
    assert(event_views(events@) =~= p1 + one_event(RecordKind::Perfect, a, s, s.perfect
        > m0.perfect));
    let ghost p2 = event_views(events@);
    if stats.words > max.words {
        events.push(
            ReportEvent { kind: RecordKind::Words, alphabet: alphabet.clone(), stats: *stats },
        );
        max.words = stats.words;
    }
    assert(event_views(events@) =~= p2 + one_event(RecordKind::Words, a, s, s.words > m0.words));
    let ghost p3 = event_views(events@);
    if stats.ratio > max.ratio && stats.words > 9 {
        events.push(
            ReportEvent { kind: RecordKind::Ratio, alphabet: alphabet.clone(), stats: *stats },
        );
        max.ratio = stats.ratio;
    }
    assert(event_views(events@) =~= p3 + one_event(RecordKind::Ratio, a, s, s.ratio > m0.ratio
        && s.words > 9));
    let ghost p4 = event_views(events@);
    if stats.score > max.score {
        events.push(
            ReportEvent { kind: RecordKind::Score, alphabet: alphabet.clone(), stats: *stats },
        );
        max.score = stats.score;
    }
    assert(event_views(events@) =~= p4 + one_event(RecordKind::Score, a, s, s.score > m0.score));
    assert(event_views(events@) =~= base + emitted_events(m0, s, a));
}

} // verus!
