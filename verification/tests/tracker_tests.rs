use spelling_bee::tracker::{consider, Maxima, RecordKind, ReportEvent, Stats};

fn alphabet() -> Vec<char> {
    vec!['r', 'e', 't', 'a', 'i', 'n', 's']
}

#[test]
fn records_rise_and_report() {
    let mut max = Maxima::default();
    let mut events: Vec<ReportEvent> = Vec::new();
    let stats = Stats { words: 12, pangrams: 2, perfect: 1, score: 40, ratio: 16 };
    consider(&mut max, &stats, &alphabet(), &mut events);
    assert_eq!(max.pangrams, 2);
    assert_eq!(max.perfect, 1);
    assert_eq!(max.words, 12);
    assert_eq!(max.score, 40);
    assert_eq!(max.ratio, 16);
    // all five records broke, in the fixed check order
    let kinds: Vec<RecordKind> = events.iter().map(|e| e.kind).collect();
    assert_eq!(
        kinds,
        vec![
            RecordKind::Pangrams,
            RecordKind::Perfect,
            RecordKind::Words,
            RecordKind::Ratio,
            RecordKind::Score,
        ]
    );
    assert!(events.iter().all(|e| e.alphabet == alphabet() && e.stats == stats));
}

#[test]
fn equal_values_break_no_record() {
    let mut max = Maxima::default();
    let mut events: Vec<ReportEvent> = Vec::new();
    let stats = Stats { words: 12, pangrams: 2, perfect: 1, score: 40, ratio: 16 };
    consider(&mut max, &stats, &alphabet(), &mut events);
    let n = events.len();
    // a second alphabet with the same statistics changes nothing
    consider(&mut max, &stats, &alphabet(), &mut events);
    assert_eq!(events.len(), n);
    assert_eq!(max, Maxima { pangrams: 2, perfect: 1, words: 12, score: 40, ratio: 16 });
}

#[test]
fn ratio_needs_more_than_nine_words() {
    let mut max = Maxima::default();
    let mut events: Vec<ReportEvent> = Vec::new();
    // one pangram out of one word: ratio 100, but only one word
    let stats = Stats { words: 1, pangrams: 1, perfect: 0, score: 14, ratio: 100 };
    consider(&mut max, &stats, &alphabet(), &mut events);
    assert_eq!(max.ratio, 0);
    assert!(events.iter().all(|e| e.kind != RecordKind::Ratio));
    // with ten words the same ratio breaks the record
    let stats = Stats { words: 10, pangrams: 10, perfect: 0, score: 140, ratio: 100 };
    consider(&mut max, &stats, &alphabet(), &mut events);
    assert_eq!(max.ratio, 100);
    assert!(events.iter().any(|e| e.kind == RecordKind::Ratio));
}

#[test]
fn ratio_update_needs_strict_improvement() {
    let mut max = Maxima::default();
    let mut events: Vec<ReportEvent> = Vec::new();
    let stats = Stats { words: 20, pangrams: 10, perfect: 0, score: 200, ratio: 50 };
    consider(&mut max, &stats, &alphabet(), &mut events);
    assert_eq!(max.ratio, 50);
    let n = events.len();
    // an equal ratio over enough words still breaks nothing
    let stats = Stats { words: 20, pangrams: 10, perfect: 0, score: 200, ratio: 50 };
    consider(&mut max, &stats, &alphabet(), &mut events);
    assert_eq!(max.ratio, 50);
    assert_eq!(events.len(), n);
}
