use lexis::analysis::{checkpoint, PreparedAnalysis};
use lexis::lexicon::{segmenter_from_lines, Segmenter};
use lexis::pipeline::NlpPipeline;
use lexis::progress::{AnalysisError, AnalysisProgress, AnalysisStats, ProgressLog};
use lexis::ranking::HardWord;
use std::collections::HashSet;
use std::sync::atomic::{AtomicBool, Ordering};
use wordfreq::WordFreq;

const COMMON: &[&str] = &[
    "the", "and", "but", "that", "this", "with", "from", "have", "been", "were", "they", "their",
    "what", "when", "where", "which", "would", "could", "should", "about", "after", "other",
    "there", "just", "come", "make", "know", "good", "well", "back", "over", "such", "into",
    "also", "than", "then", "like", "time", "more", "some", "test", "character", "not", "right",
    "mirror", "story", "love", "normal", "words", "remain", "approaches", "quickly", "now",
    "party", "was", "were", "rare", "her", "remarks", "brought", "all", "most", "done", "she",
    "friends", "who", "far", "observer", "noticed", "circumstances", "demonstrated",
    "understanding", "situation", "met", "ball", "atmosphere", "throughout", "traveled",
    "sister", "arrived", "believes", "meets", "himself", "about", "end", "eternity", "his",
    "had", "very", "said", "every", "one", "felt", "manner", "great", "house", "him",
];

/// Rare words and their weights; the whole dictionary weighs about 10^7, so a
/// weight of 10 is a frequency near 10^-6.
const RARE: &[(&str, f32)] = &[
    ("ephemeral", 10.0),
    ("sanguine", 15.0),
    ("gaiety", 20.0),
    ("felicity", 15.0),
    ("felicitous", 5.0),
    ("obsequious", 3.0),
    ("enigmatic", 12.0),
    ("palpable", 25.0),
    ("civility", 30.0),
    ("importunate", 2.0),
    ("condescension", 5.0),
    ("amiable", 10.0),
    ("supercilious", 2.0),
    ("acquiesce", 5.0),
    ("reproach", 20.0),
    ("infectious", 300.0),
    ("favorites", 250.0),
    ("neighboring", 350.0),
    ("indifferent", 400.0),
    ("unfortunate", 450.0),
    ("professionals", 420.0),
    ("elizabeth", 200.0),
    ("bennet", 30.0),
    ("darcy", 40.0),
    ("london", 450.0),
    ("pemberley", 4.0),
    ("meryton", 3.0),
    ("collins", 300.0),
    ("hunsford", 2.0),
    ("jane", 480.0),
    ("tolerable", 700.0),
    ("handsome", 800.0),
];

fn dictionary() -> WordFreq {
    let mut pairs: Vec<(String, f32)> = Vec::new();
    pairs.push(("zzfiller".to_string(), 9_000_000.0));
    for w in COMMON {
        pairs.push((w.to_string(), 10_000.0));
    }
    for (w, f) in RARE {
        pairs.push((w.to_string(), *f));
    }
    WordFreq::new(pairs)
}

fn segmenter() -> Segmenter {
    let mut lines: Vec<String> = Vec::new();
    for w in COMMON {
        lines.push(format!("{} 1000", w));
    }
    for (w, _) in RARE {
        lines.push(format!("{} 10", w));
    }
    segmenter_from_lines(&lines)
}

fn pipeline() -> NlpPipeline {
    NlpPipeline::new(dictionary(), Some(segmenter()))
}

fn threshold(t: f32) -> u32 {
    t.to_bits()
}

const ENTITY_SPANS: &[&str] =
    &["Elizabeth Bennet", "Darcy", "London", "Pemberley", "Meryton", "Jane", "Collins", "Hunsford"];

/// Stands for the entity model: the known names that a sentence holds.
fn mock_entities(batch: &[String]) -> Vec<String> {
    let mut out = Vec::new();
    for s in batch {
        for e in ENTITY_SPANS {
            if s.contains(e) {
                out.push(e.to_string());
            }
        }
    }
    out
}

fn run_full(
    pipe: &NlpPipeline,
    text: &str,
    t: f32,
    model: Option<fn(&[String]) -> Vec<String>>,
    events: &mut ProgressLog<Vec<AnalysisProgress>>,
) -> Result<(Vec<HardWord>, AnalysisStats), AnalysisError> {
    let flag = AtomicBool::new(false);
    let mut prepared: PreparedAnalysis = pipe.prepare(text, threshold(t), Some(&flag), events)?;
    prepared.require_entity_model(model.is_some())?;
    if let Some(m) = model {
        while prepared.has_pending_batch() {
            let batch = prepared.start_batch(Some(&flag))?;
            let spans = m(&batch);
            let ev = prepared.absorb_batch(&spans);
            events.report(ev);
        }
    }
    prepared.finish(pipe, Some(&flag), events)
}

fn analyze(pipe: &NlpPipeline, text: &str, t: f32) -> (Vec<HardWord>, AnalysisStats) {
    let mut events = ProgressLog::new(Vec::<AnalysisProgress>::new());
    run_full(pipe, text, t, Some(mock_entities), &mut events).expect("analysis failed")
}

const PASSAGE: &str = "It is a truth universally acknowledged that a man in possession of a good fortune must be in want of a wife. \
    She had the felicity of a sanguine temper and an amiable manner throughout the evening. \
    The obsequious civility of the visitor was a reproach to every tolerable house. \
    Her importunate friends could not acquiesce to such supercilious condescension at the ball. \
    His handsome face showed a certain gaiety that was infectious to all who were there.";

#[test]
fn test_easy_words_are_filtered_out() {
    let pipeline = pipeline();
    let (hard_words, _stats) = analyze(&pipeline, PASSAGE, 0.00005);
    let found_words: HashSet<String> = hard_words.iter().map(|w| w.word.clone()).collect();
    let easy: &[&str] = &[
        "the", "and", "but", "that", "this", "with", "from", "have", "been", "were", "they",
        "their", "what", "when", "where", "which", "would", "could", "should", "about", "after",
        "other", "there", "just", "come", "make", "know", "good", "well", "back", "over", "such",
        "into", "also", "than", "then", "like", "time", "more", "some",
    ];
    let mut found_easy_words = Vec::new();
    for easy_word in easy {
        if found_words.contains(*easy_word) {
            found_easy_words.push(*easy_word);
        }
    }
    assert!(
        found_easy_words.is_empty(),
        "Found {} easy words that should have been filtered: {:?}",
        found_easy_words.len(),
        found_easy_words
    );
}

#[test]
fn test_hard_words_are_kept() {
    let pipeline = pipeline();
    let (hard_words, _stats) = analyze(&pipeline, PASSAGE, 0.00005);
    let found_words: HashSet<String> = hard_words
        .iter()
        .flat_map(|w| {
            let mut words = vec![w.word.clone()];
            words.extend(w.variants.clone());
            words
        })
        .collect();
    let expected: &[&str] = &[
        "felicity", "obsequious", "civility", "importunate", "condescension", "sanguine",
        "amiable", "supercilious", "acquiesce", "reproach",
    ];
    let mut missing_words = Vec::new();
    let mut found_count = 0;
    for hard_word in expected {
        let stemmer = rust_stemmers::Stemmer::create(rust_stemmers::Algorithm::English);
        let stemmed = stemmer.stem(hard_word).to_string();
        if found_words.contains(*hard_word) || found_words.contains(&stemmed) {
            found_count += 1;
        } else if PASSAGE.to_lowercase().contains(*hard_word) {
            missing_words.push(*hard_word);
        }
    }
    let expected_min = expected.len() / 2;
    assert!(
        found_count >= expected_min,
        "Expected at least {} hard words, found {}. Missing (that are in text): {:?}",
        expected_min,
        found_count,
        missing_words
    );
}

const MALFORMED_TEXT: &str = "
        This is a test. The character believesthat's not right.
        He meetshimself in the mirror. The story isabout love.
        Normal words like ephemeral and sanguine should remain.
        The endofeternity approaches quickly now.
    ";

#[test]
fn test_malformed_words_are_filtered() {
    let pipeline = pipeline();
    let (hard_words, _stats) = analyze(&pipeline, MALFORMED_TEXT, 0.00005);
    let found_words: HashSet<String> = hard_words.iter().map(|w| w.word.clone()).collect();
    let malformed = ["believesthat's", "meetshimself", "isabout", "endofeternity"];
    for word in &malformed {
        assert!(!found_words.contains(*word), "Malformed word '{}' should have been filtered", word);
    }
}

#[test]
fn malformed_document_keeps_rare_real_words() {
    let pipeline = pipeline();
    let (hard_words, _stats) = analyze(&pipeline, MALFORMED_TEXT, 0.00005);
    let all: Vec<String> = hard_words
        .iter()
        .flat_map(|w| {
            let mut v = vec![w.word.clone()];
            v.extend(w.variants.clone());
            v
        })
        .collect();
    for word in ["believesthat's", "meetshimself", "isabout", "endofeternity"] {
        assert!(!all.iter().any(|w| w == word));
    }
    assert!(all.iter().any(|w| w == "ephemeral"));
    assert!(all.iter().any(|w| w == "sanguine"));
}

const NAMES_TEXT: &str = "
        Elizabeth Bennet met Mr. Darcy at the ball in London.
        The enigmatic atmosphere was palpable throughout Pemberley.
        Jane traveled to Meryton with her sister.
        The obsequious Mr. Collins arrived from Hunsford.
    ";

#[test]
fn test_proper_nouns_filtered_by_ner() {
    let pipeline = pipeline();
    let (hard_words, stats) = analyze(&pipeline, NAMES_TEXT, 0.00005);
    let found_words: HashSet<String> = hard_words.iter().map(|w| w.word.clone()).collect();
    let names = ["elizabeth", "bennet", "darcy", "pemberley", "meryton", "collins", "hunsford"];
    for name in &names {
        assert!(!found_words.contains(*name), "Proper noun '{}' should have been filtered by NER", name);
    }
    assert!(
        found_words.contains("obsequious") || found_words.contains("enigmatic"),
        "Hard words like 'obsequious' or 'enigmatic' should be kept"
    );
    assert!(!stats.filtered_by_ner.is_empty(), "Expected some words to be filtered by NER");
}

#[test]
fn names_are_kept_out_of_every_result_form() {
    let pipeline = pipeline();
    let (hard_words, _stats) = analyze(&pipeline, NAMES_TEXT, 0.00005);
    let names = ["elizabeth", "bennet", "darcy", "london", "pemberley", "meryton", "jane", "collins", "hunsford"];
    for w in &hard_words {
        assert!(!names.contains(&w.word.to_lowercase().as_str()));
        for v in &w.variants {
            assert!(!names.contains(&v.as_str()));
        }
    }
}

#[test]
fn names_without_entity_model_fail_the_run() {
    let pipeline = pipeline();
    let mut events = ProgressLog::new(Vec::<AnalysisProgress>::new());
    let r = run_full(&pipeline, NAMES_TEXT, 0.00005, None, &mut events);
    assert!(matches!(r, Err(AnalysisError::ResourceUnavailable)));
}

#[test]
fn no_names_needed_without_entity_model() {
    let pipeline = pipeline();
    let mut events = ProgressLog::new(Vec::<AnalysisProgress>::new());
    let r = run_full(&pipeline, MALFORMED_TEXT, 0.00005, None, &mut events);
    assert!(r.is_ok());
}

#[test]
fn test_frequency_threshold_affects_results() {
    let pipeline = pipeline();
    let (strict_words, _) = analyze(&pipeline, PASSAGE, 0.00001);
    let (loose_words, _) = analyze(&pipeline, PASSAGE, 0.0001);
    assert!(
        strict_words.len() < loose_words.len(),
        "Stricter threshold (0.00001) should yield fewer words ({}) than looser (0.0001) threshold ({})",
        strict_words.len(),
        loose_words.len()
    );
}

#[test]
fn raising_threshold_keeps_every_result() {
    let pipeline = pipeline();
    let (strict_words, _) = analyze(&pipeline, PASSAGE, 0.00001);
    let (loose_words, _) = analyze(&pipeline, PASSAGE, 0.0001);
    let loose: HashSet<String> = loose_words.iter().map(|w| w.word.clone()).collect();
    for w in &strict_words {
        assert!(loose.contains(&w.word));
    }
}

#[test]
fn test_contexts_are_captured() {
    let pipeline = pipeline();
    let (hard_words, _stats) = analyze(&pipeline, PASSAGE, 0.00005);
    assert!(!hard_words.is_empty());
    let words_with_context = hard_words.iter().filter(|w| !w.contexts.is_empty()).count();
    let context_ratio = words_with_context as f64 / hard_words.len() as f64;
    assert!(context_ratio >= 0.90, "Expected at least 90% of words to have context");
    let mut short_contexts = 0;
    let mut total_contexts = 0;
    for word in hard_words.iter() {
        for ctx in &word.contexts {
            total_contexts += 1;
            if ctx.len() <= 10 {
                short_contexts += 1;
            }
        }
    }
    let short_ratio = short_contexts as f64 / total_contexts.max(1) as f64;
    assert!(short_ratio <= 0.01, "Too many short contexts");
}

#[test]
fn contexts_are_cleaned_sentences() {
    let pipeline = pipeline();
    let text = "We   spoke of\u{a0}ephemeral&nbsp;things for an hour! Short ephemeral.";
    let (hard_words, _stats) = analyze(&pipeline, text, 0.00005);
    let w = hard_words.iter().find(|w| w.word == "ephemeral").expect("ephemeral found");
    assert_eq!(w.contexts, vec!["We spoke of ephemeral things for an hour".to_string()]);
    assert_eq!(w.count, 2);
}

#[test]
fn test_word_variants_tracked() {
    let pipeline = pipeline();
    let text = "
        The gaiety of the party was infectious. Such gaieties were rare.
        Her felicitous remarks brought felicity to all. Most felicitously done.
    ";
    let (hard_words, _stats) = analyze(&pipeline, text, 0.00005);
    let gaiety_entry = hard_words.iter().find(|w| {
        w.word == "gaiety" || w.word == "gaieties" || w.variants.contains(&"gaiety".to_string())
    });
    let entry = gaiety_entry.expect("gaiety found");
    let all_forms: HashSet<String> = {
        let mut forms = entry.variants.clone();
        forms.push(entry.word.clone());
        forms.into_iter().collect()
    };
    assert!(all_forms.contains("gaiety") || all_forms.contains("gaieties"));
    assert_eq!(entry.word, "gaiety");
    assert_eq!(entry.variants, vec!["gaieties".to_string()]);
    assert_eq!(entry.count, 2);
}

#[test]
fn test_valid_dictionary_words_not_filtered_as_malformed() {
    let pipeline = pipeline();
    let text = "
        She favorites all her neighboring friends who traveled far.
        The indifferent observer noticed the unfortunate circumstances.
        Professionals demonstrated their understanding of the situation.
    ";
    let (hard_words, _stats) = analyze(&pipeline, text, 0.00005);
    assert!(!hard_words.is_empty(), "Should have found some hard words in the test text.");
}

#[test]
fn dictionary_words_are_never_malformed() {
    let pipeline = pipeline();
    for w in ["favorites", "neighboring", "traveled", "indifferent", "unfortunate", "professionals"] {
        let chars: Vec<char> = w.chars().collect();
        assert!(!pipeline.is_malformed_word(&chars), "{} judged malformed", w);
    }
}

#[test]
fn glued_words_are_malformed() {
    let pipeline = pipeline();
    let glued: Vec<char> = "meetshimself".chars().collect();
    assert!(pipeline.is_malformed_word(&glued));
    let short: Vec<char> = "isabout".chars().collect();
    assert!(!pipeline.is_malformed_word(&short));
}

#[test]
fn glued_to_common_tail_is_malformed_without_segmenter() {
    let pipeline = NlpPipeline::new(dictionary(), None);
    let w: Vec<char> = "believesthat's".chars().collect();
    assert!(pipeline.is_malformed_word(&w));
    let plain: Vec<char> = "mirrorthe".chars().collect();
    assert!(!pipeline.is_malformed_word(&plain));
    let four: Vec<char> = "lovethat's".chars().collect();
    assert!(pipeline.is_malformed_word(&four));
}

#[test]
fn scores_are_positive_and_within_threshold() {
    let pipeline = pipeline();
    let (hard_words, _stats) = analyze(&pipeline, PASSAGE, 0.00005);
    assert!(!hard_words.is_empty());
    for w in &hard_words {
        let f = f32::from_bits(w.frequency_score);
        assert!(f > 0.0 && f <= 0.00005, "{} scored {}", w.word, f);
    }
}

#[test]
fn results_are_kept_tokens() {
    let pipeline = pipeline();
    let text = "The 4th ephemeral item and 3rd sanguine ox at 2pm were here today.";
    let (hard_words, _stats) = analyze(&pipeline, text, 0.00005);
    for w in &hard_words {
        assert!(w.word.chars().count() >= 3 && !w.word.chars().any(|c| c.is_numeric()));
        for v in &w.variants {
            assert!(v.chars().count() >= 3 && !v.chars().any(|c| c.is_numeric()));
        }
    }
    assert_eq!(hard_words.len(), 2);
}

#[test]
fn results_are_rarest_first() {
    let pipeline = pipeline();
    let (hard_words, _stats) = analyze(&pipeline, PASSAGE, 0.0001);
    for pair in hard_words.windows(2) {
        assert!(f32::from_bits(pair[0].frequency_score) <= f32::from_bits(pair[1].frequency_score));
    }
    assert_eq!(hard_words[0].word, "importunate");
}

#[test]
fn analysis_is_repeatable() {
    let pipeline = pipeline();
    let (a, sa) = analyze(&pipeline, PASSAGE, 0.00005);
    let (b, sb) = analyze(&pipeline, PASSAGE, 0.00005);
    assert_eq!(a.len(), b.len());
    for (x, y) in a.iter().zip(b.iter()) {
        assert_eq!(x.word, y.word);
        assert_eq!(x.frequency_score, y.frequency_score);
        assert_eq!(x.contexts, y.contexts);
        assert_eq!(x.count, y.count);
        assert_eq!(x.variants, y.variants);
    }
    assert_eq!(sa.total_candidates, sb.total_candidates);
    assert_eq!(sa.hard_words_count, a.len());
}

#[test]
fn cancelled_before_start() {
    let pipeline = pipeline();
    let flag = AtomicBool::new(true);
    let mut events = ProgressLog::new(Vec::<AnalysisProgress>::new());
    let r = pipeline.prepare(PASSAGE, threshold(0.00005), Some(&flag), &mut events);
    assert!(matches!(r, Err(AnalysisError::Cancelled)));
    assert!(events.into_sink().is_empty());
}

#[test]
fn cancelled_before_scoring() {
    let pipeline = pipeline();
    let flag = AtomicBool::new(false);
    let mut events = ProgressLog::new(Vec::<AnalysisProgress>::new());
    let prepared = match pipeline.prepare(PASSAGE, threshold(0.00005), Some(&flag), &mut events) {
        Ok(p) => p,
        Err(e) => panic!("prepare failed: {:?}", e),
    };
    flag.store(true, Ordering::SeqCst);
    assert_eq!(checkpoint(Some(&flag)), Err(AnalysisError::Cancelled));
    assert_eq!(checkpoint(None), Ok(()));
    let r = prepared.finish(&pipeline, Some(&flag), &mut events);
    assert!(matches!(r, Err(AnalysisError::Cancelled)));
}

#[test]
fn missing_segmenter_fails_the_run() {
    let pipeline = NlpPipeline::new(dictionary(), None);
    let flag = AtomicBool::new(false);
    let mut events = ProgressLog::new(Vec::<AnalysisProgress>::new());
    let r = pipeline.prepare(PASSAGE, threshold(0.00005), Some(&flag), &mut events);
    assert!(matches!(r, Err(AnalysisError::ResourceUnavailable)));
}

#[test]
fn empty_text_gives_no_words() {
    let pipeline = pipeline();
    let (hard_words, stats) = analyze(&pipeline, "", 0.00005);
    assert!(hard_words.is_empty());
    assert_eq!(stats.total_candidates, 0);
    let (hard_words, _) = analyze(&pipeline, " . ! ? ", 0.00005);
    assert!(hard_words.is_empty());
}

#[test]
fn progress_is_staged_and_non_decreasing() {
    let pipeline = pipeline();
    let mut events = ProgressLog::new(Vec::<AnalysisProgress>::new());
    run_full(&pipeline, NAMES_TEXT, 0.00005, Some(mock_entities), &mut events).unwrap();
    let events = events.into_sink();
    assert_eq!(events[0].stage, "Analyzing text");
    assert_eq!(events[0].progress, 20);
    assert_eq!(events[0].detail.as_deref(), Some("6 sentences"));
    assert_eq!(events[1].progress, 40);
    assert_eq!(events.last().unwrap().stage, "Complete");
    assert_eq!(events.last().unwrap().progress, 100);
    for pair in events.windows(2) {
        assert!(pair[0].progress <= pair[1].progress);
    }
}

#[test]
fn run_without_flag_always_completes() {
    let pipeline = pipeline();
    let mut events = ProgressLog::new(Vec::<AnalysisProgress>::new());
    let prepared = match pipeline.prepare(MALFORMED_TEXT, threshold(0.00005), None, &mut events) {
        Ok(p) => p,
        Err(e) => panic!("prepare failed: {:?}", e),
    };
    assert!(prepared.require_entity_model(false).is_ok());
    let (words, stats) = prepared.finish(&pipeline, None, &mut events).expect("finish failed");
    assert_eq!(stats.hard_words_count, words.len());
    let found: Vec<&str> = words.iter().map(|w| w.word.as_str()).collect();
    assert_eq!(found, vec!["ephemeral", "sanguine"]);
}

#[test]
fn capitalised_words_are_lowercased() {
    let pipeline = pipeline();
    let (hard_words, _stats) = analyze(&pipeline, "They spoke of Ephemeral SANGUINE things today.", 0.00005);
    let found: Vec<&str> = hard_words.iter().map(|w| w.word.as_str()).collect();
    assert_eq!(found, vec!["ephemeral", "sanguine"]);
}

#[test]
fn no_segmenter_needed_for_short_words() {
    let pipeline = NlpPipeline::new(dictionary(), None);
    let mut events = ProgressLog::new(Vec::<AnalysisProgress>::new());
    let prepared = match pipeline.prepare("She was sanguine and amiable today.", threshold(0.00005), None, &mut events) {
        Ok(p) => p,
        Err(e) => panic!("prepare failed: {:?}", e),
    };
    let (words, _) = prepared.finish(&pipeline, None, &mut events).expect("finish failed");
    let found: Vec<&str> = words.iter().map(|w| w.word.as_str()).collect();
    assert_eq!(found, vec!["amiable", "sanguine"]);
    let mut fresh = ProgressLog::new(Vec::<AnalysisProgress>::new());
    let empty = pipeline.prepare("", threshold(0.00005), None, &mut fresh);
    assert!(empty.is_ok());
}

#[test]
fn filtered_names_are_counted() {
    let pipeline = pipeline();
    let (hard_words, stats) = analyze(&pipeline, NAMES_TEXT, 0.00005);
    assert_eq!(stats.total_candidates, hard_words.len() + stats.filtered_by_ner.len());
    for f in &stats.filtered_by_ner {
        assert!(["elizabeth", "bennet", "darcy", "london", "pemberley", "meryton", "jane", "collins", "hunsford"]
            .contains(&f.as_str()));
    }
}

#[test]
fn segmentation_dictionary_takes_only_counted_lines() {
    let glued: Vec<char> = "meetshimself".chars().collect();
    let good = vec!["meets 5".to_string(), "himself +5".to_string()];
    let pipeline = NlpPipeline::new(dictionary(), Some(segmenter_from_lines(&good)));
    assert!(pipeline.is_malformed_word(&glued));
    let bad = vec!["meets x".to_string(), "himself".to_string(), "meets 0".to_string(), "himself -3".to_string()];
    let pipeline = NlpPipeline::new(dictionary(), Some(segmenter_from_lines(&bad)));
    assert!(!pipeline.is_malformed_word(&glued));
}

#[test]
fn batch_events_report_counts_and_new_names() {
    let pipeline = pipeline();
    let mut log = ProgressLog::new(Vec::<AnalysisProgress>::new());
    let mut prepared = match pipeline.prepare(NAMES_TEXT, threshold(0.00005), None, &mut log) {
        Ok(p) => p,
        Err(e) => panic!("prepare failed: {:?}", e),
    };
    assert_eq!(prepared.entity_sentence_count(), 5);
    let batch = prepared.start_batch(None).expect("not cancelled");
    assert_eq!(batch.len(), 5);
    let ev = prepared.absorb_batch(&mock_entities(&batch));
    assert_eq!(ev.detail.as_deref(), Some("5 of 5 sentences, 10 names found"));
    let samples = ev.sample_words.expect("samples");
    let recent: HashSet<String> = samples.iter().take(10).map(|s| s.word.clone()).collect();
    assert!(samples.iter().take(10).all(|s| s.is_entity));
    for k in ["elizabeth bennet", "elizabeth", "bennet", "darcy", "london", "pemberley", "meryton", "jane", "collins", "hunsford"] {
        assert!(recent.contains(k), "{} missing from the recent names", k);
    }
    assert_eq!(samples.len(), 15);
    assert!(samples.iter().skip(10).all(|s| s.is_entity));
    assert!(!prepared.has_pending_batch());
}

#[test]
fn batches_hold_at_most_sixty_four_sentences() {
    let pipeline = pipeline();
    let mut text = String::new();
    for i in 0..70 {
        text.push_str(&format!("Today we met Darcy in the old town {}. ", i));
    }
    let mut log = ProgressLog::new(Vec::<AnalysisProgress>::new());
    let mut prepared = match pipeline.prepare(&text, threshold(0.00005), None, &mut log) {
        Ok(p) => p,
        Err(e) => panic!("prepare failed: {:?}", e),
    };
    assert_eq!(prepared.entity_sentence_count(), 70);
    let first = prepared.start_batch(None).expect("not cancelled");
    assert_eq!(first.len(), 64);
    prepared.absorb_batch(&Vec::new());
    let second = prepared.start_batch(None).expect("not cancelled");
    assert_eq!(second.len(), 6);
}

#[test]
fn contexts_are_distinct_after_cleaning() {
    let pipeline = pipeline();
    let text = "We  spoke of ephemeral things here today. We spoke of ephemeral  things here today.";
    let (hard_words, _stats) = analyze(&pipeline, text, 0.00005);
    let w = hard_words.iter().find(|w| w.word == "ephemeral").expect("ephemeral found");
    assert_eq!(w.contexts, vec!["We spoke of ephemeral things here today".to_string()]);
    assert_eq!(w.count, 2);
}

#[test]
fn twenty_character_sentences_are_contexts() {
    let pipeline = pipeline();
    let (hard_words, _stats) = analyze(&pipeline, "An ephemeral joy now.", 0.00005);
    let w = hard_words.iter().find(|w| w.word == "ephemeral").expect("ephemeral found");
    assert_eq!(w.contexts, vec!["An ephemeral joy now".to_string()]);
}

#[test]
fn cancel_outcome_follows_the_flag() {
    assert_eq!(lexis::analysis::cancel_outcome(true), Err(AnalysisError::Cancelled));
    assert_eq!(lexis::analysis::cancel_outcome(false), Ok(()));
}

#[test]
fn accented_glued_words_are_malformed() {
    let pipeline = pipeline();
    let glued: Vec<char> = "meetshimsélf".chars().collect();
    assert!(pipeline.is_malformed_word(&glued));
    let cyrillic: Vec<char> = "встречаетсебя".chars().collect();
    assert!(!pipeline.is_malformed_word(&cyrillic));
}
