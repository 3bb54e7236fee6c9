use voxtype::float32::Float32;
use voxtype::meeting::diarization::clusters::cluster_windows;
use voxtype::meeting::diarization::embedding::{
    embedding_output, model_threads, threads_for, EmbeddingDiarizer, EmbeddingError, ModelFile,
};
use voxtype::meeting::diarization::plan::PlannedWindow;
use voxtype::meeting::diarization::runs::speaker_runs;
use voxtype::meeting::diarization::split::split_text_by_runs;
use voxtype::meeting::diarization::vectors::cosine_similarity;
use voxtype::meeting::diarization::windows::{speaker_scores, SpeakerWindow};
use voxtype::meeting::diarization::{DiarizationConfig, DiarizedSegment, SpeakerId};
use voxtype::meeting::{AudioSource, TranscriptSegment};

fn of(x: f32) -> Float32 {
    Float32::from_bits(x.to_bits())
}

fn value(x: Float32) -> f32 {
    f32::from_bits(x.to_bits())
}

fn all(v: &[f32]) -> Vec<Float32> {
    v.iter().map(|x| of(*x)).collect()
}

fn bits(v: &[Float32]) -> Vec<u32> {
    v.iter().map(|x| x.to_bits()).collect()
}

fn window(start_ms: u64, end_ms: u64, speaker: SpeakerId, confidence: f32, e: &[f32]) -> SpeakerWindow {
    SpeakerWindow {
        start_ms,
        end_ms,
        speaker: speaker.clone(),
        confidence: of(confidence),
        embedding: all(e),
        initial_speaker: speaker,
        initial_confidence: of(confidence),
    }
}

fn segment(start_ms: u64, end_ms: u64, text: &str) -> TranscriptSegment {
    TranscriptSegment::new(0, start_ms, end_ms, text.to_string(), 0)
}

#[test]
fn test_default_model_path_uses_large_wespeaker_model() {
    let path = EmbeddingDiarizer::default_model_path("wespeaker-resnet221-lm");
    assert!(path.ends_with("voxceleb_resnet221_LM.onnx"));
}

#[test]
fn test_best_matching_centroid_reuses_existing_speaker() {
    let config = DiarizationConfig::default();
    let mut diarizer = EmbeddingDiarizer::new(&config);

    let speaker = diarizer.create_speaker(&all(&[1.0, 0.0, 0.0])).expect("speaker");
    let (idx, score) = diarizer
        .best_matching_centroid(&all(&[0.95, 0.05, 0.0]))
        .expect("match");

    assert_eq!(speaker, SpeakerId::Auto(0));
    assert_eq!(diarizer.centroids[idx].id, 0);
    assert!(value(score) >= value(diarizer.uncertain_threshold));
}

#[test]
fn test_provisional_speaker_requires_confident_match() {
    let config = DiarizationConfig::default();
    let mut diarizer = EmbeddingDiarizer::new(&config);
    diarizer.create_speaker(&all(&[1.0, 0.0, 0.0])).expect("speaker");

    let (speaker, confidence) = diarizer.provisional_speaker_for_embedding(&all(&[0.2, 0.98, 0.0]));

    assert_eq!(speaker, SpeakerId::Remote);
    assert_eq!(value(confidence), 0.0);
}

#[test]
fn test_refresh_matched_centroids_updates_existing_speaker() {
    let config = DiarizationConfig::default();
    let mut diarizer = EmbeddingDiarizer::new(&config);
    diarizer.create_speaker(&all(&[1.0, 0.0, 0.0])).expect("speaker");

    let windows = vec![SpeakerWindow {
        start_ms: 0,
        end_ms: 1_500,
        speaker: SpeakerId::Auto(0),
        confidence: of(0.9),
        embedding: all(&[0.8, 0.2, 0.0]),
        initial_speaker: SpeakerId::Auto(0),
        initial_confidence: of(0.9),
    }];

    diarizer.refresh_matched_centroids(&windows);

    assert!(value(diarizer.centroids[0].vector[1]) > 0.0);
}

#[test]
fn test_dominant_speaker_for_range_prefers_weighted_overlap() {
    let diarizer = EmbeddingDiarizer::new(&DiarizationConfig::default());
    let windows = vec![
        SpeakerWindow {
            start_ms: 0,
            end_ms: 1_500,
            speaker: SpeakerId::Auto(0),
            confidence: of(0.9),
            embedding: all(&[1.0, 0.0]),
            initial_speaker: SpeakerId::Auto(0),
            initial_confidence: of(0.9),
        },
        SpeakerWindow {
            start_ms: 1_000,
            end_ms: 2_500,
            speaker: SpeakerId::Auto(1),
            confidence: of(0.4),
            embedding: all(&[0.0, 1.0]),
            initial_speaker: SpeakerId::Auto(1),
            initial_confidence: of(0.4),
        },
    ];

    let (speaker, confidence) = diarizer
        .dominant_speaker_for_range(500, 2_000, &windows)
        .expect("speaker");

    assert_eq!(speaker, SpeakerId::Auto(0));
    assert!(value(confidence) > 0.5);
}

#[test]
fn test_promote_unknown_runs_requires_multiple_windows() {
    let config = DiarizationConfig::default();
    let mut diarizer = EmbeddingDiarizer::new(&config);
    let mut windows = vec![SpeakerWindow {
        start_ms: 0,
        end_ms: 1_500,
        speaker: SpeakerId::Remote,
        confidence: of(0.0),
        embedding: all(&[1.0, 0.0]),
        initial_speaker: SpeakerId::Remote,
        initial_confidence: of(0.0),
    }];

    diarizer.promote_unknown_runs(&mut windows);

    assert_eq!(windows[0].speaker, SpeakerId::Remote);
    assert!(diarizer.centroids.is_empty());
}

#[test]
fn test_promote_unknown_runs_reuses_returning_speaker() {
    let config = DiarizationConfig::default();
    let mut diarizer = EmbeddingDiarizer::new(&config);
    let mut windows = vec![
        SpeakerWindow {
            start_ms: 0,
            end_ms: 1_500,
            speaker: SpeakerId::Remote,
            confidence: of(0.0),
            embedding: all(&[1.0, 0.0]),
            initial_speaker: SpeakerId::Remote,
            initial_confidence: of(0.0),
        },
        SpeakerWindow {
            start_ms: 375,
            end_ms: 1_875,
            speaker: SpeakerId::Remote,
            confidence: of(0.0),
            embedding: all(&[0.98, 0.02]),
            initial_speaker: SpeakerId::Remote,
            initial_confidence: of(0.0),
        },
        SpeakerWindow {
            start_ms: 750,
            end_ms: 2_250,
            speaker: SpeakerId::Remote,
            confidence: of(0.0),
            embedding: all(&[0.0, 1.0]),
            initial_speaker: SpeakerId::Remote,
            initial_confidence: of(0.0),
        },
        SpeakerWindow {
            start_ms: 1_125,
            end_ms: 2_625,
            speaker: SpeakerId::Remote,
            confidence: of(0.0),
            embedding: all(&[0.02, 0.98]),
            initial_speaker: SpeakerId::Remote,
            initial_confidence: of(0.0),
        },
        SpeakerWindow {
            start_ms: 1_500,
            end_ms: 3_000,
            speaker: SpeakerId::Remote,
            confidence: of(0.0),
            embedding: all(&[1.0, 0.0]),
            initial_speaker: SpeakerId::Remote,
            initial_confidence: of(0.0),
        },
        SpeakerWindow {
            start_ms: 1_875,
            end_ms: 3_375,
            speaker: SpeakerId::Remote,
            confidence: of(0.0),
            embedding: all(&[0.97, 0.03]),
            initial_speaker: SpeakerId::Remote,
            initial_confidence: of(0.0),
        },
    ];

    diarizer.promote_unknown_runs(&mut windows);

    assert_eq!(diarizer.centroids.len(), 2);
    assert_eq!(windows[0].speaker, SpeakerId::Auto(0));
    assert_eq!(windows[1].speaker, SpeakerId::Auto(0));
    assert_eq!(windows[2].speaker, SpeakerId::Auto(1));
    assert_eq!(windows[3].speaker, SpeakerId::Auto(1));
    assert_eq!(windows[4].speaker, SpeakerId::Auto(0));
    assert_eq!(windows[5].speaker, SpeakerId::Auto(0));
}

#[test]
fn test_segment_speaker_for_range_marks_ambiguous_overlap_as_remote() {
    let diarizer = EmbeddingDiarizer::new(&DiarizationConfig::default());
    let windows = vec![
        SpeakerWindow {
            start_ms: 0,
            end_ms: 1_500,
            speaker: SpeakerId::Auto(0),
            confidence: of(0.9),
            embedding: all(&[1.0, 0.0]),
            initial_speaker: SpeakerId::Auto(0),
            initial_confidence: of(0.9),
        },
        SpeakerWindow {
            start_ms: 1_000,
            end_ms: 2_500,
            speaker: SpeakerId::Auto(1),
            confidence: of(0.85),
            embedding: all(&[0.0, 1.0]),
            initial_speaker: SpeakerId::Auto(1),
            initial_confidence: of(0.85),
        },
    ];

    let (speaker, confidence) = diarizer.segment_speaker_for_range(500, 2_000, &windows);

    assert_eq!(speaker, SpeakerId::Remote);
    assert!(value(confidence) > 0.4);
}

#[test]
fn test_reset_clears_centroids() {
    let config = DiarizationConfig::default();
    let mut diarizer = EmbeddingDiarizer::new(&config);
    diarizer.create_speaker(&all(&[1.0, 0.0, 0.0])).expect("speaker");

    diarizer.reset();

    assert!(diarizer.centroids.is_empty());
}

#[test]
fn test_refresh_matched_centroids_ignores_smoothed_low_confidence_windows() {
    let config = DiarizationConfig::default();
    let mut diarizer = EmbeddingDiarizer::new(&config);
    diarizer.create_speaker(&all(&[1.0, 0.0, 0.0])).expect("speaker");

    let baseline = diarizer.centroids[0].vector.clone();
    let windows = vec![SpeakerWindow {
        start_ms: 0,
        end_ms: 1_500,
        speaker: SpeakerId::Auto(0),
        confidence: of(0.95),
        embedding: all(&[0.0, 1.0, 0.0]),
        initial_speaker: SpeakerId::Remote,
        initial_confidence: of(0.0),
    }];

    diarizer.refresh_matched_centroids(&windows);

    assert_eq!(bits(&diarizer.centroids[0].vector), bits(&baseline));
}

#[test]
fn test_split_segment_by_speaker_runs_splits_clear_two_speaker_turn() {
    let diarizer = EmbeddingDiarizer::new(&DiarizationConfig::default());
    let segment = TranscriptSegment {
        id: 0,
        start_ms: 0,
        end_ms: 4_000,
        text: "First speaker says hello. Second speaker answers back.".to_string(),
        source: AudioSource::Loopback,
        speaker_id: None,
        speaker_label: None,
        confidence: None,
        chunk_id: 0,
    };
    let windows = vec![
        SpeakerWindow {
            start_ms: 0,
            end_ms: 2_000,
            speaker: SpeakerId::Auto(0),
            confidence: of(0.95),
            embedding: all(&[1.0, 0.0]),
            initial_speaker: SpeakerId::Auto(0),
            initial_confidence: of(0.95),
        },
        SpeakerWindow {
            start_ms: 2_000,
            end_ms: 4_000,
            speaker: SpeakerId::Auto(1),
            confidence: of(0.96),
            embedding: all(&[0.0, 1.0]),
            initial_speaker: SpeakerId::Auto(1),
            initial_confidence: of(0.96),
        },
    ];

    let diarized = diarizer.split_segment_by_speaker_runs(&segment, &windows);

    assert_eq!(diarized.len(), 2);
    assert_eq!(diarized[0].speaker, SpeakerId::Auto(0));
    assert_eq!(diarized[1].speaker, SpeakerId::Auto(1));
    assert!(diarized[0].text.contains("First speaker says hello"));
    assert!(diarized[1].text.contains("Second speaker answers back"));
}

#[test]
fn test_split_segment_by_speaker_runs_does_not_split_without_sentence_evidence() {
    let diarizer = EmbeddingDiarizer::new(&DiarizationConfig::default());
    let segment = TranscriptSegment {
        id: 0,
        start_ms: 0,
        end_ms: 4_000,
        text: "First speaker says hello and second speaker answers back".to_string(),
        source: AudioSource::Loopback,
        speaker_id: None,
        speaker_label: None,
        confidence: None,
        chunk_id: 0,
    };
    let windows = vec![
        SpeakerWindow {
            start_ms: 0,
            end_ms: 2_000,
            speaker: SpeakerId::Auto(0),
            confidence: of(0.95),
            embedding: all(&[1.0, 0.0]),
            initial_speaker: SpeakerId::Auto(0),
            initial_confidence: of(0.95),
        },
        SpeakerWindow {
            start_ms: 2_000,
            end_ms: 4_000,
            speaker: SpeakerId::Auto(1),
            confidence: of(0.96),
            embedding: all(&[0.0, 1.0]),
            initial_speaker: SpeakerId::Auto(1),
            initial_confidence: of(0.96),
        },
    ];

    let diarized = diarizer.split_segment_by_speaker_runs(&segment, &windows);

    assert_eq!(diarized.len(), 1);
    assert_eq!(diarized[0].speaker, SpeakerId::Remote);
    assert_eq!(diarized[0].text, segment.text);
}

#[test]
fn test_absorb_low_information_segments_relabels_sandwiched_backchannel() {
    let diarizer = EmbeddingDiarizer::new(&DiarizationConfig::default());
    let mut segments = vec![
        DiarizedSegment {
            speaker: SpeakerId::Auto(0),
            start_ms: 0,
            end_ms: 5_000,
            text: "Longer response from the main speaker.".to_string(),
            confidence: of(0.95),
        },
        DiarizedSegment {
            speaker: SpeakerId::Auto(1),
            start_ms: 5_100,
            end_ms: 5_900,
            text: "Yeah.".to_string(),
            confidence: of(1.0),
        },
        DiarizedSegment {
            speaker: SpeakerId::Auto(0),
            start_ms: 6_000,
            end_ms: 11_000,
            text: "Another longer response from the main speaker.".to_string(),
            confidence: of(0.94),
        },
    ];

    diarizer.absorb_low_information_segments(&mut segments);

    assert_eq!(segments[1].speaker, SpeakerId::Auto(0));
}

#[test]
fn test_absorb_low_information_segments_preserves_distinct_longer_turn() {
    let diarizer = EmbeddingDiarizer::new(&DiarizationConfig::default());
    let mut segments = vec![
        DiarizedSegment {
            speaker: SpeakerId::Auto(0),
            start_ms: 0,
            end_ms: 5_000,
            text: "Longer response from the main speaker.".to_string(),
            confidence: of(0.95),
        },
        DiarizedSegment {
            speaker: SpeakerId::Auto(1),
            start_ms: 5_100,
            end_ms: 10_500,
            text: "A materially different turn with enough words to stand on its own."
                .to_string(),
            confidence: of(0.97),
        },
        DiarizedSegment {
            speaker: SpeakerId::Auto(0),
            start_ms: 10_700,
            end_ms: 15_000,
            text: "Another longer response from the main speaker.".to_string(),
            confidence: of(0.94),
        },
    ];

    diarizer.absorb_low_information_segments(&mut segments);

    assert_eq!(segments[1].speaker, SpeakerId::Auto(1));
}

#[test]
fn model_paths() {
    assert_eq!(
        EmbeddingDiarizer::default_model_path("wespeaker-resnet34"),
        "wespeaker-resnet34/voxceleb_resnet34.onnx"
    );
    let mut config = DiarizationConfig::default();
    config.model = "  ".to_string();
    let diarizer = EmbeddingDiarizer::new(&config);
    assert_eq!(diarizer.resolved_model_name(), "wespeaker-resnet221-lm");
    assert!(matches!(
        diarizer.resolved_model_path(),
        ModelFile::InModels(path) if path == "wespeaker-resnet221-lm/voxceleb_resnet221_LM.onnx"
    ));
    config.model_path = Some("/tmp/model.onnx".to_string());
    let diarizer = EmbeddingDiarizer::new(&config);
    assert!(matches!(
        diarizer.resolved_model_path(),
        ModelFile::At(path) if path == "/tmp/model.onnx"
    ));
    assert_eq!(diarizer.name(), "embedding");
}

#[test]
fn threads_are_limited() {
    assert_eq!(threads_for(1), 1);
    assert_eq!(threads_for(3), 3);
    assert_eq!(threads_for(4), 4);
    assert_eq!(threads_for(64), 4);
    let here = model_threads();
    assert!(1 <= here && here <= 4);
    assert_eq!(here, num_cpus::get().min(4));
}

#[test]
fn outputs_are_preferred_in_order() {
    let names = |v: &[&str]| -> Vec<String> { v.iter().map(|s| s.to_string()).collect() };
    assert_eq!(embedding_output(&names(&["output", "embs"])).unwrap(), "embs");
    assert_eq!(embedding_output(&names(&["output", "embedding"])).unwrap(), "embedding");
    assert_eq!(embedding_output(&names(&["x", "output"])).unwrap(), "output");
    assert_eq!(embedding_output(&names(&["x"])).unwrap_err(), EmbeddingError::NoOutput);
    assert_eq!(
        EmbeddingError::NoOutput.message(),
        "No embedding output found in ONNX model"
    );
    assert_eq!(
        EmbeddingError::TooShort.message(),
        "audio too short for embedding extraction"
    );
    assert_eq!(
        EmbeddingError::NoFrames.message(),
        "audio too short for filterbank extraction"
    );
    assert_eq!(EmbeddingError::NotLoaded.message(), "speaker embedding model not loaded");
}

#[test]
fn clips_are_taken_from_the_middle() {
    let diarizer = EmbeddingDiarizer::new(&DiarizationConfig::default());
    assert_eq!(diarizer.min_segment_samples(), 8_000);
    assert_eq!(diarizer.clip(7_999), Err(EmbeddingError::TooShort));
    assert_eq!(diarizer.clip(8_000), Ok((0, 8_000)));
    assert_eq!(diarizer.clip(24_000), Ok((0, 24_000)));
    assert_eq!(diarizer.clip(30_001), Ok((3_000, 27_000)));
}

#[test]
fn hop_is_a_quarter_of_the_window() {
    let hop = |secs: f32| -> u64 {
        let mut config = DiarizationConfig::default();
        config.window_secs = of(secs);
        EmbeddingDiarizer::new(&config).speaker_hop_ms()
    };
    assert_eq!(hop(1.5), 375);
    assert_eq!(hop(0.5), 250);
    assert_eq!(hop(10.0), 500);
    assert_eq!(hop(f32::NAN), 250);
}

#[test]
fn planned_windows_span_the_chunk() {
    let diarizer = EmbeddingDiarizer::new(&DiarizationConfig::default());
    let segments = vec![segment(1_000, 4_000, "x")];
    let plan = diarizer.plan_windows(37_000, 1_000, AudioSource::Loopback, &segments);
    let starts: Vec<usize> = plan.iter().map(|w| w.start_sample).collect();
    assert_eq!(starts, vec![0, 6_000, 12_000, 13_000]);
    assert_eq!(
        plan[3],
        PlannedWindow { start_sample: 13_000, end_sample: 37_000, start_ms: 1_812, end_ms: 3_312 }
    );
    assert!(diarizer
        .plan_windows(37_000, 1_000, AudioSource::Microphone, &segments)
        .is_empty());
    assert!(diarizer.plan_windows(37_000, 1_000, AudioSource::Loopback, &[]).is_empty());
    assert!(diarizer
        .plan_windows(7_999, 1_000, AudioSource::Loopback, &segments)
        .is_empty());
    let one = diarizer.plan_windows(10_000, 1_000, AudioSource::Loopback, &segments);
    assert_eq!(
        one,
        vec![PlannedWindow { start_sample: 0, end_sample: 10_000, start_ms: 1_000, end_ms: 1_625 }]
    );
}

#[test]
fn planned_windows_meet_a_segment() {
    let diarizer = EmbeddingDiarizer::new(&DiarizationConfig::default());
    let segments = vec![segment(0, 200, "x")];
    let plan = diarizer.plan_windows(160_000, 0, AudioSource::Loopback, &segments);
    assert_eq!(plan.len(), 1);
    assert_eq!(plan[0].start_ms, 0);
}

#[test]
fn windows_without_embedding_are_left_out() {
    let mut diarizer = EmbeddingDiarizer::new(&DiarizationConfig::default());
    diarizer.create_speaker(&all(&[1.0, 0.0])).unwrap();
    let plan = vec![
        PlannedWindow { start_sample: 0, end_sample: 1, start_ms: 10, end_ms: 20 },
        PlannedWindow { start_sample: 1, end_sample: 2, start_ms: 30, end_ms: 40 },
        PlannedWindow { start_sample: 2, end_sample: 3, start_ms: 50, end_ms: 60 },
    ];
    let windows = diarizer.label_windows(
        &plan,
        vec![Some(all(&[2.0, 0.0])), None, Some(all(&[0.0, 1.0]))],
    );
    assert_eq!(windows.len(), 2);
    assert_eq!(windows[0].speaker, SpeakerId::Auto(0));
    assert_eq!(value(windows[0].confidence), 1.0);
    assert_eq!((windows[0].start_ms, windows[0].end_ms), (10, 20));
    assert_eq!(windows[1].speaker, SpeakerId::Remote);
    assert_eq!((windows[1].start_ms, windows[1].end_ms), (50, 60));
}

#[test]
fn cosine_of_vectors() {
    assert_eq!(value(cosine_similarity(&all(&[3.0, 4.0]), &all(&[3.0, 4.0]))), 1.0);
    assert_eq!(value(cosine_similarity(&all(&[1.0, 0.0]), &all(&[0.0, 2.0]))), 0.0);
    assert_eq!(value(cosine_similarity(&all(&[1.0]), &all(&[1.0, 2.0]))), 0.0);
    assert_eq!(value(cosine_similarity(&all(&[]), &all(&[]))), 0.0);
    assert_eq!(value(cosine_similarity(&all(&[0.0]), &all(&[1.0]))), 0.0);
    let (a, b) = ([0.3f32, -0.7, 0.2], [0.1f32, 0.9, -0.4]);
    let dot: f32 = a.iter().zip(&b).map(|(x, y)| x * y).sum();
    let na: f32 = a.iter().map(|x| x * x).sum::<f32>().sqrt();
    let nb: f32 = b.iter().map(|x| x * x).sum::<f32>().sqrt();
    assert_eq!(value(cosine_similarity(&all(&a), &all(&b))), dot / (na * nb));
}

#[test]
fn the_best_match_is_the_first_of_the_most_similar() {
    let mut diarizer = EmbeddingDiarizer::new(&DiarizationConfig::default());
    diarizer.create_speaker(&all(&[0.0, 1.0])).unwrap();
    diarizer.create_speaker(&all(&[1.0, 0.0])).unwrap();
    diarizer.create_speaker(&all(&[2.0, 0.0])).unwrap();
    let (at, similarity) = diarizer.best_matching_centroid(&all(&[5.0, 0.0])).unwrap();
    assert_eq!(at, 1);
    assert_eq!(value(similarity), 1.0);
    let (_, negative) = diarizer.best_matching_centroid(&all(&[-1.0, -1.0])).unwrap();
    assert_eq!(value(negative), 0.0);
    assert!(diarizer.best_matching_centroid(&all(&[1.0])).is_none());
}

#[test]
fn speakers_are_numbered_up_to_the_limit() {
    let mut config = DiarizationConfig::default();
    config.max_speakers = 2;
    let mut diarizer = EmbeddingDiarizer::new(&config);
    assert_eq!(diarizer.create_speaker(&all(&[1.0])), Some(SpeakerId::Auto(0)));
    assert_eq!(diarizer.create_speaker(&all(&[2.0])), Some(SpeakerId::Auto(1)));
    assert_eq!(diarizer.create_speaker(&all(&[3.0])), None);
    assert_eq!(diarizer.centroids.len(), 2);
    assert_eq!(diarizer.centroids[1].id, 1);
}

#[test]
fn a_centroid_moves_by_a_twentieth() {
    let mut diarizer = EmbeddingDiarizer::new(&DiarizationConfig::default());
    diarizer.create_speaker(&all(&[1.0, 0.5])).unwrap();
    diarizer.refresh_matched_centroids(&vec![window(0, 10, SpeakerId::Auto(0), 0.9, &[0.2, 0.3])]);
    let alpha = 0.05f32;
    let expected =
        [(1.0 - alpha) * 1.0 + alpha * 0.2, (1.0 - alpha) * 0.5 + alpha * 0.3];
    assert_eq!(bits(&diarizer.centroids[0].vector), bits(&all(&expected)));
}

#[test]
fn alike_windows_form_one_cluster() {
    let windows = vec![
        window(0, 10, SpeakerId::Remote, 0.0, &[1.0, 0.0]),
        window(5, 15, SpeakerId::Remote, 0.0, &[0.8, 0.2]),
        window(10, 20, SpeakerId::Remote, 0.0, &[0.0, 1.0]),
    ];
    let clusters = cluster_windows(&windows, 0, 3, of(0.3));
    assert_eq!(clusters.len(), 2);
    assert_eq!((clusters[0].start_idx, clusters[0].end_idx), (0, 2));
    assert_eq!((clusters[1].start_idx, clusters[1].end_idx), (2, 3));
    assert_eq!(clusters[0].window_count(), 2);
    let expected = [(1.0f32 * 1.0 + 0.8) / 2.0, (0.0f32 * 1.0 + 0.2) / 2.0];
    assert_eq!(bits(&clusters[0].embedding), bits(&all(&expected)));
}

#[test]
fn promotion_leaves_attributed_windows_alone() {
    let mut diarizer = EmbeddingDiarizer::new(&DiarizationConfig::default());
    diarizer.create_speaker(&all(&[0.0, 1.0])).unwrap();
    let mut windows = vec![
        window(0, 1_500, SpeakerId::Remote, 0.0, &[1.0, 0.0]),
        window(300, 1_800, SpeakerId::Remote, 0.0, &[1.0, 0.0]),
        window(600, 2_100, SpeakerId::Auto(0), 0.7, &[0.0, 1.0]),
        window(900, 2_400, SpeakerId::Remote, 0.0, &[0.0, 1.0]),
    ];
    diarizer.promote_unknown_runs(&mut windows);
    assert_eq!(windows[0].speaker, SpeakerId::Auto(1));
    assert_eq!(value(windows[0].confidence), 0.8);
    assert_eq!(windows[2].speaker, SpeakerId::Auto(0));
    assert_eq!(value(windows[2].confidence), 0.7);
    assert_eq!(windows[3].speaker, SpeakerId::Auto(0));
    assert_eq!(value(windows[3].confidence), 1.0);
    assert_eq!((windows[3].start_ms, windows[3].end_ms), (900, 2_400));
    assert_eq!(diarizer.centroids.len(), 2);
}

#[test]
fn outliers_are_smoothed() {
    let diarizer = EmbeddingDiarizer::new(&DiarizationConfig::default());
    let mut windows = vec![
        window(0, 10, SpeakerId::Auto(0), 0.5, &[1.0]),
        window(5, 15, SpeakerId::Auto(1), 0.2, &[1.0]),
        window(10, 20, SpeakerId::Auto(0), 0.75, &[1.0]),
    ];
    diarizer.smooth_windows(&mut windows);
    assert_eq!(windows[1].speaker, SpeakerId::Auto(0));
    assert_eq!(value(windows[1].confidence), (0.5 + 0.75) / 2.0);
    assert_eq!(windows[1].initial_speaker, SpeakerId::Auto(1));
    let mut sure = vec![
        window(0, 10, SpeakerId::Auto(0), 0.5, &[1.0]),
        window(5, 15, SpeakerId::Auto(1), 0.3, &[1.0]),
        window(10, 20, SpeakerId::Auto(0), 0.75, &[1.0]),
    ];
    diarizer.smooth_windows(&mut sure);
    assert_eq!(sure[1].speaker, SpeakerId::Auto(1));
}

#[test]
fn a_stretch_without_windows_is_remote() {
    let diarizer = EmbeddingDiarizer::new(&DiarizationConfig::default());
    let windows = vec![window(0, 10, SpeakerId::Auto(0), 0.5, &[1.0])];
    assert!(diarizer.dominant_speaker_for_range(10, 20, &windows).is_none());
    assert!(diarizer.dominant_speaker_for_range(5, 5, &windows).is_none());
    let (speaker, confidence) = diarizer.segment_speaker_for_range(10, 20, &windows);
    assert_eq!(speaker, SpeakerId::Remote);
    assert_eq!(value(confidence), 0.0);
}

#[test]
fn runs_fill_the_stretch() {
    let windows = vec![
        window(0, 2_000, SpeakerId::Auto(0), 0.9, &[1.0]),
        window(2_000, 2_300, SpeakerId::Auto(1), 0.9, &[1.0]),
        window(2_300, 5_000, SpeakerId::Auto(0), 0.8, &[1.0]),
        window(5_000, 7_000, SpeakerId::Auto(2), 0.9, &[1.0]),
    ];
    let runs = speaker_runs(500, 6_500, &windows, of(0.3));
    assert_eq!(runs.len(), 2);
    assert_eq!((runs[0].start_ms, runs[0].end_ms), (500, 5_000));
    assert_eq!(runs[0].speaker, SpeakerId::Auto(0));
    assert_eq!((runs[1].start_ms, runs[1].end_ms), (5_000, 6_500));
    assert_eq!(runs[1].speaker, SpeakerId::Auto(2));
    assert!(speaker_runs(500, 500, &windows, of(0.3)).is_empty());
}

#[test]
fn splitting_keeps_the_sentences() {
    let diarizer = EmbeddingDiarizer::new(&DiarizationConfig::default());
    let text = " One.  Two! Three? Four. ";
    let windows = vec![
        window(0, 3_000, SpeakerId::Auto(0), 0.95, &[1.0]),
        window(3_000, 4_000, SpeakerId::Auto(1), 0.95, &[1.0]),
    ];
    let pieces = diarizer.split_segment_by_speaker_runs(&segment(0, 4_000, text), &windows);
    assert_eq!(pieces.len(), 2);
    assert_eq!(pieces[0].text, "One. Two! Three?");
    assert_eq!(pieces[1].text, "Four.");
    assert_eq!((pieces[0].start_ms, pieces[0].end_ms), (0, 3_000));
    assert_eq!((pieces[1].start_ms, pieces[1].end_ms), (3_000, 4_000));
    let runs = speaker_runs(0, 4_000, &windows, of(0.3));
    assert_eq!(split_text_by_runs("only one", &runs), None);
    assert_eq!(
        split_text_by_runs(" a. ", &speaker_runs(0, 1_000, &windows, of(0.3))),
        Some(vec!["a.".to_string()])
    );
}

#[test]
fn absorbing_keeps_times_and_texts() {
    let diarizer = EmbeddingDiarizer::new(&DiarizationConfig::default());
    let piece = |speaker: SpeakerId, start_ms: u64, end_ms: u64, confidence: f32| DiarizedSegment {
        speaker,
        start_ms,
        end_ms,
        text: "yes".to_string(),
        confidence: of(confidence),
    };
    let mut segments = vec![
        piece(SpeakerId::Auto(0), 0, 1_000, 0.5),
        piece(SpeakerId::Remote, 1_000, 2_000, 0.1),
        piece(SpeakerId::Auto(0), 2_000, 3_000, 0.75),
    ];
    diarizer.absorb_low_information_segments(&mut segments);
    assert_eq!(segments[1].speaker, SpeakerId::Auto(0));
    assert_eq!(value(segments[1].confidence), 0.5);
    assert_eq!((segments[1].start_ms, segments[1].end_ms), (1_000, 2_000));
    assert_eq!(segments[1].text, "yes");
    let mut far = vec![
        piece(SpeakerId::Auto(0), 0, 1_000, 0.5),
        piece(SpeakerId::Remote, 13_001, 14_000, 0.1),
        piece(SpeakerId::Auto(0), 14_000, 15_000, 0.75),
    ];
    diarizer.absorb_low_information_segments(&mut far);
    assert_eq!(far[1].speaker, SpeakerId::Remote);
}

#[test]
fn sources_decide_before_windows_do() {
    let mut diarizer = EmbeddingDiarizer::new(&DiarizationConfig::default());
    let segments = vec![segment(0, 1_000, "Hello.")];
    let mine = diarizer.diarize_windows(AudioSource::Microphone, vec![], &segments);
    assert_eq!(mine[0].speaker, SpeakerId::You);
    assert_eq!(value(mine[0].confidence), 1.0);
    let unknown = diarizer.diarize_windows(AudioSource::Unknown, vec![], &segments);
    assert_eq!(unknown[0].speaker, SpeakerId::Unknown);
    assert_eq!(value(unknown[0].confidence), 0.0);
    let remote = diarizer.diarize_windows(AudioSource::Loopback, vec![], &segments);
    assert_eq!(remote[0].speaker, SpeakerId::Remote);
    assert_eq!(remote[0].text, "Hello.");
}

#[test]
fn a_new_speaker_is_heard_again() {
    let mut diarizer = EmbeddingDiarizer::new(&DiarizationConfig::default());
    let segments = vec![segment(0, 2_250, "Nice to meet you all today.")];
    let plan: Vec<PlannedWindow> = (0..3)
        .map(|i| PlannedWindow {
            start_sample: 0,
            end_sample: 0,
            start_ms: i * 375,
            end_ms: i * 375 + 1_500,
        })
        .collect();
    let embeddings = || -> Vec<Option<Vec<Float32>>> {
        (0..3).map(|_| Some(all(&[0.6, 0.8]))).collect()
    };
    let windows = diarizer.label_windows(&plan, embeddings());
    let first = diarizer.diarize_windows(AudioSource::Loopback, windows, &segments);
    assert_eq!(first.len(), 1);
    assert_eq!(first[0].speaker, SpeakerId::Auto(0));
    assert_eq!(diarizer.centroids.len(), 1);
    let windows = diarizer.label_windows(&plan, embeddings());
    assert_eq!(windows[0].speaker, SpeakerId::Auto(0));
    let second = diarizer.diarize_windows(AudioSource::Loopback, windows, &segments);
    assert_eq!(second[0].speaker, SpeakerId::Auto(0));
    assert_eq!(diarizer.centroids.len(), 1);
}

#[test]
fn scores_name_every_speaker_once() {
    let windows = vec![
        window(0, 100, SpeakerId::Auto(0), 0.5, &[1.0]),
        window(50, 150, SpeakerId::Auto(1), 0.05, &[1.0]),
        window(100, 200, SpeakerId::Auto(0), 0.25, &[1.0]),
    ];
    let scores = speaker_scores(0, 150, &windows);
    assert_eq!(scores.len(), 2);
    assert_eq!(scores[0].0, SpeakerId::Auto(0));
    assert_eq!(value(scores[0].1), 100.0 * 0.5 + 50.0 * 0.25);
    assert_eq!(scores[1].0, SpeakerId::Auto(1));
    assert_eq!(value(scores[1].1), 100.0 * 0.1);
}

#[test]
fn knowledge_survives_a_chunk_without_speech() {
    let mut diarizer = EmbeddingDiarizer::new(&DiarizationConfig::default());
    diarizer.create_speaker(&all(&[1.0, 0.0])).unwrap();
    let out = diarizer.diarize_windows(AudioSource::Loopback, vec![], &[]);
    assert!(out.is_empty());
    assert_eq!(diarizer.centroids.len(), 1);
    assert_eq!(bits(&diarizer.centroids[0].vector), bits(&all(&[1.0, 0.0])));
}
