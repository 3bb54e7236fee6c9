use voxtype::float32::Float32;
use voxtype::meeting::diarization::backend::{
    after_loading, create_diarizer, Available, Backend, Choice, ModelOutcome,
};
use voxtype::meeting::diarization::simple::SimpleDiarizer;
use voxtype::meeting::diarization::{DiarizationConfig, Diarizer, SpeakerId};
use voxtype::meeting::{AudioSource, TranscriptSegment};

fn value(x: Float32) -> f32 {
    f32::from_bits(x.to_bits())
}

#[test]
fn test_speaker_id_display() {
    assert_eq!(SpeakerId::You.display_name(), "You");
    assert_eq!(SpeakerId::Remote.display_name(), "Remote");
    assert_eq!(SpeakerId::Auto(0).display_name(), "SPEAKER_00");
    assert_eq!(SpeakerId::Auto(5).display_name(), "SPEAKER_05");
    assert_eq!(SpeakerId::Named("Alice".to_string()).display_name(), "Alice");
}

#[test]
fn long_speaker_numbers_are_shown_in_full() {
    assert_eq!(SpeakerId::Unknown.display_name(), "Unknown");
    assert_eq!(SpeakerId::Auto(42).display_name(), "SPEAKER_42");
    assert_eq!(SpeakerId::Auto(100).display_name(), "SPEAKER_100");
    assert_eq!(SpeakerId::Auto(u32::MAX).display_name(), "SPEAKER_4294967295");
}

#[test]
fn test_default_config() {
    let config = DiarizationConfig::default();
    assert!(config.enabled);
    assert_eq!(config.backend, "simple");
    assert_eq!(config.max_speakers, 10);
    assert_eq!(config.model, "wespeaker-resnet221-lm");
    assert_eq!(value(config.window_secs), 1.5);
    assert_eq!(config.min_segment_ms, 500);
    assert_eq!(value(config.confident_threshold), 0.30);
    assert_eq!(value(config.uncertain_threshold), 0.15);
    assert!(config.model_path.is_none());
}

#[test]
fn test_source_to_speaker() {
    assert_eq!(SimpleDiarizer::source_to_speaker(AudioSource::Microphone), SpeakerId::You);
    assert_eq!(SimpleDiarizer::source_to_speaker(AudioSource::Loopback), SpeakerId::Remote);
    assert_eq!(SimpleDiarizer::source_to_speaker(AudioSource::Unknown), SpeakerId::Unknown);
}

#[test]
fn test_diarize_mic_segments() {
    let mut diarizer = SimpleDiarizer::new();
    let mut seg1 = TranscriptSegment::new(1, 0, 1000, "Hello".to_string(), 0);
    seg1.source = AudioSource::Microphone;
    let mut seg2 = TranscriptSegment::new(2, 1000, 2000, "World".to_string(), 0);
    seg2.source = AudioSource::Microphone;
    let segments = vec![seg1, seg2];

    let result = diarizer.diarize(&[], 0, AudioSource::Microphone, &segments);

    assert_eq!(result.len(), 2);
    assert_eq!(result[0].speaker, SpeakerId::You);
}

#[test]
fn test_diarize_preserves_separate_segments() {
    let mut diarizer = SimpleDiarizer::new();
    let mut seg1 = TranscriptSegment::new(1, 0, 1000, "First".to_string(), 0);
    seg1.source = AudioSource::Microphone;
    let mut seg2 = TranscriptSegment::new(2, 5000, 6000, "Second".to_string(), 0);
    seg2.source = AudioSource::Microphone;
    let segments = vec![seg1, seg2];

    let result = diarizer.diarize(&[], 0, AudioSource::Microphone, &segments);

    assert_eq!(result.len(), 2);
}

#[test]
fn test_diarize_loopback() {
    let mut diarizer = SimpleDiarizer::new();
    let mut seg = TranscriptSegment::new(1, 0, 1000, "Remote speech".to_string(), 0);
    seg.source = AudioSource::Loopback;
    let segments = vec![seg];

    let result = diarizer.diarize(&[], 0, AudioSource::Loopback, &segments);

    assert_eq!(result.len(), 1);
    assert_eq!(result[0].speaker, SpeakerId::Remote);
}

#[test]
fn simple_diarizer_keeps_times_and_texts() {
    let mut diarizer = SimpleDiarizer::default();
    let segments = vec![TranscriptSegment::new(1, 250, 1000, " kept as it is ".to_string(), 0)];
    let result = diarizer.diarize(&[], 0, AudioSource::Unknown, &segments);
    assert_eq!(result[0].speaker, SpeakerId::Unknown);
    assert_eq!((result[0].start_ms, result[0].end_ms), (250, 1000));
    assert_eq!(result[0].text, " kept as it is ");
    assert_eq!(value(result[0].confidence), 1.0);
    assert_eq!(diarizer.name(), "simple");
    diarizer.reset();
}

#[test]
fn backends_are_chosen_by_name() {
    let choose = |backend: &str, embedding: bool, ml: bool| -> Choice {
        let config = DiarizationConfig { backend: backend.to_string(), ..Default::default() };
        create_diarizer(&config, Available { embedding, ml })
    };
    assert_eq!(choose("simple", true, true), Choice::Use(Backend::Simple));
    assert_eq!(choose("embedding", true, false), Choice::Load(Backend::Embedding));
    assert_eq!(choose("embedding", false, true), Choice::Use(Backend::Simple));
    assert_eq!(choose("ml", false, true), Choice::Load(Backend::Ml));
    assert_eq!(choose("ml", true, false), Choice::Use(Backend::Simple));
    assert_eq!(choose("subprocess", false, false), Choice::Use(Backend::Subprocess));
    assert_eq!(choose("remote", true, true), Choice::Use(Backend::Simple));
    assert_eq!(choose("Simple", true, true), Choice::Use(Backend::Simple));
}

#[test]
fn the_simple_backend_stands_in() {
    assert_eq!(after_loading(Backend::Embedding, ModelOutcome::Loaded), Backend::Embedding);
    assert_eq!(after_loading(Backend::Embedding, ModelOutcome::Missing), Backend::Simple);
    assert_eq!(after_loading(Backend::Ml, ModelOutcome::Failed), Backend::Simple);
}
