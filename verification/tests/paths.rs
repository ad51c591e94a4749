use wake_word_ml::augment::variant_stem;
use wake_word_ml::dataset::group_key;
use wake_word_ml::paths::{audio_inputs, augment_sources, key_from_stem, wav_files};

fn strings(v: &[&str]) -> Vec<String> {
    v.iter().map(|s| s.to_string()).collect()
}

#[test]
fn group_key_strips_variant_suffix() {
    assert_eq!(group_key("dataset/positive/germes_real_0020_v7.wav"), "germes_real_0020");
}

#[test]
fn group_key_of_source_is_its_stem() {
    assert_eq!(group_key("dataset/positive/germes_real_0020.wav"), "germes_real_0020");
}

#[test]
fn group_key_of_negative_is_its_stem() {
    assert_eq!(group_key("dataset/negative/negative_sc_00012.wav"), "negative_sc_00012");
}

#[test]
fn group_key_cuts_only_a_variant_suffix() {
    assert_eq!(group_key("d/a_v1_v2.wav"), "a_v1");
    assert_eq!(key_from_stem("x_vv"), "x_vv");
    assert_eq!(key_from_stem("_v"), "_v");
    assert_eq!(key_from_stem("a_v"), "a_v");
    assert_eq!(key_from_stem("a_v12x"), "a_v12x");
    assert_eq!(key_from_stem("a_v12"), "a");
    assert_eq!(key_from_stem("_v0"), "");
}

#[test]
fn group_key_keeps_stems_with_other_v_words() {
    assert_eq!(group_key("dataset/negative/ru_voice_01.wav"), "ru_voice_01");
    assert_eq!(group_key("dataset/negative/ru_voice_01_v3.wav"), "ru_voice_01");
}

#[test]
fn group_key_without_file_name_is_empty() {
    assert_eq!(group_key(""), "");
    assert_eq!(group_key("/"), "");
}

#[test]
fn group_key_keeps_unicode_stems() {
    assert_eq!(group_key("d/гермес_v3.wav"), "гермес");
    assert_eq!(group_key("d/гермес.wav"), "гермес");
}

#[test]
fn variants_share_the_key_of_their_source() {
    for v in 1..=8u64 {
        let stem = variant_stem("germes_real_0020", v);
        assert_eq!(stem, format!("germes_real_0020_v{v}"));
        assert_eq!(key_from_stem(&stem), "germes_real_0020");
    }
    assert_eq!(variant_stem("a", 1234567890), "a_v1234567890");
    assert_eq!(variant_stem("a", 0), "a_v0");
}

#[test]
fn wav_files_keeps_wav_only_in_path_order() {
    let listing = strings(&["d/b.wav", "d/a.wav", "d/c.mp3", "d/.wav", "d/x.WAV", "d/noext", "d/a_v2.wav"]);
    assert_eq!(wav_files(&listing), strings(&["d/a.wav", "d/a_v2.wav", "d/b.wav"]));
}

#[test]
fn wav_files_of_empty_listing() {
    assert_eq!(wav_files(&Vec::new()), Vec::<String>::new());
}

#[test]
fn augment_sources_skip_augmented_files() {
    let listing = strings(&["p/z.wav", "p/z_v1.wav", "p/y.wav", "p/y_v8.wav", "p/w.mp3"]);
    assert_eq!(augment_sources(&listing), strings(&["p/y.wav", "p/z.wav"]));
}

#[test]
fn audio_inputs_ignore_extension_case() {
    let listing = strings(&["r/b.MP3", "r/a.Wav", "r/c.txt", "r/d.mp4", "r/e.mp3"]);
    assert_eq!(audio_inputs(&listing), strings(&["r/a.Wav", "r/b.MP3", "r/e.mp3"]));
}
