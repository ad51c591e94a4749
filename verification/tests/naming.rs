use wake_word_ml::metrics::Confusion;
use wake_word_ml::tts::{
    already_generated, generation_succeeded, rate_option, rate_tag, tts_file_name, voice_short,
    voices_in_listing,
};

#[test]
fn voices_are_found_in_any_layout() {
    let listing = "Name: ru-RU-DmitryNeural\nGender: Male\n\n\
                   Name                   Gender\n\
                   ---------------------  ------\n\
                   ru-RU-SvetlanaNeural   Female\r\n\
                   en-US-AriaNeural       Female\n\
                   xx ru-RU-Third ru-RU-Fourth\n\
                   tail:ru-RU-Last";
    assert_eq!(
        voices_in_listing(listing),
        vec!["ru-RU-DmitryNeural", "ru-RU-SvetlanaNeural", "ru-RU-Third", "tail:ru-RU-Last"]
    );
}

#[test]
fn voices_of_empty_listing() {
    assert!(voices_in_listing("").is_empty());
    assert!(voices_in_listing("\n\n").is_empty());
    assert_eq!(voices_in_listing("ru-RU-A\u{00A0}x"), vec!["ru-RU-A"]);
}

#[test]
fn voice_short_drops_locale() {
    assert_eq!(voice_short("ru-RU-DmitryNeural"), "DmitryNeural");
    assert_eq!(voice_short("en-US-AriaNeural"), "en-US-AriaNeural");
    assert_eq!(voice_short("ru-RU-"), "");
}

#[test]
fn rate_tags() {
    assert_eq!(rate_tag(0), "norm");
    assert_eq!(rate_tag(25), "plus25");
    assert_eq!(rate_tag(-10), "minus10");
    assert_eq!(rate_tag(i32::MAX), format!("plus{}", i32::MAX));
}

#[test]
fn rate_options() {
    assert_eq!(rate_option(0), "--rate=+0%");
    assert_eq!(rate_option(25), "--rate=+25%");
    assert_eq!(rate_option(-10), "--rate=-10%");
    assert_eq!(rate_option(i32::MIN), format!("--rate={}%", i32::MIN));
}

#[test]
fn tts_file_names() {
    assert_eq!(
        tts_file_name("dataset/raw/tts", 2, "ru-RU-DmitryNeural", 25),
        "dataset/raw/tts/germes_t2_DmitryNeural_plus25.mp3"
    );
    assert_eq!(tts_file_name("o", 0, "ru-RU-X", -25), "o/germes_t0_X_minus25.mp3");
}

#[test]
fn generation_decisions() {
    assert!(!already_generated(None));
    assert!(!already_generated(Some(0)));
    assert!(already_generated(Some(1)));
    assert!(generation_succeeded(true, Some(1001)));
    assert!(!generation_succeeded(true, Some(1000)));
    assert!(!generation_succeeded(false, Some(5000)));
    assert!(!generation_succeeded(true, None));
}

#[test]
fn confusion_counts() {
    let mut c = Confusion::new();
    c.record(true, true);
    c.record(true, true);
    c.record(false, true);
    c.record(false, false);
    c.record(true, false);
    assert_eq!((c.tp, c.fn_, c.tn, c.fp), (2, 1, 1, 1));
}

#[test]
fn confusion_counts_next_to_a_full_counter() {
    let mut c = Confusion { tp: usize::MAX, fn_: 0, tn: 0, fp: 0 };
    c.record(false, false);
    c.record(true, false);
    c.record(false, true);
    assert_eq!(c, Confusion { tp: usize::MAX, fn_: 1, tn: 1, fp: 1 });
}
