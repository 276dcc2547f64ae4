use codex_image::boards::BoardNode;
use codex_image::card::{CardColor, CardImageFit};
use codex_image::disk_cache::{
    check_entry, decode_entry, decoded_len, encode_entry, encode_entry_prefix, entry_file_name,
    fnv1a, refreshes_on_hit, MAX_DECODED_ENTRY_BYTES, TOUCH_GRANULARITY_NANOS,
};
use codex_image::format::{
    attached_text_excerpt, done_footer, image_kind_for_path, status_label, status_message,
    millis_from_epoch_nanos, now_ms, time_ago_at, ImageKind,
};
use codex_image::image_budget::{eviction_candidates, Budget};
use codex_image::manifest::{
    absolute_file_path, is_canonical_path_inside, normalize, percent_decode, validate,
    FinalOutput, ManifestError, OutputManifest,
};
use codex_image::model::{default_aspect, NodeStatus, StopReason};
use codex_image::pixels::unpremultiply;
use codex_image::settings::{is_reasoning_effort, SettingsData};
use codex_image::svg::push_xml_escaped;
use codex_image::window_memory::{VisibilityChange, WindowMemoryState};

fn node(status: NodeStatus) -> BoardNode {
    BoardNode {
        id: "n".into(),
        parent_id: None,
        prompt: "p".into(),
        aspect: default_aspect(),
        source_images: Vec::new(),
        attachments: Vec::new(),
        images: Vec::new(),
        image_labels: Vec::new(),
        attempts: Vec::new(),
        text: String::new(),
        status,
        error: None,
        stop_reason: None,
        x: None,
        y: None,
        created_at: 0,
        run_started_at: None,
        finished_at: None,
        usage: None,
    }
}

#[test]
fn visibility_changes_are_deduplicated() {
    let mut state = WindowMemoryState::default();

    assert_eq!(state.update(true), VisibilityChange::Unchanged);
    assert_eq!(state.update(false), VisibilityChange::Release);
    assert_eq!(state.update(false), VisibilityChange::Unchanged);
    assert_eq!(state.update(true), VisibilityChange::Restore);
    assert_eq!(state.update(true), VisibilityChange::Unchanged);
}

#[test]
fn settings_drop_unknown_efforts_and_cap_references() {
    let mut settings = SettingsData {
        model: "  gpt-5  ".into(),
        reasoning_effort: " HIGH ".into(),
        lineage_refs: 40,
    };
    settings.sanitize();
    assert_eq!(settings.model, "gpt-5");
    assert_eq!(settings.reasoning_effort, "high");
    assert_eq!(settings.lineage_refs, 6);
    assert_eq!(settings.model_label(), "gpt-5");
    let mut odd = SettingsData {
        model: String::new(),
        reasoning_effort: "extreme".into(),
        lineage_refs: 2,
    };
    odd.sanitize();
    assert_eq!(odd.reasoning_effort, "");
    assert_eq!(odd.model_label(), "CLI default");
    assert!(is_reasoning_effort("minimal"));
    assert_eq!(SettingsData::default().lineage_refs, 3);
}

#[test]
fn manifests_are_trimmed_and_checked() {
    let manifest = OutputManifest {
        summary: "  done  ".into(),
        complete: true,
        outputs: vec![FinalOutput { path: " /a.png ".into(), label: " A ".into() }],
    };
    let checked = validate(manifest).unwrap();
    assert_eq!(checked.summary, "done");
    assert_eq!(checked.outputs[0].path, "/a.png");
    assert_eq!(checked.outputs[0].label, "A");

    let duplicate = OutputManifest {
        summary: String::new(),
        complete: false,
        outputs: vec![
            FinalOutput { path: "/a.png".into(), label: "A".into() },
            FinalOutput { path: " /a.png".into(), label: "B".into() },
        ],
    };
    assert_eq!(validate(duplicate).err(), Some(ManifestError::DuplicatePath));
    let empty = OutputManifest { summary: String::new(), complete: true, outputs: Vec::new() };
    assert_eq!(validate(empty).err(), Some(ManifestError::CompleteWithoutOutputs));
    let long = OutputManifest { summary: "x".repeat(501), complete: false, outputs: Vec::new() };
    assert_eq!(validate(long).err(), Some(ManifestError::SummaryTooLong));
    let blank = OutputManifest {
        summary: String::new(),
        complete: false,
        outputs: vec![FinalOutput { path: "/a.png".into(), label: "  ".into() }],
    };
    assert_eq!(validate(blank).err(), Some(ManifestError::EmptyPathOrLabel));
    let wordy = OutputManifest {
        summary: String::new(),
        complete: false,
        outputs: vec![FinalOutput { path: "/a.png".into(), label: "l".repeat(121) }],
    };
    assert_eq!(validate(wordy).err(), Some(ManifestError::LabelTooLong));
    assert_eq!(
        ManifestError::DuplicatePath.message(),
        "the same generated image was selected more than once"
    );
}

#[test]
fn selected_paths_are_decoded_and_normalized() {
    assert_eq!(absolute_file_path("/a/./b/../c.png").unwrap(), "/a/c.png");
    assert_eq!(absolute_file_path("file:///tmp/my%20pic.png").unwrap(), "/tmp/my pic.png");
    assert_eq!(absolute_file_path("relative.png"), Err(ManifestError::NotAbsolute));
    assert_eq!(absolute_file_path("file:///tmp/%2"), Err(ManifestError::InvalidFileUrl));
    assert_eq!(absolute_file_path("file:///tmp/%zz"), Err(ManifestError::InvalidEscape));
    assert_eq!(absolute_file_path("file:///tmp/%ff"), Err(ManifestError::NotUtf8));
    assert_eq!(percent_decode("a%41b").unwrap(), "aAb");
    assert_eq!(percent_decode("%+7"), Ok("\u{7}".to_string()));
    let split = absolute_file_path("file:///tmp/%€").unwrap_err();
    assert_eq!(split, ManifestError::EscapeNotUtf8 { at: 0, incomplete: true });
    assert_eq!(split.message(), "incomplete utf-8 byte sequence from index 0");
    let late = percent_decode("%4é").unwrap_err();
    assert_eq!(late.message(), "incomplete utf-8 byte sequence from index 1");
    assert_eq!(percent_decode("%é"), Err(ManifestError::InvalidEscape));
    assert_eq!(normalize("/x/y/../z"), "/x/z");
    assert!(is_canonical_path_inside("/root", "/root/a/b.png"));
    assert!(!is_canonical_path_inside("/root", "/root"));
    assert!(!is_canonical_path_inside("/root", "/rooted/b.png"));
}

#[test]
fn cache_entries_round_trip_and_reject_stale_sources() {
    assert_eq!(decoded_len(2, 3), Some(24));
    assert_eq!(decoded_len(u32::MAX, u32::MAX), None);
    assert!(decoded_len(8_192, 8_192).unwrap() <= MAX_DECODED_ENTRY_BYTES);
    assert_eq!(decoded_len(16_384, 16_384), None);
    let prefix = encode_entry_prefix(2, 3, 100, 200, 24);
    assert_eq!(prefix.len(), 36);
    assert_eq!(check_entry(&prefix, 100, 200), Some((2, 3, 24)));
    assert_eq!(check_entry(&prefix, 101, 200), None);
    assert_eq!(check_entry(&prefix[..35], 100, 200), None);
    assert_eq!(fnv1a(b""), 0xcbf2_9ce4_8422_2325);
    assert_eq!(fnv1a(b"a"), 0xaf63_dc4c_8601_ec8c);
    let name = entry_file_name("/img/a.png", Some(1080));
    assert!(name.ends_with(".bgra.lz4"));
    assert_eq!(name.len(), 16 + ".bgra.lz4".len());
    assert_ne!(name, entry_file_name("/img/a.png", None));
}

#[test]
fn whole_entries_read_back_their_pixels() {
    let mut pixels = Vec::new();
    for index in 0..(6 * 3) {
        pixels.extend_from_slice(&[index as u8, 7, 9, 255]);
    }
    let entry = encode_entry(6, 3, 14, 1_700_000_000_000, &pixels).expect("entry");
    assert_eq!(&entry[..36], encode_entry_prefix(6, 3, 14, 1_700_000_000_000, 72).as_slice());
    assert_ne!(&entry[36..], pixels.as_slice());
    assert_eq!(decode_entry(&entry, 14, 1_700_000_000_000), Some((6, 3, pixels.clone())));
    assert_eq!(decode_entry(&entry, 16, 1_700_000_000_000), None);
    assert_eq!(encode_entry(6, 4, 14, 0, &pixels), None);
    let mut corrupt = entry.clone();
    corrupt[32..36].copy_from_slice(&u32::MAX.to_le_bytes());
    assert_eq!(decode_entry(&corrupt, 14, 1_700_000_000_000), None);
    let truncated = &entry[..entry.len() - 1];
    assert_eq!(decode_entry(truncated, 14, 1_700_000_000_000), None);
}

#[test]
fn pixels_lose_their_premultiplied_alpha() {
    let mut pixels = [100, 50, 0, 128, 10, 20, 30, 255, 9, 9, 9, 0, 1, 2];
    unpremultiply(&mut pixels);
    assert_eq!(pixels, [199, 100, 0, 128, 10, 20, 30, 255, 9, 9, 9, 0, 1, 2]);
}

#[test]
fn xml_text_is_escaped() {
    let mut output = String::from("<t>");
    push_xml_escaped(&mut output, "a<b & \"c\" 'd'>");
    assert_eq!(output, "<t>a&lt;b &amp; &quot;c&quot; &apos;d&apos;&gt;");
}

#[test]
fn image_budgets_count_and_wrap() {
    let mut budget: Budget<u64> = Budget::new(10, 2);
    assert_eq!(budget.tick(), 1);
    budget.add_bytes(8);
    assert!(!budget.over_limit(2));
    budget.add_bytes(usize::MAX);
    assert_eq!(budget.decoded_bytes, usize::MAX);
    assert!(budget.over_limit(0));
    budget.remove_bytes(usize::MAX);
    assert_eq!(budget.decoded_bytes, 0);
    assert!(budget.over_limit(3));
    budget.clock = u64::MAX;
    assert_eq!(budget.tick(), 0);
}

#[test]
fn node_text_is_described_for_the_card() {
    let mut failed = node(NodeStatus::Error);
    assert_eq!(status_message(&failed), "Generation failed");
    failed.error = Some("line one\nline two".into());
    assert_eq!(status_message(&failed), "line one line two");
    failed.text = "agent said\nthis".into();
    assert_eq!(attached_text_excerpt(&failed), "agent said this");
    failed.error = Some("agent said\nthis".into());
    assert_eq!(attached_text_excerpt(&failed), "");
    let mut stopped = node(NodeStatus::Stopped);
    stopped.stop_reason = Some(StopReason::AppQuit);
    assert_eq!(status_message(&stopped), "Stopped when CodexImage quit.");
    assert_eq!(status_label(&stopped), "Stopped");
    let mut done = node(NodeStatus::Done);
    assert_eq!(status_message(&done), "");
    assert_eq!(status_label(&done), "0 images");
    done.images = vec!["/images/b/1.png".into()];
    assert_eq!(status_label(&done), "1 image");
    assert_eq!(done_footer(&done, "0"), "✓ Finished");
    done.images.push("/images/b/2.png".into());
    done.text = "two\ncats".into();
    done.usage = Some(vec![("input_tokens".into(), 1_200)]);
    assert_eq!(done_footer(&done, "1.2k"), "✓ Finished · 2 images · two cats · 1.2k tok");
    assert_eq!(status_label(&node(NodeStatus::Running)), "Generating");
}

#[test]
fn relative_times_use_the_largest_whole_unit() {
    assert_eq!(time_ago_at(10_000, 9_000), "now");
    assert_eq!(time_ago_at(0, 5_000), "now");
    assert_eq!(time_ago_at(125_000, 0), "2m ago");
    assert_eq!(time_ago_at(7_200_000, 0), "2h ago");
    assert_eq!(time_ago_at(3 * 86_400_000, 0), "3d ago");
    assert_eq!(time_ago_at(i64::MAX, i64::MIN), format!("{}d ago", (u64::MAX / 1000) / 86_400));
}

#[test]
fn image_kinds_follow_the_extension() {
    assert_eq!(image_kind_for_path("/a/b.PNG"), Some(ImageKind::Png));
    assert_eq!(image_kind_for_path("/a/b.jpeg"), Some(ImageKind::Jpeg));
    assert_eq!(image_kind_for_path("/a/b.pgm"), Some(ImageKind::Pnm));
    assert_eq!(image_kind_for_path("/a/b.txt"), None);
    assert_eq!(image_kind_for_path("/a/b"), None);
    assert_eq!(image_kind_for_path("/a/.png"), None);
    assert_eq!(image_kind_for_path("/a/.hidden.png"), Some(ImageKind::Png));
    assert_eq!(image_kind_for_path("/a/b.tar.gif"), Some(ImageKind::Gif));
    assert_eq!(image_kind_for_path("/a/b.png/.."), None);
}

#[test]
fn card_colors_have_svg_values() {
    assert_eq!(CardColor::Background82.svg_color(), "#0d0e12");
    assert_eq!(CardColor::Background82.svg_opacity_percent(), 82);
    assert_eq!(CardColor::Danger.svg_opacity_percent(), 100);
    assert_eq!(CardColor::Transparent.svg_opacity_percent(), 0);
    assert!(matches!(CardImageFit::Cover, CardImageFit::Cover));
}

#[test]
fn eviction_starts_with_the_least_recently_used_unprotected_entry() {
    let entries = vec![(30, 1), (10, 2), (20, 3), (5, 4), (40, 5)];
    let mut protected = std::collections::HashSet::new();
    protected.insert(4);
    assert_eq!(eviction_candidates(&entries, &protected), vec![2, 3, 1, 5]);
    assert!(eviction_candidates(&Vec::new(), &protected).is_empty());
}

#[test]
fn clock_readings_round_down_to_milliseconds() {
    assert_eq!(millis_from_epoch_nanos(Ok(1_999_999)), 1);
    assert_eq!(millis_from_epoch_nanos(Ok(2_000_000)), 2);
    assert_eq!(millis_from_epoch_nanos(Err(1_000_000)), -1);
    assert_eq!(millis_from_epoch_nanos(Err(1_500_000)), -2);
    assert_eq!(millis_from_epoch_nanos(Err(1)), -1);
    assert_eq!(millis_from_epoch_nanos(Ok(0)), 0);
    assert_eq!(millis_from_epoch_nanos(Ok(u128::MAX)), i64::MAX);
    assert_eq!(millis_from_epoch_nanos(Err(u128::MAX)), -i64::MAX);
    assert!(now_ms() > 1_600_000_000_000);
}

#[test]
fn cache_hits_refresh_only_stale_entries() {
    assert!(!refreshes_on_hit(None));
    assert!(!refreshes_on_hit(Some(TOUCH_GRANULARITY_NANOS)));
    assert!(refreshes_on_hit(Some(TOUCH_GRANULARITY_NANOS + 1)));
    assert!(!refreshes_on_hit(Some(0)));
}

#[test]
fn finished_frames_release_until_the_cache_fits() {
    let mut budget: Budget<u64> = Budget::new(100, 3);
    budget.add_bytes(250);
    assert_eq!(budget.release_count(4, &vec![60, 50, 40, 30]), 3);
    assert_eq!(budget.release_count(4, &vec![200, 50]), 1);
    assert_eq!(budget.release_count(4, &vec![10, 10]), 2);
    assert_eq!(budget.release_count(4, &Vec::new()), 0);
    let small: Budget<u64> = Budget::new(100, 3);
    assert_eq!(small.release_count(3, &vec![5]), 0);
    assert_eq!(small.release_count(5, &vec![1, 1, 1]), 2);
}
