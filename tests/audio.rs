use hyprconfig::audio::{
    classify_line, parse_audio_status, parse_device_line, parse_stream_line, parse_volume_reply,
    DeviceKind, LineRoute, ScanState, Section, VolumeReading,
};
use hyprconfig::number::Decimal;

#[test]
fn device_line_with_default_marker() {
    let d = parse_device_line(" *   53. Built-in Audio Analog Stereo        [vol: 0.30]", DeviceKind::Sink)
        .unwrap();
    assert_eq!(d.id, 53);
    assert_eq!(d.name, "Built-in Audio Analog Stereo");
    assert_eq!(d.description, "Built-in Audio Analog Stereo");
    assert_eq!(d.device_type, DeviceKind::Sink);
    assert!(d.is_default);
    assert_eq!(d.volume, Decimal { digits: 0, scale: 0 });
    assert!(!d.muted);
}

#[test]
fn device_line_under_tree_decoration() {
    let d = parse_device_line(" │  ├─ 48. USB Microphone [vol: 1.00]", DeviceKind::Source).unwrap();
    assert_eq!(d.id, 48);
    assert_eq!(d.name, "USB Microphone");
    assert_eq!(d.device_type, DeviceKind::Source);
    assert!(!d.is_default);
}

#[test]
fn device_line_without_volume_tag() {
    let d = parse_device_line("     7. HDMI Output", DeviceKind::Sink).unwrap();
    assert_eq!(d.id, 7);
    assert_eq!(d.name, "HDMI Output");
}

#[test]
fn device_line_without_id_is_skipped() {
    assert!(parse_device_line("   Built-in Audio", DeviceKind::Sink).is_none());
    assert!(parse_device_line("   abc. Built-in Audio", DeviceKind::Sink).is_none());
    assert!(parse_device_line("   99999999999. Too big", DeviceKind::Sink).is_none());
}

#[test]
fn stream_line_with_media_name() {
    let s = parse_stream_line("     64. firefox: AudioStream [vol: 0.50]").unwrap();
    assert_eq!(s.id, 64);
    assert_eq!(s.app_name, "firefox");
    assert_eq!(s.media_name, Some("AudioStream".to_string()));
}

#[test]
fn stream_line_without_colon() {
    let s = parse_stream_line(" │      70. mpv [paused]").unwrap();
    assert_eq!(s.id, 70);
    assert_eq!(s.app_name, "mpv");
    assert_eq!(s.media_name, None);
}

#[test]
fn stream_line_colon_of_volume_tag_counts() {
    let s = parse_stream_line("      70. mpv [vol: 1.00]").unwrap();
    assert_eq!(s.app_name, "mpv [vol");
    assert_eq!(s.media_name, Some("1.00]".to_string()));
}

#[test]
fn stream_line_with_empty_media_name() {
    let s = parse_stream_line("  *  71. spotify:   [vol: 0.75]").unwrap();
    assert_eq!(s.id, 71);
    assert_eq!(s.app_name, "spotify");
    assert_eq!(s.media_name, None);
}

#[test]
fn stream_line_colon_splits_at_first() {
    let s = parse_stream_line("  12. chromium: Playback: music").unwrap();
    assert_eq!(s.app_name, "chromium");
    assert_eq!(s.media_name, Some("Playback: music".to_string()));
}

#[test]
fn stream_line_without_id_is_skipped() {
    assert!(parse_stream_line("   firefox: AudioStream").is_none());
}

const REPORT: &str = "PipeWire 'pipewire-0' [1.0.0, user@host, cookie:1]
 └─ Clients:
        33. WirePlumber                         [1.0.0, user@host, pid:1]

Audio
 ├─ Devices:
 │      42. Built-in Audio                      [alsa]
 │
 ├─ Sinks:
 │  *   53. Built-in Audio Analog Stereo        [vol: 0.30]
 │      54. HDMI Output                         [vol: 1.00]
 │
 ├─ Sources:
 │  *   55. Built-in Audio Analog Stereo        [vol: 0.80]
 │
 ├─ Filters:
 │      60. echo-cancel                         [vol: 1.00]
 │
 └─ Streams:
        64. firefox: AudioStream [vol: 0.50]
        65. mpv

Video
 ├─ Devices:
 │      70. Camera                              [v4l2]
 └─ Sinks:
        71. Not audio                           [vol: 1.00]

Settings
 └─ Default Configured Devices:
         0. Audio/Sink    alsa_output.pci
";

#[test]
fn audio_status_report_sections() {
    let st = parse_audio_status(REPORT);
    let sinks: Vec<u32> = st.sinks.iter().map(|d| d.id).collect();
    let sources: Vec<u32> = st.sources.iter().map(|d| d.id).collect();
    let streams: Vec<u32> = st.streams.iter().map(|s| s.id).collect();
    assert_eq!(sinks, vec![53, 54]);
    assert_eq!(sources, vec![55]);
    assert_eq!(streams, vec![64, 65]);
    assert!(st.sinks[0].is_default);
    assert!(!st.sinks[1].is_default);
    assert_eq!(st.sinks[1].name, "HDMI Output");
    assert_eq!(st.sources[0].device_type, DeviceKind::Source);
    assert_eq!(st.streams[1].app_name, "mpv");
}

#[test]
fn audio_status_empty_report() {
    let st = parse_audio_status("");
    assert!(st.sinks.is_empty() && st.sources.is_empty() && st.streams.is_empty());
}

#[test]
fn audio_status_scenario_enrichment_overrides_inline_volume() {
    let mut st = parse_audio_status("Audio\n ├─ Sinks:\n  53. Built-in Audio Analog Stereo   [vol: 0.30]\n");
    assert_eq!(st.sinks.len(), 1);
    let reading = parse_volume_reply("Volume: 0.45 [MUTED]");
    st.sinks[0].apply_reading(Some(reading));
    let d = &st.sinks[0];
    assert_eq!(d.id, 53);
    assert_eq!(d.name, "Built-in Audio Analog Stereo");
    assert_eq!(d.volume, Decimal { digits: 45, scale: 2 });
    assert!(d.muted);
}

#[test]
fn volume_reply_not_muted() {
    let r = parse_volume_reply("Volume: 1.20\n");
    assert_eq!(r, VolumeReading { volume: Decimal { digits: 120, scale: 2 }, muted: false });
}

#[test]
fn volume_reply_unreadable_volume_is_zero() {
    let r = parse_volume_reply("Volume: loud [MUTED]");
    assert_eq!(r, VolumeReading { volume: Decimal { digits: 0, scale: 0 }, muted: true });
    let r = parse_volume_reply("");
    assert_eq!(r, VolumeReading { volume: Decimal { digits: 0, scale: 0 }, muted: false });
}

#[test]
fn enrichment_keeps_identity_fields() {
    let mut d = parse_device_line(" *  53. Speakers", DeviceKind::Sink).unwrap();
    d.apply_reading(Some(VolumeReading { volume: Decimal { digits: 7, scale: 1 }, muted: true }));
    assert_eq!((d.id, d.name.as_str(), d.description.as_str(), d.is_default), (53, "Speakers", "Speakers", true));
    assert_eq!(d.volume, Decimal { digits: 7, scale: 1 });
    d.apply_reading(None);
    assert_eq!(d.volume, Decimal { digits: 7, scale: 1 });
    assert!(d.muted);
    let mut s = parse_stream_line("  64. firefox: Video").unwrap();
    s.apply_reading(Some(VolumeReading { volume: Decimal { digits: 5, scale: 1 }, muted: false }));
    assert_eq!((s.id, s.app_name.as_str(), s.media_name.as_deref()), (64, "firefox", Some("Video")));
    assert_eq!(s.volume, Decimal { digits: 5, scale: 1 });
}

#[test]
fn state_machine_steps() {
    let st = ScanState::start();
    let (st, r) = classify_line(st, "Audio");
    assert_eq!(r, LineRoute::Skip);
    assert!(st.in_audio);
    let (st, _) = classify_line(st, " ├─ Sinks:");
    assert_eq!(st.section, Section::Sinks);
    let (st, r) = classify_line(st, " │  *   53. Speakers");
    assert_eq!(r, LineRoute::Sink);
    let (st, r) = classify_line(st, " │  ");
    assert_eq!(r, LineRoute::Skip);
    let (st, _) = classify_line(st, " ├─ Filters:");
    assert_eq!(st.section, Section::Idle);
    let (st, r) = classify_line(st, " │  60. filter");
    assert_eq!(r, LineRoute::Skip);
    let (st, _) = classify_line(st, " └─ Streams:");
    let (st, r) = classify_line(st, "   64. firefox");
    assert_eq!(r, LineRoute::Stream);
    let (st, _) = classify_line(st, "Video");
    assert!(!st.in_audio);
    assert_eq!(st.section, Section::Idle);
    let (_, r) = classify_line(st, " └─ Sinks:");
    assert_eq!(r, LineRoute::Skip);
}
