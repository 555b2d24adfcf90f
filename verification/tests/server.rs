use elemaudio_resources::http::{
    parse_header_line, parse_request_line, query_value, response_head, split_target, HeaderLine,
    QueryParams,
};
use elemaudio_resources::resource::{AudioBuffer, Resource};
use elemaudio_resources::server::{
    audio_metadata, export_source, parse_keep_list, resource_bytes, route, wav_header, AppState,
    Route,
};

type State = AppState<f32, f64, u32>;
type Res = Resource<f32, f64, u32>;

fn stereo(n: usize) -> AudioBuffer<f32> {
    AudioBuffer::new(vec![0.0; 2 * n], 44_100, 2).unwrap()
}

#[test]
fn split_target_separates_path_and_query() {
    let (path, query) = split_target("/api/resources/load?name=kick.wav&x=1");
    assert_eq!(path, "/api/resources/load");
    assert_eq!(query_value(&query, "name").unwrap(), "kick.wav");
    assert_eq!(query_value(&query, "x").unwrap(), "1");
    assert!(query_value(&query, "y").is_none());
}

#[test]
fn split_target_without_query() {
    let (path, query) = split_target("/health");
    assert_eq!(path, "/health");
    assert!(query_value(&query, "").is_none());
}

#[test]
fn query_later_values_override_and_pieces_without_equals_are_empty() {
    let (path, query) = split_target("/p?a=1&&a=2&flag&b=x=y?z");
    assert_eq!(path, "/p");
    assert_eq!(query_value(&query, "a").unwrap(), "2");
    assert_eq!(query_value(&query, "flag").unwrap(), "");
    assert_eq!(query_value(&query, "b").unwrap(), "x=y?z");
}

#[test]
fn query_params_insert_overrides() {
    let mut q = QueryParams::new();
    q.insert("k".to_string(), "v1".to_string());
    q.insert("k".to_string(), "v2".to_string());
    assert_eq!(q.get("k").unwrap(), "v2");
}

#[test]
fn request_lines_give_method_and_target() {
    let (m, t) = parse_request_line("GET /health HTTP/1.1\r\n").unwrap();
    assert_eq!(m, "GET");
    assert_eq!(t, "/health");
    let (m, t) = parse_request_line("  POST\r\n").unwrap();
    assert_eq!(m, "POST");
    assert_eq!(t, "");
    assert!(parse_request_line(" \r\n").is_none());
    assert!(parse_request_line("").is_none());
}

#[test]
fn header_lines() {
    assert!(matches!(parse_header_line("\r\n"), HeaderLine::End));
    assert!(matches!(
        parse_header_line("Content-Length: 42\r\n"),
        HeaderLine::ContentLength(42)
    ));
    assert!(matches!(
        parse_header_line("content-LENGTH:+7"),
        HeaderLine::ContentLength(7)
    ));
    assert!(matches!(
        parse_header_line("Content-Length: abc\r\n"),
        HeaderLine::ContentLength(0)
    ));
    assert!(matches!(
        parse_header_line("Content-Length: 99999999999999999999999\r\n"),
        HeaderLine::ContentLength(0)
    ));
    assert!(matches!(parse_header_line("Host: x\r\n"), HeaderLine::Other));
    assert!(matches!(parse_header_line("no colon\r\n"), HeaderLine::Other));
}

#[test]
fn response_head_layout() {
    assert_eq!(
        response_head("200 OK", "text/plain", 2),
        "HTTP/1.1 200 OK\r\nContent-Type: text/plain\r\nContent-Length: 2\r\nAccess-Control-Allow-Origin: *\r\nAccess-Control-Allow-Methods: GET, POST, OPTIONS\r\nAccess-Control-Allow-Headers: Content-Type\r\nConnection: close\r\n\r\n"
    );
}

#[test]
fn content_length_written_reads_back() {
    let head = response_head("200 OK", "text/plain", 1234);
    let line = head
        .split("\r\n")
        .find(|l| l.starts_with("Content-Length"))
        .unwrap()
        .to_string()
        + "\r\n";
    assert!(matches!(parse_header_line(&line), HeaderLine::ContentLength(1234)));
}

#[test]
fn routes() {
    assert_eq!(route("OPTIONS", "/anything"), Route::Preflight);
    assert_eq!(route("GET", "/health"), Route::Health);
    assert_eq!(route("GET", "/api/resources"), Route::List);
    assert_eq!(route("GET", "/api/resources.bin"), Route::ListBinary);
    assert_eq!(route("GET", "/api/resources/export.wav"), Route::ExportWav);
    assert_eq!(route("GET", "/api/resources/metadata"), Route::Metadata);
    assert_eq!(route("POST", "/api/resources/load"), Route::Load);
    assert_eq!(route("POST", "/api/resources/play"), Route::Play);
    assert_eq!(route("POST", "/api/resources/stop"), Route::Stop);
    assert_eq!(route("GET", "/api/resources/active"), Route::Active);
    assert_eq!(route("POST", "/api/resources/delete"), Route::Delete);
    assert_eq!(route("POST", "/api/resources/rename"), Route::Rename);
    assert_eq!(route("POST", "/api/resources/prune"), Route::Prune);
    assert_eq!(route("GET", "/api/resources/load"), Route::NotFound);
    assert_eq!(route("POST", "/health"), Route::NotFound);
}

#[test]
fn keep_lists_are_trimmed_and_normalized() {
    assert_eq!(
        parse_keep_list(" a.wav , ,b ,,folder/c.mp3"),
        vec!["a".to_string(), "b".to_string(), "c".to_string()]
    );
    assert!(parse_keep_list("").is_empty());
}

#[test]
fn load_replaces_file_and_its_channels() {
    let mut s = State::new();
    s.resources.add("kick", Resource::bytes(vec![1])).unwrap();
    s.resources.add("kick_ch1", Resource::bytes(vec![2])).unwrap();
    s.resources.add("kick_ch2", Resource::bytes(vec![3])).unwrap();
    s.resources.add("snare", Resource::bytes(vec![4])).unwrap();
    s.load(Some("kick.wav".to_string()), stereo(3));
    let snap = s.snapshot_json();
    let mut ids: Vec<String> = snap.resources.iter().map(|e| e.id.clone()).collect();
    ids.sort();
    assert_eq!(ids, vec!["kick", "snare"]);
    assert_eq!(s.resources.get("kick").unwrap().kind(), "audio");
    s.load(None, stereo(1));
    assert!(s.resources.get("resource").is_some());
}

#[test]
fn play_needs_audio() {
    let mut s = State::new();
    s.resources.add("blob", Resource::bytes(vec![1])).unwrap();
    assert!(!s.play(Some("blob".to_string())));
    assert!(s.playback.active.is_none());
    assert!(!s.play(Some("missing".to_string())));
    assert!(!s.play(None));
    s.load(Some("loop.wav".to_string()), stereo(2));
    assert!(s.play(Some("folder/loop.wav".to_string())));
    assert_eq!(s.playback.active.as_deref(), Some("loop"));
    s.stop();
    assert!(s.playback.active.is_none());
}

#[test]
fn delete_stops_playback_of_that_name() {
    let mut s = State::new();
    s.load(Some("a.wav".to_string()), stereo(1));
    assert!(s.play(Some("a".to_string())));
    assert_eq!(s.delete(Some("b".to_string())).err().unwrap(), "resource not found: b");
    assert_eq!(s.playback.active.as_deref(), Some("a"));
    assert!(s.delete(Some("a.wav".to_string())).is_ok());
    assert!(s.playback.active.is_none());
    assert!(s.delete(None).is_err());
}

#[test]
fn rename_moves_playback_even_when_refused() {
    let mut s = State::new();
    s.load(Some("a.wav".to_string()), stereo(1));
    s.load(Some("b.wav".to_string()), stereo(1));
    assert!(s.play(Some("a".to_string())));
    assert_eq!(
        s.rename(Some("a".to_string()), Some("b".to_string())).err().unwrap(),
        "resource already exists: b"
    );
    assert_eq!(s.playback.active.as_deref(), Some("b"));
    assert!(s.play(Some("a".to_string())));
    assert!(s.rename(Some("a".to_string()), Some("c".to_string())).is_ok());
    assert_eq!(s.playback.active.as_deref(), Some("c"));
    assert!(s.resources.get("c").is_some());
}

#[test]
fn prune_reports_count_and_stops_unlisted_playback() {
    let mut s = State::new();
    for name in ["a.wav", "b.wav", "c.wav"] {
        s.load(Some(name.to_string()), stereo(1));
    }
    assert!(s.play(Some("b".to_string())));
    assert_eq!(s.prune(Some("a.wav, c".to_string())), 1);
    assert!(s.playback.active.is_none());
    assert!(s.play(Some("a".to_string())));
    assert_eq!(s.prune(Some("a".to_string())), 1);
    assert_eq!(s.playback.active.as_deref(), Some("a"));
    assert_eq!(s.prune(None), 1);
    assert!(s.resources.snapshot().is_empty());
}

#[test]
fn listing_reports_kind_and_bytes() {
    let mut s = State::new();
    s.load(Some("a.wav".to_string()), stereo(3));
    s.resources.add("t", Resource::Text(std::sync::Arc::new("héllo".to_string()))).unwrap();
    s.resources.add("w", Resource::F64(std::sync::Arc::new(vec![0.0; 5]))).unwrap();
    s.resources.add("o", Resource::Any(std::sync::Arc::new(1))).unwrap();
    assert!(s.play(Some("a".to_string())));
    let snap = s.snapshot_json();
    assert_eq!(snap.active.as_deref(), Some("a"));
    let mut lines: Vec<(String, String, usize)> = snap
        .resources
        .iter()
        .map(|e| (e.id.clone(), e.kind.clone(), e.bytes))
        .collect();
    lines.sort();
    assert_eq!(
        lines,
        vec![
            ("a".to_string(), "audio".to_string(), 24),
            ("o".to_string(), "any".to_string(), 0),
            ("t".to_string(), "text".to_string(), 6),
            ("w".to_string(), "f64".to_string(), 40),
        ]
    );
}

#[test]
fn resource_bytes_by_kind() {
    let f32s: Res = Resource::F32(std::sync::Arc::new(vec![0.0; 3]));
    assert_eq!(resource_bytes(&f32s), 12);
    let bytes: Res = Resource::bytes(vec![1, 2]);
    assert_eq!(resource_bytes(&bytes), 2);
}

#[test]
fn lookup_uses_normalized_names() {
    let mut s = State::new();
    s.load(Some("dir/x.wav".to_string()), stereo(1));
    assert!(s.lookup(Some("other/x.flac".to_string())).is_some());
    assert!(s.lookup(None).is_none());
}

#[test]
fn export_sources() {
    let audio: Res = Resource::audio(AudioBuffer::new(vec![0.5, 0.5], 48_000, 2).unwrap());
    let (samples, rate, channels) = export_source(&audio).unwrap();
    assert_eq!((samples.len(), rate, channels), (2, 48_000, 2));
    let plain: Res = Resource::F32(std::sync::Arc::new(vec![0.1, 0.2, 0.3]));
    let (samples, rate, channels) = export_source(&plain).unwrap();
    assert_eq!((samples.len(), rate, channels), (3, 44_100, 1));
    let bytes: Res = Resource::bytes(vec![1]);
    assert!(export_source(&bytes).is_none());
}

#[test]
fn metadata_of_audio_only() {
    let audio: Res = Resource::audio(stereo(5));
    assert_eq!(audio_metadata(&audio), Some((5, 44_100, 2)));
    let bytes: Res = Resource::bytes(vec![1]);
    assert_eq!(audio_metadata(&bytes), None);
}

#[test]
fn wav_header_fields() {
    let h = wav_header(4, 44_100, 2);
    assert_eq!(h.len(), 44);
    assert_eq!(&h[0..4], b"RIFF");
    assert_eq!(&h[4..8], &44u32.to_le_bytes());
    assert_eq!(&h[8..16], b"WAVEfmt ");
    assert_eq!(&h[16..20], &16u32.to_le_bytes());
    assert_eq!(&h[20..22], &1u16.to_le_bytes());
    assert_eq!(&h[22..24], &2u16.to_le_bytes());
    assert_eq!(&h[24..28], &44_100u32.to_le_bytes());
    assert_eq!(&h[28..32], &176_400u32.to_le_bytes());
    assert_eq!(&h[32..34], &4u16.to_le_bytes());
    assert_eq!(&h[34..36], &16u16.to_le_bytes());
    assert_eq!(&h[36..40], b"data");
    assert_eq!(&h[40..44], &8u32.to_le_bytes());
}
