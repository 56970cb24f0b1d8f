use cat_history::monitor::ClipboardMonitor;
use cat_history::snapshot::snapshot_from_reads;
use cat_history::ClipboardError;

#[test]
fn text_snapshot_is_normalized() {
    let r = snapshot_from_reads(Some("line1\r\nline2".to_string()), None).unwrap();
    let snap = r.unwrap();
    assert_eq!(snap.content_type, "text");
    assert_eq!(snap.content, "line1\nline2");
    assert!(!snap.content.contains("\r\n"));
    assert_eq!(snap.preview, "line1\nline2");
}

#[test]
fn blank_text_yields_no_snapshot() {
    let r = snapshot_from_reads(Some("   \r\n  ".to_string()), None).unwrap();
    assert!(r.is_none());
}

#[test]
fn text_takes_priority_over_files() {
    let r = snapshot_from_reads(
        Some("txt".to_string()),
        Some(vec!["/tmp/f".to_string()]),
    )
    .unwrap();
    assert_eq!(r.unwrap().content_type, "text");
}

#[test]
fn file_snapshot_serializes_paths_as_json() {
    let r = snapshot_from_reads(None, Some(vec!["/a/x".to_string(), "/b/y".to_string()]))
        .unwrap();
    let snap = r.unwrap();
    assert_eq!(snap.content_type, "file");
    assert_eq!(snap.content, "[\"/a/x\",\"/b/y\"]");
    assert_eq!(snap.preview, "x\ny");
}

#[test]
fn empty_file_list_yields_no_snapshot() {
    let r = snapshot_from_reads(None, Some(Vec::new())).unwrap();
    assert!(r.is_none());
    let r2 = snapshot_from_reads(None, None).unwrap();
    assert!(r2.is_none());
}

#[test]
fn signature_joins_type_and_content() {
    let r = snapshot_from_reads(Some("abc".to_string()), None).unwrap();
    let snap = r.unwrap();
    assert_eq!(snap.signature(), "text:abc");
}

#[test]
fn monitor_fires_only_on_new_sequence() {
    let mut m = ClipboardMonitor::new();
    assert!(!m.observe_sequence(0), "an unsupported counter is skipped");
    assert!(m.observe_sequence(7));
    assert!(!m.observe_sequence(7), "the same change is not re-processed");
    assert!(m.observe_sequence(8));
}

#[test]
fn monitor_accepts_each_content_once() {
    let mut m = ClipboardMonitor::new();
    let snap = snapshot_from_reads(Some("dup".to_string()), None)
        .unwrap()
        .unwrap();
    assert!(m.accept_snapshot(&snap));
    assert!(!m.accept_snapshot(&snap), "identical content is deduplicated");
    let other = snapshot_from_reads(Some("new".to_string()), None)
        .unwrap()
        .unwrap();
    assert!(m.accept_snapshot(&other));
}

#[test]
fn acquire_backoff_is_bounded() {
    assert_eq!(ClipboardMonitor::acquire_backoff(0), Some(30));
    assert_eq!(ClipboardMonitor::acquire_backoff(3), Some(30));
    assert_eq!(ClipboardMonitor::acquire_backoff(4), None);
}

#[test]
fn utf16_buffer_matches_std_encoding_plus_terminator() {
    for text in ["ab", "汉字", "mixed 𐍈 text", ""] {
        let mut expected: Vec<u16> = text.encode_utf16().collect();
        expected.push(0);
        assert_eq!(ClipboardMonitor::utf16_with_terminator(text), expected);
    }
    assert_eq!(
        ClipboardMonitor::utf16_with_terminator("𐍈"),
        vec![0xD800, 0xDF48, 0]
    );
}

#[test]
fn writer_reports_failure_without_a_platform() {
    assert_eq!(
        ClipboardMonitor::set_clipboard_text("hello"),
        Err(ClipboardError::WriteFailed)
    );
}

#[test]
fn image_capture_is_not_implemented() {
    assert_eq!(ClipboardMonitor::get_clipboard_image(), Ok(None));
}
