use async_vpk::icon::{largest_icon, load_icon, IconError};
use async_vpk::mode::{
    single_request_overruled, use_multi_chunks, GuiState, ModeChoice, PackOptions, StartDecision,
    SINGLE_VPK_LIMIT,
};
use async_vpk::order::bytes_less;

fn opts(single: bool, multi: bool) -> PackOptions {
    PackOptions { single, multi, threads: None }
}

#[test]
fn mode_follows_request_within_the_limit() {
    assert!(!use_multi_chunks(opts(false, false), 10));
    assert!(use_multi_chunks(opts(false, true), 10));
    assert!(!use_multi_chunks(opts(true, false), 10));
    assert!(!use_multi_chunks(opts(false, false), SINGLE_VPK_LIMIT));
}

#[test]
fn mode_is_multi_above_the_limit() {
    assert_eq!(SINGLE_VPK_LIMIT, 600 * 1024 * 1024);
    assert!(use_multi_chunks(opts(false, false), SINGLE_VPK_LIMIT + 1));
    assert!(use_multi_chunks(opts(true, false), SINGLE_VPK_LIMIT + 1));
    assert!(single_request_overruled(opts(true, false), SINGLE_VPK_LIMIT + 1));
    assert!(!single_request_overruled(opts(false, false), SINGLE_VPK_LIMIT + 1));
    assert!(!single_request_overruled(opts(true, false), SINGLE_VPK_LIMIT));
}

#[test]
fn window_starts_empty() {
    let s: GuiState<String> = GuiState::new();
    assert_eq!(s.mode_choice, ModeChoice::Single);
    assert!(!s.running);
    assert_eq!(
        s.logs,
        vec!["Drag and drop an input folder here or click 'Select input folder'.".to_string()]
    );
    assert!(s.single_mode_available());
}

#[test]
fn window_refuses_to_start_without_folders() {
    let mut s: GuiState<String> = GuiState::new();
    assert_eq!(s.start_request(false), StartDecision::Refused);
    assert_eq!(s.logs.last().unwrap(), "Select an input folder before creating the VPK.");
    assert!(!s.select_input("in".to_string(), 5));
    assert_eq!(s.start_request(false), StartDecision::Refused);
    assert_eq!(s.logs.last().unwrap(), "Select an output folder before creating the VPK.");
    s.output_dir = Some("out".to_string());
    assert_eq!(s.start_request(true), StartDecision::Refused);
    assert_eq!(s.logs.last().unwrap(), "Could not derive output file name from the input folder.");
    assert!(!s.running);
}

#[test]
fn window_starts_and_then_is_busy() {
    let mut s: GuiState<String> = GuiState::new();
    s.select_input("in".to_string(), 5);
    s.output_dir = Some("out".to_string());
    let d = s.start_request(false);
    assert_eq!(d, StartDecision::Start(opts(true, false)));
    assert!(s.running);
    assert_eq!(s.logs.last().unwrap(), "Starting packaging...");
    let n = s.logs.len();
    assert_eq!(s.start_request(false), StartDecision::Busy);
    assert_eq!(s.logs.len(), n);
    s.finish_pack();
    assert!(!s.running);
}

#[test]
fn window_forces_multi_for_large_input() {
    let mut s: GuiState<String> = GuiState::new();
    assert!(s.select_input("in".to_string(), SINGLE_VPK_LIMIT + 1));
    assert_eq!(s.mode_choice, ModeChoice::Multi);
    assert!(!s.single_mode_available());
    s.mode_choice = ModeChoice::Single;
    s.output_dir = Some("out".to_string());
    assert_eq!(s.start_request(false), StartDecision::Start(opts(false, true)));
    assert_eq!(s.mode_choice, ModeChoice::Multi);
}

#[test]
fn largest_icon_prefers_last_of_equal_area() {
    assert_eq!(largest_icon(&[]), None);
    assert_eq!(largest_icon(&[(16, 16), (32, 32), (48, 48), (24, 24)]), Some(2));
    assert_eq!(largest_icon(&[(16, 64), (32, 32), (8, 8)]), Some(1));
    assert_eq!(largest_icon(&[(u32::MAX, 2), (70000, 70000), (1, 1)]), Some(1));
}

#[test]
fn icon_loading_picks_the_largest_image() {
    let mut dir = ico::IconDir::new(ico::ResourceType::Icon);
    for size in [16u32, 32, 8] {
        let image = ico::IconImage::from_rgba_data(size, size, vec![200u8; (size * size * 4) as usize]);
        dir.add_entry(ico::IconDirEntry::encode(&image).unwrap());
    }
    let mut bytes = Vec::new();
    dir.write(&mut bytes).unwrap();
    let px = load_icon(&bytes).ok().unwrap();
    assert_eq!((px.width, px.height), (32, 32));
    assert_eq!(px.rgba.len(), 32 * 32 * 4);
}

#[test]
fn icon_loading_rejects_garbage() {
    assert_eq!(load_icon(b"not an icon").err(), Some(IconError::Unreadable));
    let mut bytes = Vec::new();
    ico::IconDir::new(ico::ResourceType::Icon).write(&mut bytes).unwrap();
    assert_eq!(load_icon(&bytes).err(), Some(IconError::NoEntries));
}

#[test]
fn bytes_order_is_lexicographic() {
    assert!(bytes_less(b"", b"a"));
    assert!(bytes_less(b"ab", b"abc"));
    assert!(bytes_less(b"abc", b"abd"));
    assert!(!bytes_less(b"abd", b"abc"));
    assert!(!bytes_less(b"abc", b"abc"));
    assert!(bytes_less(b" ", b"a"));
}

#[test]
fn window_keeps_multi_above_the_limit() {
    let mut s: GuiState<String> = GuiState::new();
    s.choose_mode(ModeChoice::Multi);
    assert_eq!(s.mode_choice, ModeChoice::Multi);
    s.choose_mode(ModeChoice::Single);
    assert_eq!(s.mode_choice, ModeChoice::Single);
    s.select_input("in".to_string(), SINGLE_VPK_LIMIT + 1);
    s.choose_mode(ModeChoice::Single);
    assert_eq!(s.mode_choice, ModeChoice::Multi);
}

fn bmp_icon_file(width: i32, height: i32) -> Vec<u8> {
    let mut bytes = vec![0, 0, 1, 0, 1, 0];
    bytes.extend_from_slice(&[0, 0, 0, 0, 1, 0, 32, 0]);
    bytes.extend_from_slice(&40u32.to_le_bytes());
    bytes.extend_from_slice(&22u32.to_le_bytes());
    bytes.extend_from_slice(&40u32.to_le_bytes());
    bytes.extend_from_slice(&width.to_le_bytes());
    bytes.extend_from_slice(&(height * 2).to_le_bytes());
    bytes.extend_from_slice(&1u16.to_le_bytes());
    bytes.extend_from_slice(&32u16.to_le_bytes());
    bytes.extend_from_slice(&[0u8; 24]);
    bytes
}

#[test]
fn icon_loading_refuses_images_too_large_to_decode() {
    let bytes = bmp_icon_file(65536, 65536);
    assert_eq!(load_icon(&bytes).err(), Some(IconError::Undecodable));
}

#[test]
fn icon_loading_reports_malformed_images() {
    let bytes = bmp_icon_file(2, 2);
    assert_eq!(load_icon(&bytes).err(), Some(IconError::Undecodable));
    let mut truncated = bmp_icon_file(2, 2);
    truncated.truncate(30);
    assert_eq!(load_icon(&truncated).err(), Some(IconError::Unreadable));
}
