//! Orchestration, windows and registry behavior.

use tft_vision::CaptureStatus;
use tft_vision::Frame;
use tft_vision::Pipeline;
use tft_vision::VisionResult;
use tft_vision::data::ChampionData;
use tft_vision::data::GameData;
use tft_vision::new_target_window;
use tft_vision::pipeline::compute_fps_milli;
use tft_vision::state::GameState;
use tft_vision::vision;
use tft_vision::windows::WindowInfo;
use tft_vision::windows::ascii_lowercase;
use tft_vision::windows::check_screen_recording_permission;
use tft_vision::windows::default_title_patterns;
use tft_vision::windows::filter_windows;
use tft_vision::windows::select_window;
use tft_vision::windows::title_contains;

fn tiny_frame() -> Frame {
    Frame::from_raw(1, 1, vec![1, 2, 3, 255]).expect("fits")
}

fn status_active() -> CaptureStatus {
    CaptureStatus {
        is_capturing: true,
        window_found: true,
        window_title: Some("game".to_string()),
        fps_milli: 2000,
        last_capture_time: Some(12345),
        resolution: Some((1920, 1080)),
    }
}

#[test]
fn test_pipeline_cancellation_ends_inactive() {
    // Five frames through the pipeline with cancellation mid-stream: the
    // final published status must be inactive and the pipeline idle.
    let mut p = Pipeline::new();
    p.start();
    assert!(p.should_continue());
    for i in 0..5u32 {
        p.publish_frame(tiny_frame(), status_active());
        p.publish_vision(vision::VisionResult::empty());
        if i == 2 {
            p.stop();
        }
        if !p.should_continue() {
            break;
        }
    }
    assert!(!p.should_continue());
    p.finalize();
    let status = p.capture_status().as_ref().expect("final status published");
    assert!(!status.is_capturing);
    assert!(!status.window_found);
    assert_eq!(status.fps_milli, 0);
    // A second start works from the clean idle state.
    p.start();
    assert!(p.should_continue());
}

#[test]
fn test_pipeline_start_is_idempotent() {
    let mut p = Pipeline::new();
    p.start();
    p.start();
    assert!(p.should_continue());
    p.stop();
    p.start();
    assert!(!p.should_continue());
}

#[test]
fn test_latest_value_conflates() {
    let mut p = Pipeline::new();
    p.start();
    let mut empty = VisionResult::empty();
    empty.gold = Some(1);
    p.publish_vision(empty);
    let mut second = VisionResult::empty();
    second.gold = Some(2);
    p.publish_vision(second);
    let latest = p.latest_vision().as_ref().expect("published");
    assert_eq!(latest.gold, Some(2));
}

#[test]
fn test_compute_fps_milli() {
    assert_eq!(compute_fps_milli(10, 2000), 5000);
    assert_eq!(compute_fps_milli(0, 1000), 0);
    assert_eq!(compute_fps_milli(5, 0), 0);
    assert_eq!(compute_fps_milli(3, 1000), 3000);
}

#[test]
fn test_capture_status_default_is_inactive() {
    let s = CaptureStatus::default();
    assert!(!s.is_capturing);
    assert!(!s.window_found);
    assert_eq!(s.window_title, None);
    assert_eq!(s.fps_milli, 0);
}

#[test]
fn test_new_target_window_starts_in_auto_mode() {
    let t = new_target_window();
    assert!(t.title.is_none());
}

#[test]
fn test_filter_windows_drops_untitled_and_tiny() {
    let raw = vec![
        WindowInfo { title: "Game".to_string(), app_name: "game".to_string(), width: 800, height: 600 },
        WindowInfo { title: "".to_string(), app_name: "bg".to_string(), width: 800, height: 600 },
        WindowInfo { title: "Tiny".to_string(), app_name: "t".to_string(), width: 10, height: 10 },
    ];
    let kept = filter_windows(raw);
    assert_eq!(kept.len(), 1);
    assert_eq!(kept[0].title, "Game");
}

#[test]
fn test_screen_recording_permission_heuristic() {
    let few = vec!["app1".to_string(), "app1".to_string(), "".to_string()];
    assert!(!check_screen_recording_permission(&few));
    let many = vec![
        "app1".to_string(),
        "app2".to_string(),
        "app1".to_string(),
        "app3".to_string(),
    ];
    assert!(check_screen_recording_permission(&many));
}

#[test]
fn test_title_matching_is_case_insensitive() {
    assert!(title_contains(&b"Teamfight Tactics (TM)".to_vec(), &b"teamfight tactics".to_vec()));
    assert!(!title_contains(&b"Notepad".to_vec(), &b"tft".to_vec()));
    assert_eq!(ascii_lowercase(&b"TFT!".to_vec()), b"tft!".to_vec());
}

#[test]
fn test_select_window_picks_first_match() {
    let titles = vec![
        b"Text Editor".to_vec(),
        b"League of Legends (TM) Client".to_vec(),
        b"TFT stream".to_vec(),
    ];
    let patterns = default_title_patterns();
    assert_eq!(select_window(&titles, &patterns), Some(1));
    let user = vec![ascii_lowercase(&b"Stream".to_vec())];
    assert_eq!(select_window(&titles, &user), Some(2));
    let none = vec![b"chess".to_vec()];
    assert_eq!(select_window(&titles, &none), None);
}

#[test]
fn test_game_data_lookup() {
    let mut data = GameData::new();
    data.insert_champion(
        ChampionData {
            id: "c1".to_string(),
            name: "One".to_string(),
            cost: 1,
            traits: vec!["brawler".to_string()],
            icon: "c1.png".to_string(),
        },
        "one".to_string(),
    );
    assert_eq!(data.champion_count(), 1);
    assert!(data.champion_by_id(&"c1".to_string()).is_some());
    assert!(data.champion_by_id(&"c2".to_string()).is_none());
}

#[test]
fn test_game_state_new_is_empty() {
    let s = GameState::new();
    assert_eq!(s.gold, 0);
    assert_eq!(s.level, 0);
    assert_eq!(s.stage, "");
    assert!(s.shop.is_empty());
}
