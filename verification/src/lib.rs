//! Screen-analysis library for a Teamfight Tactics-style game UI.
//!
//! The library locates the game area inside an arbitrary video frame, finds
//! the HUD boundary, the shop-card slots and the gold/level/stage text boxes
//! from pixel statistics alone, matches shop-card crops against a champion
//! template catalog by normalized cross-correlation, and models the frame
//! pipeline that publishes the latest recognition result.
//!
//! All coordinates handed between stages are resolution-independent fixed
//! point fractions (units of 1/10000 of the containing image), and all
//! brightness statistics are integer milli-units (1/1000 of one 0..=255
//! brightness step), so every stage is exact integer arithmetic.

pub mod brightness;
pub mod data;
pub mod frame;
pub mod game_area;
pub mod layout;
pub mod matcher;
pub mod ncc;
pub mod ocr;
pub mod pipeline;
pub mod profile;
pub mod region;
pub mod state;
pub mod vision;
pub mod windows;

pub use frame::Frame;
pub use frame::GrayFrame;
pub use game_area::GameArea;
pub use game_area::detect_game_area;
pub use layout::DetectedLayout;
pub use layout::detect_layout;
pub use matcher::ChampionMatcher;
pub use matcher::MatchResult;
pub use ocr::DigitReader;
pub use pipeline::CaptureStatus;
pub use pipeline::Pipeline;
pub use region::ScreenRegion;
pub use vision::ShopSlotResult;
pub use vision::VisionResult;
pub use vision::analyze_frame;
pub use vision::process_frame;
pub use windows::TargetWindow;
pub use windows::WindowInfo;
pub use windows::WindowListResult;
pub use windows::new_target_window;
