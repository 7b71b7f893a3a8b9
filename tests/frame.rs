use fluidsim::controls::{Controls, Panel, TimeState, UpdateData, UpdateState};
use fluidsim::frame::{
    frame_substeps, grid_count, grid_index, pass_ticks, passes, query_count, timestamp_slots, FrameAction, Pass,
    TIMED_PASSES,
};
use fluidsim::input::{command_for, Button, Command, InputEvent, InputHelper, InputResponse, Key};
use fluidsim::mouse::MouseButtons;

#[test]
fn first_frame_resets_then_uploads_mouse() {
    let mut u = UpdateState::default();
    assert_eq!(u.begin_frame(), FrameAction::Reset);
    assert!(u.mouse);
    assert!(!u.reset);
    assert_eq!(u.begin_frame(), FrameAction::Simulate { upload_mouse: true });
    assert!(!u.mouse);
    assert_eq!(u.begin_frame(), FrameAction::Simulate { upload_mouse: false });
}

#[test]
fn reset_dispatches_copy_only() {
    assert_eq!(passes(FrameAction::Reset), vec![Pass::CopyPrims]);
}

#[test]
fn step_sorts_between_hash_passes() {
    let p = passes(FrameAction::Simulate { upload_mouse: false });
    assert_eq!(
        p,
        vec![
            Pass::ExternalForces,
            Pass::PreSort,
            Pass::Sort,
            Pass::PostSort,
            Pass::UpdateDensities,
            Pass::PressureForce,
            Pass::Viscosity,
            Pass::UpdatePositions,
            Pass::Collide,
            Pass::CopyPrims,
        ]
    );
    assert_eq!(p.len(), TIMED_PASSES);
}

#[test]
fn query_slots() {
    assert_eq!(query_count(), 20);
    assert_eq!(timestamp_slots(0), (0, 1));
    assert_eq!(timestamp_slots(3), (6, 7));
    assert_eq!(timestamp_slots(9), (18, 19));
}

#[test]
fn pass_ticks_from_stamps() {
    let ts: Vec<u64> = (0..20).map(|i| 1000 + i * 10).collect();
    let t = pass_ticks(&ts).unwrap();
    assert_eq!(t.per_pass, vec![10; 10]);
    assert_eq!(t.total, 190);
}

#[test]
fn pass_ticks_needs_all_stamps() {
    let ts: Vec<u64> = vec![0; 19];
    assert!(pass_ticks(&ts).is_none());
    assert!(pass_ticks(&Vec::new()).is_none());
}

#[test]
fn pass_ticks_clock_going_back() {
    let mut ts: Vec<u64> = vec![0; 20];
    ts[0] = 50;
    ts[1] = 40;
    ts[2] = 100;
    ts[3] = 175;
    let t = pass_ticks(&ts).unwrap();
    assert_eq!(t.per_pass[0], 0);
    assert_eq!(t.per_pass[1], 75);
    assert_eq!(t.total, 0);
}

#[test]
fn grid_count_of_reset() {
    assert_eq!(grid_count(2, 2), Some(4));
    assert_eq!(grid_count(80, 80), Some(6400));
    assert_eq!(grid_count(128, 128), Some(16384));
    assert_eq!(grid_count(129, 128), None);
    assert_eq!(grid_count(0, 5), None);
    assert_eq!(grid_count(5, 0), None);
    assert_eq!(grid_count(100000, 1), None);
    assert_eq!(grid_count(u32::MAX, u32::MAX), None);
}

#[test]
fn grid_index_column_major() {
    assert_eq!(grid_index(0, 0, 2), 0);
    assert_eq!(grid_index(0, 1, 2), 1);
    assert_eq!(grid_index(1, 0, 2), 2);
    assert_eq!(grid_index(1, 1, 2), 3);
}

#[test]
fn substeps_follow_clock() {
    let mut t = TimeState::new();
    assert_eq!(frame_substeps(&mut t, false, 3), 0);
    assert_eq!(frame_substeps(&mut t, true, 3), 3);
    t.step();
    assert!(t.step);
    assert_eq!(frame_substeps(&mut t, false, 3), 3);
    assert!(!t.step);
    assert_eq!(frame_substeps(&mut t, false, 3), 0);
    t.play_pause();
    assert_eq!(frame_substeps(&mut t, false, 5), 5);
    assert_eq!(frame_substeps(&mut t, false, 5), 5);
}

#[test]
fn time_state_step_only_while_paused() {
    let mut t = TimeState::new();
    assert!(t.paused);
    t.play_pause();
    assert!(!t.paused);
    t.step();
    assert!(!t.step);
    assert!(t.can_update());
    t.play_pause();
    assert!(!t.can_update());
    t.step();
    assert!(t.can_update());
    assert!(!t.can_update());
}

#[test]
fn panel_toggles() {
    let mut p = Panel::default();
    assert!(p.show_self && p.show_help && !p.show_perf());
    p.toggle_help();
    assert!(!p.show_help);
    p.toggle_self();
    assert!(!p.show_self);
    p.toggle_perf();
    assert!(p.show_perf());
    p.toggle_help();
    assert!(p.show_help);
}

#[test]
fn update_data_merge_keeps_raised() {
    let mut reset = false;
    let mut retessellate = true;
    UpdateData { reset: &mut reset, retessellate: &mut retessellate }.raise(true, false);
    assert!(reset && retessellate);
    UpdateData { reset: &mut reset, retessellate: &mut retessellate }.raise(false, false);
    assert!(reset && retessellate);
    let mut a = false;
    let mut b = false;
    UpdateData { reset: &mut a, retessellate: &mut b }.raise(false, true);
    assert!(!a && b);
}

#[test]
fn key_map() {
    assert_eq!(command_for(Key::Escape), Command::Exit);
    assert_eq!(command_for(Key::Space), Command::PlayPause);
    assert_eq!(command_for(Key::ArrowRight), Command::Step);
    assert_eq!(command_for(Key::KeyR), Command::Reset);
    assert_eq!(command_for(Key::KeyC), Command::TogglePanel);
    assert_eq!(command_for(Key::KeyH), Command::ToggleHelp);
    assert_eq!(command_for(Key::KeyP), Command::TogglePerf);
    assert_eq!(command_for(Key::Other), Command::Nothing);
}

#[test]
fn controls_apply_commands() {
    let mut c = Controls { time: TimeState::new(), panel: Panel::default(), update: UpdateState { mouse: false, reset: false } };
    assert!(!c.apply(Command::Reset));
    assert!(c.update.reset);
    assert!(!c.apply(Command::PlayPause));
    assert!(!c.time.paused);
    assert!(!c.apply(Command::Step));
    assert!(!c.time.step);
    assert!(!c.apply(Command::TogglePanel));
    assert!(!c.panel.show_self);
    assert!(!c.apply(Command::ToggleHelp));
    assert!(!c.panel.show_help);
    assert!(!c.apply(Command::TogglePerf));
    assert!(c.panel.show_perf);
    assert!(!c.apply(Command::Nothing));
    assert!(c.apply(Command::Exit));
    c.mouse_changed();
    assert!(c.update.mouse);
}

#[test]
fn input_helper_tracks_keys_and_buttons() {
    let mut h = InputHelper::new();
    let press = InputEvent::KeyboardInput { key: Key::Space, pressed: true };
    assert_eq!(h.process(press), InputResponse::Keyboard);
    assert_eq!(h.process(press), InputResponse::Keyboard);
    assert_eq!(h.keys, vec![Key::Space]);
    h.process(InputEvent::KeyboardInput { key: Key::KeyR, pressed: true });
    h.process(InputEvent::KeyboardInput { key: Key::Space, pressed: false });
    assert_eq!(h.keys, vec![Key::KeyR]);
    assert_eq!(h.process(InputEvent::ModifiersChanged), InputResponse::Keyboard);
    assert!(h.keys.is_empty());
    assert_eq!(h.process(InputEvent::MouseInput { button: Button::Left, pressed: true }), InputResponse::Mouse);
    assert!(h.lmb && !h.rmb);
    assert_eq!(h.process(InputEvent::MouseInput { button: Button::Right, pressed: true }), InputResponse::Mouse);
    assert!(h.rmb);
    assert_eq!(h.process(InputEvent::MouseInput { button: Button::Other, pressed: false }), InputResponse::Ignored);
    assert!(h.lmb && h.rmb);
    assert_eq!(h.process(InputEvent::CursorMoved), InputResponse::Mouse);
    assert_eq!(h.process(InputEvent::Other), InputResponse::Ignored);
}

#[test]
fn mouse_buttons_mask() {
    let m = MouseButtons::new(true, false);
    assert_eq!(m.clickmask, 1);
    assert!(m.left() && !m.right() && m.active());
    assert_eq!(m.intensity_sign(), 1);
    let m = MouseButtons::new(false, true);
    assert_eq!(m.clickmask, 2);
    assert_eq!(m.intensity_sign(), -1);
    let mut m = MouseButtons::new(false, false);
    assert_eq!(m.clickmask, 0);
    assert!(!m.active());
    assert_eq!(m.intensity_sign(), 0);
    m.update(true, true);
    assert_eq!(m.clickmask, 3);
    assert_eq!(m.intensity_sign(), 1);
}

#[test]
fn grid_slots_fill_prefix_once() {
    let (nx, ny) = (3u32, 5u32);
    let count = grid_count(nx, ny).unwrap() as usize;
    let mut seen = vec![false; count];
    for i in 0..nx {
        for j in 0..ny {
            let s = grid_index(i, j, ny);
            assert!(s < count);
            assert!(!seen[s]);
            seen[s] = true;
        }
    }
    assert!(seen.iter().all(|&b| b));
}
