use rustmd::column_memory::ColumnMemory;

#[test]
fn new_is_empty() {
    let cm = ColumnMemory::<f32>::new();
    assert!(!cm.is_set());
}

#[test]
fn target_x_returns_current_when_empty() {
    let cm = ColumnMemory::<f32>::new();
    assert_eq!(cm.target_x(42.0f32), 42.0f32);
}

#[test]
fn target_x_returns_recorded_when_set() {
    let mut cm = ColumnMemory::<f32>::new();
    cm.record(100.0f32);
    assert_eq!(cm.target_x(42.0f32), 100.0f32);
    assert!(cm.is_set());
}

#[test]
fn clear_resets_to_empty() {
    let mut cm = ColumnMemory::<f32>::new();
    cm.record(100.0f32);
    assert!(cm.is_set());
    cm.clear();
    assert!(!cm.is_set());
    assert_eq!(cm.target_x(42.0f32), 42.0f32);
}

#[test]
fn record_if_not_clamped_updates_when_not_clamped() {
    let mut cm = ColumnMemory::<f32>::new();
    cm.record(80.0f32);
    cm.record_if_not_clamped(60.0f32, false);
    // Not clamped → should update to the new value
    assert_eq!(cm.target_x(0.0f32), 60.0f32);
}

#[test]
fn record_if_not_clamped_preserves_old_when_clamped() {
    let mut cm = ColumnMemory::<f32>::new();
    cm.record(200.0f32);
    cm.record_if_not_clamped(100.0f32, true);
    // Clamped → should preserve the old value for snap-back
    assert_eq!(cm.target_x(0.0f32), 200.0f32);
}

#[test]
fn snap_back_across_short_line() {
    // Simulates: user on long line at 200px → moves to short line (clamped
    // at 100px) → moves to another long line → snaps back to 200px
    let mut cm = ColumnMemory::<f32>::new();

    // First move from long line
    cm.record(200.0f32);
    assert_eq!(cm.target_x(0.0f32), 200.0f32);

    // Move to short line (clamped)
    cm.record_if_not_clamped(100.0f32, true);
    assert_eq!(cm.target_x(0.0f32), 200.0f32); // preserved for snap-back

    // Move to another long line (within width, not clamped)
    cm.record_if_not_clamped(195.0f32, false);
    assert_eq!(cm.target_x(0.0f32), 195.0f32); // updated
}

#[test]
fn survive_blank_line() {
    // Simulates: user moves from content line at 80px → blank line
    // (column preserved) → next content line at 80px
    let mut cm = ColumnMemory::<f32>::new();

    // Start on content line
    cm.record(80.0f32);

    // Blank line: cursor at start, column memory intentionally NOT updated
    // (caller does not call record/record_if_not_clamped)

    // Next content line: target_x still returns 80px
    assert_eq!(cm.target_x(0.0f32), 80.0f32);
}

#[test]
fn defaults_to_current_when_cleared_by_horizontal_move() {
    let mut cm = ColumnMemory::<f32>::new();
    cm.record(80.0f32);
    assert_eq!(cm.target_x(10.0f32), 80.0f32);

    // User presses Left → column memory resets
    cm.clear();
    assert!(!cm.is_set());
    assert_eq!(cm.target_x(35.0f32), 35.0f32);
}
