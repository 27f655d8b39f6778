use memscan::mem::{read_memory_address, write_memory_address, MemoryError};
use memscan::proc::{get_list, ProcInfo};
use memscan::scan::{ScanError, ScanResult};
use memscan::codec::ValueType;
use memscan::ui::{
    byte_index, clamp_cursor, delete_char, enter_char, move_cursor_left, move_cursor_right,
    reset_cursor, AppState, CurrentScreen, InputBuffers, ProcessListWidget, ScanViewWidget,
    SelectedInput, WidgetSelection,
};

fn sample_procs() -> Vec<ProcInfo> {
    vec![
        ProcInfo::new(10, "cargo-watch".to_string()),
        ProcInfo::new(11, "bash".to_string()),
        ProcInfo::new(12, "Cargo".to_string()),
        ProcInfo::new(13, "carrier-daemon".to_string()),
        ProcInfo::new(14, "init".to_string()),
    ]
}

#[test]
fn test_get_list_filtering() {
    let list = get_list(sample_procs(), None);
    assert!(list.len() > 0);
    let list = get_list(sample_procs(), Some("car"));

    for proc in list {
        assert!(proc.name.to_lowercase().starts_with("car"));
    }
}

#[test]
fn filter_is_case_insensitive_and_sorted_by_length() {
    let list = get_list(sample_procs(), Some("CAR"));
    let names: Vec<&str> = list.iter().map(|p| p.name.as_str()).collect();
    // shortest matching name first; "Cargo" matches through lowercasing
    assert_eq!(names, vec!["Cargo", "cargo-watch", "carrier-daemon"]);
}

#[test]
fn empty_or_whitespace_filter_keeps_order() {
    let list = get_list(sample_procs(), Some("  \t "));
    let names: Vec<&str> = list.iter().map(|p| p.name.as_str()).collect();
    assert_eq!(
        names,
        vec!["cargo-watch", "bash", "Cargo", "carrier-daemon", "init"]
    );
}

#[test]
fn stable_order_for_equal_lengths() {
    let procs = vec![
        ProcInfo::new(1, "abcd".to_string()),
        ProcInfo::new(2, "abce".to_string()),
        ProcInfo::new(3, "ab".to_string()),
    ];
    let list = get_list(procs, Some("ab"));
    let pids: Vec<u32> = list.iter().map(|p| p.pid).collect();
    assert_eq!(pids, vec![3, 1, 2]);
}

#[test]
fn read_write_on_absent_process_fail() {
    // no such pid: the read fails per-call, not as an attach failure
    let r = read_memory_address(0x3fff_fffe, 0x1000, 4);
    assert!(matches!(r.unwrap_err(), MemoryError::MemRead(_)));
    let w = write_memory_address(0x3fff_fffe, 0x1000, &[0u8; 4]);
    assert!(matches!(w.unwrap_err(), MemoryError::MemWrite(_)));
}

#[test]
fn scan_result_strings() {
    let r = ScanResult::new(
        0x1000,
        ValueType::U32,
        99999_u32.to_le_bytes().to_vec(),
        vec![],
    );
    assert_eq!(r.get_string().unwrap(), "99999");
    assert!(r.is_read_only());
    let bad = ScanResult::new(0x1000, ValueType::U64, vec![1, 2], vec![]);
    assert!(matches!(bad.get_string().unwrap_err(), ScanError::TypeMismatch));
}

#[test]
fn app_state_defaults() {
    let s = AppState::new();
    assert!(matches!(s.current_screen, CurrentScreen::ProcessList));
    assert_eq!(s.screen_history.len(), 0);
    assert!(!s.should_exit);
}

#[test]
fn widget_selection_defaults() {
    let w = WidgetSelection::new();
    assert_eq!(w.scan_view_widgets.len(), 8);
    assert!(matches!(w.scan_view_widgets[0], ScanViewWidget::ScanResults));
    assert!(matches!(
        w.scan_view_selected_widget,
        ScanViewWidget::ValueInput
    ));
    assert_eq!(w.scan_view_selected_widget_index, 1);
    assert!(matches!(
        w.process_list_widgets[0],
        ProcessListWidget::ProcessFilter
    ));
    assert_eq!(w.process_list_selected_widget_index, 0);
}

#[test]
fn input_buffers_access() {
    let mut b = InputBuffers::new();
    assert_eq!(b.get(&SelectedInput::ScanValue), "");
    *b.get_mut(&SelectedInput::ScanValue) = "31337".to_string();
    assert_eq!(b.get(&SelectedInput::ScanValue), "31337");
    assert_eq!(b.len(&SelectedInput::ScanValue), 5);
    assert_eq!(b.len(&SelectedInput::EndAddress), 0);
    *b.get_mut(&SelectedInput::ProcessFilter) = "fire".to_string();
    assert_eq!(b.process_filter, "fire");
}

#[test]
fn cursor_movement_clamps() {
    let text = "hello".to_string();
    let mut ci: usize = 3;
    move_cursor_left(&text, &mut ci);
    assert_eq!(ci, 2);
    move_cursor_right(&text, &mut ci);
    assert_eq!(ci, 3);
    let mut ci: usize = 0;
    move_cursor_left(&text, &mut ci);
    assert_eq!(ci, 0);
    let mut ci: usize = 99;
    move_cursor_right(&text, &mut ci);
    assert_eq!(ci, 5);
    assert_eq!(clamp_cursor("hello", 99), 5);
    assert_eq!(clamp_cursor("hello", 2), 2);
}

#[test]
fn byte_index_counts_multibyte_chars() {
    assert_eq!(byte_index("hello", 2), 2);
    assert_eq!(byte_index("hello", 99), 5);
    // 'é' takes two bytes: the third character starts at byte 3
    assert_eq!(byte_index("héllo", 2), 3);
}

#[test]
fn editing_inserts_and_deletes() {
    let mut text = "helo".to_string();
    let mut ci: usize = 3;
    enter_char(&mut text, &mut ci, 'l');
    assert_eq!(text, "hello");
    assert_eq!(ci, 4);
    delete_char(&mut text, &mut ci);
    assert_eq!(text, "helo");
    assert_eq!(ci, 3);
    // deleting at the line start is a no-op
    let mut ci0: usize = 0;
    delete_char(&mut text, &mut ci0);
    assert_eq!(text, "helo");
    assert_eq!(ci0, 0);
    // multi-byte aware editing
    let mut text = "héllo".to_string();
    let mut ci: usize = 2;
    delete_char(&mut text, &mut ci);
    assert_eq!(text, "hllo");
    assert_eq!(ci, 1);
    reset_cursor(&mut ci);
    assert_eq!(ci, 0);
}
