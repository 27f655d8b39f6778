//! The platform-portable state behind an interactive front end: which
//! screen is shown, which widget and input field are selected, the text
//! buffers being edited, and the cursor arithmetic of line editing.

use vstd::prelude::*;
use vstd::string::StrSliceExecFns;
use vstd::string::StringExecFns;
use vstd::utf8::encode_utf8;

verus! {

/// The screen currently shown.
#[derive(Clone, PartialEq)]
pub enum CurrentScreen {
    ProcessList,
    Scan,
    ValueEditing,
    Exiting,
}

/// The input field that editing keys go to.
#[derive(Clone, PartialEq, Debug)]
pub enum SelectedInput {
    ProcessFilter,
    ScanValue,
    StartAddress,
    EndAddress,
    ResultValue,
    ReadSize,
}

/// The widgets of the scan screen, in focus order.
#[derive(Debug, Clone, PartialEq)]
pub enum ScanViewWidget {
    ScanResults,
    ValueInput,
    PermissionsCheckbox,
    ValueTypeSelect,
    ReadSize,
    StartAddressInput,
    EndAddressInput,
    AppMessage,
    WatchList,
}

/// The widgets of the process-list screen, in focus order.
#[derive(Debug, Clone, PartialEq)]
pub enum ProcessListWidget {
    ProcessList,
    ProcessFilter,
}

/// Whether keys navigate or insert text.
#[derive(Clone, PartialEq)]
pub enum InputMode {
    Normal,
    Insert,
}

/// The tone of a status message.
#[derive(Clone, PartialEq, Default)]
pub enum AppMessageType {
    #[default]
    Info,
    Error,
}

/// A status message shown to the user.
#[derive(Clone, Default)]
pub struct AppMessage {
    pub msg: String,
    pub msg_type: AppMessageType,
}

impl AppMessage {
    pub fn new(msg: &str, msg_type: AppMessageType) -> (r: AppMessage)
        ensures
            r.msg@ == msg@,
            r.msg_type == msg_type,
    {
        AppMessage { msg: msg.to_owned(), msg_type }
    }
}

/// What a scan-lifecycle command asks for.
#[derive(Clone, PartialEq)]
pub enum AppAction {
    New,
    Refresh,
    Next,
}

/// Every command a key can be bound to.
#[derive(Clone, Debug, PartialEq)]
pub enum Command {
    NextWidget,
    PrevWidget,
    GoBack,
    ExitInsertMode,
    AcceptInput,
    InsertChar(char),
    DeleteChar,
    MoveCursorLeft,
    MoveCursorRight,
    ShowProcessList,
    SelectProcess,
    NewScan,
    NextScan,
    RefreshScan,
    ToggleReadWrite,
    AddToWatchlist,
    RemoveFromWatchlist,
    EditValue,
    CopyValue,
    MoveUp,
    MoveDown,
    MoveToTop,
    MoveToBottom,
    Quit,
    ConfirmQuit,
    CancelQuit,
}

/// Where a list-movement command goes.
#[derive(Clone, Debug, PartialEq)]
pub enum Direction {
    Up,
    Down,
    Top,
    Bottom,
}

/// Which screen is shown, where the user came from, and whether the
/// application is about to leave.
#[derive(Clone)]
pub struct AppState {
    pub current_screen: CurrentScreen,
    pub screen_history: Vec<CurrentScreen>,
    pub should_exit: bool,
}

impl AppState {
    pub fn new() -> (r: AppState)
        ensures
            r.current_screen == CurrentScreen::ProcessList,
            r.screen_history@ =~= Seq::<CurrentScreen>::empty(),
            !r.should_exit,
    {
        AppState {
            current_screen: CurrentScreen::ProcessList,
            screen_history: Vec::new(),
            should_exit: false,
        }
    }
}

/// The text buffers behind each input field.
#[derive(Clone)]
pub struct InputBuffers {
    pub process_filter: String,
    pub scan_value: String,
    pub start_address: String,
    pub end_address: String,
    pub result_value: String,
    pub read_size: String,
}

/// The buffer an input field selects.
pub open spec fn buffer_of(b: InputBuffers, input: SelectedInput) -> String {
    match input {
        SelectedInput::ProcessFilter => b.process_filter,
        SelectedInput::ScanValue => b.scan_value,
        SelectedInput::StartAddress => b.start_address,
        SelectedInput::EndAddress => b.end_address,
        SelectedInput::ResultValue => b.result_value,
        SelectedInput::ReadSize => b.read_size,
    }
}

/// The buffers with one field's buffer replaced.
pub open spec fn set_buffer(b: InputBuffers, input: SelectedInput, v: String) -> InputBuffers {
    match input {
        SelectedInput::ProcessFilter => (InputBuffers { process_filter: v, ..b }),
        SelectedInput::ScanValue => (InputBuffers { scan_value: v, ..b }),
        SelectedInput::StartAddress => (InputBuffers { start_address: v, ..b }),
        SelectedInput::EndAddress => (InputBuffers { end_address: v, ..b }),
        SelectedInput::ResultValue => (InputBuffers { result_value: v, ..b }),
        SelectedInput::ReadSize => (InputBuffers { read_size: v, ..b }),
    }
}

impl InputBuffers {
    pub fn new() -> (r: InputBuffers)
        ensures
            r.process_filter@ =~= Seq::<char>::empty(),
            r.scan_value@ =~= Seq::<char>::empty(),
            r.start_address@ =~= Seq::<char>::empty(),
            r.end_address@ =~= Seq::<char>::empty(),
            r.result_value@ =~= Seq::<char>::empty(),
            r.read_size@ =~= Seq::<char>::empty(),
    {
        InputBuffers {
            process_filter: String::new(),
            scan_value: String::new(),
            start_address: String::new(),
            end_address: String::new(),
            result_value: String::new(),
            read_size: String::new(),
        }
    }

    /// Borrow a field's buffer for editing.
    pub fn get_mut(&mut self, input: &SelectedInput) -> (r: &mut String)
        ensures
            *r == buffer_of(*old(self), *input),
            *final(self) == set_buffer(*old(self), *input, *final(r)),
    {
        match input {
            SelectedInput::ProcessFilter => &mut self.process_filter,
            SelectedInput::ScanValue => &mut self.scan_value,
            SelectedInput::StartAddress => &mut self.start_address,
            SelectedInput::EndAddress => &mut self.end_address,
            SelectedInput::ResultValue => &mut self.result_value,
            SelectedInput::ReadSize => &mut self.read_size,
        }
    }

    /// Read a field's buffer.
    pub fn get(&self, input: &SelectedInput) -> (r: &String)
        ensures
            *r == buffer_of(*self, *input),
    {
        match input {
            SelectedInput::ProcessFilter => &self.process_filter,
            SelectedInput::ScanValue => &self.scan_value,
            SelectedInput::StartAddress => &self.start_address,
            SelectedInput::EndAddress => &self.end_address,
            SelectedInput::ResultValue => &self.result_value,
            SelectedInput::ReadSize => &self.read_size,
        }
    }

    /// The byte length of a field's buffer.
    pub fn len(&self, input: &SelectedInput) -> (r: usize)
        ensures
            r == (encode_utf8(buffer_of(*self, *input)@).len() as usize),
    {
        self.get(input).as_str().len()
    }
}

/// Which widget has focus on each screen.
#[derive(Clone)]
pub struct WidgetSelection {
    pub scan_view_widgets: Vec<ScanViewWidget>,
    pub scan_view_selected_widget_index: usize,
    pub scan_view_selected_widget: ScanViewWidget,
    pub process_list_widgets: Vec<ProcessListWidget>,
    pub process_list_selected_widget_index: usize,
    pub process_list_selected_widget: ProcessListWidget,
}

impl WidgetSelection {
    pub fn new() -> (r: WidgetSelection)
        ensures
            r.scan_view_widgets@ =~= seq![
                ScanViewWidget::ScanResults,
                ScanViewWidget::ValueInput,
                ScanViewWidget::PermissionsCheckbox,
                ScanViewWidget::ValueTypeSelect,
                ScanViewWidget::StartAddressInput,
                ScanViewWidget::EndAddressInput,
                ScanViewWidget::AppMessage,
                ScanViewWidget::WatchList,
            ],
            r.scan_view_selected_widget == ScanViewWidget::ValueInput,
            r.scan_view_selected_widget_index == 1,
            r.process_list_widgets@ =~= seq![
                ProcessListWidget::ProcessFilter,
                ProcessListWidget::ProcessList,
            ],
            r.process_list_selected_widget == ProcessListWidget::ProcessFilter,
            r.process_list_selected_widget_index == 0,
    {
        let mut scan_view_widgets: Vec<ScanViewWidget> = Vec::new();
        scan_view_widgets.push(ScanViewWidget::ScanResults);
        scan_view_widgets.push(ScanViewWidget::ValueInput);
        scan_view_widgets.push(ScanViewWidget::PermissionsCheckbox);
        scan_view_widgets.push(ScanViewWidget::ValueTypeSelect);
        scan_view_widgets.push(ScanViewWidget::StartAddressInput);
        scan_view_widgets.push(ScanViewWidget::EndAddressInput);
        scan_view_widgets.push(ScanViewWidget::AppMessage);
        scan_view_widgets.push(ScanViewWidget::WatchList);
        let mut process_list_widgets: Vec<ProcessListWidget> = Vec::new();
        process_list_widgets.push(ProcessListWidget::ProcessFilter);
        process_list_widgets.push(ProcessListWidget::ProcessList);
        WidgetSelection {
            scan_view_widgets,
            scan_view_selected_widget: ScanViewWidget::ValueInput,
            scan_view_selected_widget_index: 1,
            process_list_widgets,
            process_list_selected_widget: ProcessListWidget::ProcessFilter,
            process_list_selected_widget_index: 0,
        }
    }
}

/// A cursor position clipped to the text it points into.
pub open spec fn clamp_pos(s: Seq<char>, p: int) -> int {
    if p <= s.len() {
        p
    } else {
        s.len() as int
    }
}

/// Keep the cursor inside the text.
pub fn clamp_cursor(input: &str, new_cursor_pos: usize) -> (r: usize)
    ensures
        r == clamp_pos(input@, new_cursor_pos as int),
{
    let n = input.unicode_len();
    if new_cursor_pos > n {
        n
    } else {
        new_cursor_pos
    }
}

/// Step the cursor one character left, stopping at the start.
pub fn move_cursor_left(input: &String, char_index: &mut usize)
    ensures
        *final(char_index) == clamp_pos(
            input@,
            if *old(char_index) == 0 {
                0
            } else {
                *old(char_index) - 1
            },
        ),
{
    let moved: usize = if *char_index == 0 {
        0
    } else {
        *char_index - 1
    };
    *char_index = clamp_cursor(input.as_str(), moved);
}

/// Step the cursor one character right, stopping at the end.
pub fn move_cursor_right(input: &String, char_index: &mut usize)
    ensures
        *final(char_index) == clamp_pos(
            input@,
            if *old(char_index) == usize::MAX {
                usize::MAX as int
            } else {
                *old(char_index) + 1
            },
        ),
{
    let moved: usize = if *char_index == usize::MAX {
        usize::MAX
    } else {
        *char_index + 1
    };
    *char_index = clamp_cursor(input.as_str(), moved);
}

/// The byte offset of the character the cursor points at (the text's byte
/// length when the cursor sits past the end).
pub fn byte_index(input: &str, character_index: usize) -> (r: usize)
    ensures
        r == (encode_utf8(input@.take(clamp_pos(input@, character_index as int))).len() as usize),
{
    let n = input.unicode_len();
    let k: usize = if character_index > n {
        n
    } else {
        character_index
    };
    let prefix = input.substring_char(0, k);
    proof {
        assert(prefix@ =~= input@.take(clamp_pos(input@, character_index as int)));
    }
    prefix.len()
}

/// Insert a character at the cursor and step the cursor past it.
pub fn enter_char(input: &mut String, char_index: &mut usize, new_char: char)
    ensures
        ({
            let k = clamp_pos(old(input)@, *old(char_index) as int);
            final(input)@ == old(input)@.take(k) + seq![new_char] + old(input)@.skip(k)
        }),
        *final(char_index) == clamp_pos(
            final(input)@,
            if *old(char_index) == usize::MAX {
                usize::MAX as int
            } else {
                *old(char_index) + 1
            },
        ),
{
    let n = input.as_str().unicode_len();
    let k: usize = if *char_index > n {
        n
    } else {
        *char_index
    };
    let mut out = input.as_str().substring_char(0, k).to_owned();
    crate::render::push_char(&mut out, new_char);
    out.append(input.as_str().substring_char(k, n));
    proof {
        let kk = clamp_pos(input@, *char_index as int);
        assert(out@ =~= input@.take(kk) + seq![new_char] + input@.skip(kk));
    }
    *input = out;
    move_cursor_right(input, char_index);
}

/// Delete the character left of the cursor, if any, and step the cursor
/// back onto the gap.
pub fn delete_char(input: &mut String, char_index: &mut usize)
    ensures
        *old(char_index) == 0 ==> *final(input) == *old(input) && *final(char_index) == 0,
        *old(char_index) != 0 ==> ({
            let k1 = clamp_pos(old(input)@, *old(char_index) - 1);
            let k2 = clamp_pos(old(input)@, *old(char_index) as int);
            final(input)@ == old(input)@.take(k1) + old(input)@.skip(k2) && *final(char_index)
                == clamp_pos(final(input)@, *old(char_index) - 1)
        }),
{
    if *char_index != 0 {
        let n = input.as_str().unicode_len();
        let k1: usize = if *char_index - 1 > n {
            n
        } else {
            *char_index - 1
        };
        let k2: usize = if *char_index > n {
            n
        } else {
            *char_index
        };
        let mut out = input.as_str().substring_char(0, k1).to_owned();
        out.append(input.as_str().substring_char(k2, n));
        proof {
            let kk1 = clamp_pos(input@, *char_index - 1);
            let kk2 = clamp_pos(input@, *char_index as int);
            assert(out@ =~= input@.take(kk1) + input@.skip(kk2));
        }
        *input = out;
        move_cursor_left(input, char_index);
    }
}

/// Put the cursor back at the start of the line.
pub fn reset_cursor(char_index: &mut usize)
    ensures
        *final(char_index) == 0,
{
    *char_index = 0;
}

} // verus!
