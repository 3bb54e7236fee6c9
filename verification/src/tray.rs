//! What the system tray icon shows, and what its menu does.
use vstd::prelude::*;
use vstd::string::StringExecFns;

verus! {

/// Tray icon state.
#[derive(Clone, Copy, Debug, PartialEq, Eq, Structural)]
pub enum TrayState {
    Idle,
    Recording,
    Transcribing,
}

/// Messages sent from tray menu actions to the daemon.
#[derive(Clone, Copy, Debug, PartialEq, Eq, Structural)]
pub enum TrayAction {
    TogglePostProcessing,
    Quit,
}

/// An entry of the tray menu.
#[derive(Debug)]
pub enum TrayItem {
    /// Text that cannot be chosen.
    Label { label: String },
    /// A line between entries.
    Separator,
    /// An entry with a check mark.
    Check { label: String, checked: bool, action: TrayAction },
    /// An entry with an icon.
    Button { label: String, icon_name: String, action: TrayAction },
}

/// What an entry of the tray menu says.
pub enum ItemView {
    Label(Seq<char>),
    Separator,
    Check(Seq<char>, bool, TrayAction),
    Button(Seq<char>, Seq<char>, TrayAction),
}

impl View for TrayItem {
    type V = ItemView;

    open spec fn view(&self) -> ItemView {
        match self {
            TrayItem::Label { label } => ItemView::Label(label@),
            TrayItem::Separator => ItemView::Separator,
            TrayItem::Check { label, checked, action } => ItemView::Check(
                label@,
                *checked,
                *action,
            ),
            TrayItem::Button { label, icon_name, action } => ItemView::Button(
                label@,
                icon_name@,
                *action,
            ),
        }
    }
}

/// What the entries of a menu say.
pub open spec fn item_views(v: Seq<TrayItem>) -> Seq<ItemView> {
    v.map_values(|i: TrayItem| i@)
}

/// A state in words.
pub open spec fn state_text(state: TrayState) -> Seq<char> {
    match state {
        TrayState::Idle => "Idle"@,
        TrayState::Recording => "Recording..."@,
        TrayState::Transcribing => "Transcribing..."@,
    }
}

/// The menu: the state, the switch for post-processing, and the way out.
pub open spec fn menu_items(state: TrayState, post_processing: bool) -> Seq<ItemView> {
    seq![
        ItemView::Label(state_text(state)),
        ItemView::Separator,
        ItemView::Check("Post-Processing"@, post_processing, TrayAction::TogglePostProcessing),
        ItemView::Separator,
        ItemView::Button("Quit"@, "application-exit"@, TrayAction::Quit),
    ]
}

/// The tray icon.
#[derive(Clone, Copy, Debug, PartialEq, Eq, Structural)]
pub struct VoxtypeTray {
    pub state: TrayState,
    pub post_processing_enabled: bool,
}

impl VoxtypeTray {
    /// An idle tray icon.
    pub fn new(post_processing_enabled: bool) -> (r: Self)
        ensures
            r == (VoxtypeTray { state: TrayState::Idle, post_processing_enabled }),
    {
        VoxtypeTray { state: TrayState::Idle, post_processing_enabled }
    }

    pub fn id(&self) -> (r: String)
        ensures
            r@ == "voxtype"@,
    {
        "voxtype".to_owned()
    }

    /// The name of the icon.
    pub fn icon_name(&self) -> (r: String)
        ensures
            r@ == match self.state {
                TrayState::Idle => "audio-input-microphone"@,
                TrayState::Recording => "media-record"@,
                TrayState::Transcribing => "document-edit"@,
            },
    {
        match self.state {
            TrayState::Idle => "audio-input-microphone".to_owned(),
            TrayState::Recording => "media-record".to_owned(),
            TrayState::Transcribing => "document-edit".to_owned(),
        }
    }

    fn state_label(&self) -> (r: String)
        ensures
            r@ == state_text(self.state),
    {
        match self.state {
            TrayState::Idle => "Idle".to_owned(),
            TrayState::Recording => "Recording...".to_owned(),
            TrayState::Transcribing => "Transcribing...".to_owned(),
        }
    }

    /// The title: the state, and whether post-processing is on.
    pub fn title(&self) -> (r: String)
        ensures
            r@ == "Voxtype: "@ + state_text(self.state) + if self.post_processing_enabled {
                " [PP]"@
            } else {
                ""@
            },
    {
        let mut s: String = "Voxtype: ".to_owned();
        s.append(self.state_label().as_str());
        if self.post_processing_enabled {
            s.append(" [PP]");
        } else {
            s.append("");
        }
        s
    }

    /// The text of the tool tip below the title.
    pub fn description(&self) -> (r: String)
        ensures
            r@ == match self.state {
                TrayState::Idle => "Ready - hold Scroll Lock to record"@,
                TrayState::Recording => "Recording audio..."@,
                TrayState::Transcribing => "Transcribing speech..."@,
            },
    {
        match self.state {
            TrayState::Idle => "Ready - hold Scroll Lock to record".to_owned(),
            TrayState::Recording => "Recording audio...".to_owned(),
            TrayState::Transcribing => "Transcribing speech...".to_owned(),
        }
    }

    /// The entries of the menu.
    pub fn menu(&self) -> (r: Vec<TrayItem>)
        ensures
            item_views(r@) == menu_items(self.state, self.post_processing_enabled),
    {
        let mut items: Vec<TrayItem> = Vec::new();
        items.push(TrayItem::Label { label: self.state_label() });
        items.push(TrayItem::Separator);
        items.push(
            TrayItem::Check {
                label: "Post-Processing".to_owned(),
                checked: self.post_processing_enabled,
                action: TrayAction::TogglePostProcessing,
            },
        );
        items.push(TrayItem::Separator);
        items.push(
            TrayItem::Button {
                label: "Quit".to_owned(),
                icon_name: "application-exit".to_owned(),
                action: TrayAction::Quit,
            },
        );
        assert(item_views(items@) =~= menu_items(self.state, self.post_processing_enabled));
        items
    }

    /// Carries out the choice of a menu entry on the icon; the action is then to be sent
    /// to the daemon.
    pub fn activate(&mut self, action: TrayAction) -> (r: TrayAction)
        ensures
            r == action,
            final(self).state == old(self).state,
            final(self).post_processing_enabled == if action == TrayAction::TogglePostProcessing {
                !old(self).post_processing_enabled
            } else {
                old(self).post_processing_enabled
            },
    {
        match action {
            TrayAction::TogglePostProcessing => {
                self.post_processing_enabled = !self.post_processing_enabled;
            },
            TrayAction::Quit => {},
        }
        action
    }

    /// Shows a state.
    pub fn set_state(&mut self, state: TrayState)
        ensures
            *final(self) == (VoxtypeTray { state, ..*old(self) }),
    {
        self.state = state;
    }

    /// Shows whether post-processing is on.
    pub fn set_post_processing(&mut self, enabled: bool)
        ensures
            *final(self) == (VoxtypeTray { post_processing_enabled: enabled, ..*old(self) }),
    {
        self.post_processing_enabled = enabled;
    }
}

} // verus!
