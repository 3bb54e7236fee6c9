use voxtype::tray::{TrayAction, TrayItem, TrayState, VoxtypeTray};

#[test]
fn title_shows_state_and_post_processing() {
    let mut tray = VoxtypeTray::new(false);
    assert_eq!(tray.id(), "voxtype");
    assert_eq!(tray.title(), "Voxtype: Idle");
    assert_eq!(tray.icon_name(), "audio-input-microphone");
    assert_eq!(tray.description(), "Ready - hold Scroll Lock to record");
    tray.set_state(TrayState::Recording);
    tray.set_post_processing(true);
    assert_eq!(tray.title(), "Voxtype: Recording... [PP]");
    assert_eq!(tray.icon_name(), "media-record");
    assert_eq!(tray.description(), "Recording audio...");
    tray.set_state(TrayState::Transcribing);
    assert_eq!(tray.title(), "Voxtype: Transcribing... [PP]");
    assert_eq!(tray.icon_name(), "document-edit");
    assert_eq!(tray.description(), "Transcribing speech...");
}

#[test]
fn menu_offers_post_processing_and_quit() {
    let tray = VoxtypeTray::new(true);
    let menu = tray.menu();
    assert_eq!(menu.len(), 5);
    assert!(matches!(&menu[0], TrayItem::Label { label } if label == "Idle"));
    assert!(matches!(menu[1], TrayItem::Separator));
    assert!(matches!(
        &menu[2],
        TrayItem::Check { label, checked: true, action: TrayAction::TogglePostProcessing }
            if label == "Post-Processing"
    ));
    assert!(matches!(menu[3], TrayItem::Separator));
    assert!(matches!(
        &menu[4],
        TrayItem::Button { label, icon_name, action: TrayAction::Quit }
            if label == "Quit" && icon_name == "application-exit"
    ));
}

#[test]
fn toggling_twice_changes_nothing() {
    let mut tray = VoxtypeTray::new(false);
    assert_eq!(
        tray.activate(TrayAction::TogglePostProcessing),
        TrayAction::TogglePostProcessing
    );
    assert!(tray.post_processing_enabled);
    tray.activate(TrayAction::TogglePostProcessing);
    assert_eq!(tray, VoxtypeTray::new(false));
    assert_eq!(tray.activate(TrayAction::Quit), TrayAction::Quit);
    assert_eq!(tray, VoxtypeTray::new(false));
}
