use launcher_core::index::{build_index, entry_of};
use launcher_core::parser::DesktopEntry;

#[test]
fn build_index_one_entry_per_named_document() {
    let docs = vec![
        DesktopEntry::from_str("[Desktop Entry]\nName=Firefox\nComment=Browser\nExec=firefox\n"),
        DesktopEntry::from_str("[Desktop Entry]\nComment=No name here\n"),
        DesktopEntry::from_str("[Desktop Entry]\nName=Files\n"),
    ];
    let (entries, excluded) = build_index(&docs);
    assert_eq!(entries.len(), 2);
    assert_eq!(entries[0].display_name, "Firefox");
    assert_eq!(entries[0].description.as_deref(), Some("Browser"));
    assert_eq!(entries[0].exec_command.as_deref(), Some("firefox"));
    assert_eq!(entries[0].doc_index, 0);
    assert_eq!(entries[1].display_name, "Files");
    assert_eq!(entries[1].description, None);
    assert_eq!(entries[1].exec_command, None);
    assert_eq!(entries[1].doc_index, 2);
    assert_eq!(excluded, vec![1]);
}

#[test]
fn primary_group_is_first_with_nonempty_name() {
    // the first group has only an empty Name value: the second is primary
    let doc = DesktopEntry::from_str("[A]\nName=\nExec=skipped\n[B]\nName=Real\nExec=real\n");
    let e = entry_of(&doc, 0).expect("entry expected");
    assert_eq!(e.display_name, "Real");
    assert_eq!(e.exec_command.as_deref(), Some("real"));
}

#[test]
fn first_occurrence_wins_for_canonical_attributes() {
    let doc = DesktopEntry::from_str(
        "[G]\nName=First\nName=Second\nComment=c1\nComment=c2\nExec=e1\nExec=e2\n",
    );
    let e = entry_of(&doc, 7).expect("entry expected");
    assert_eq!(e.display_name, "First");
    assert_eq!(e.description.as_deref(), Some("c1"));
    assert_eq!(e.exec_command.as_deref(), Some("e1"));
    assert_eq!(e.doc_index, 7);
}

#[test]
fn document_without_name_yields_no_entry() {
    let doc = DesktopEntry::from_str("[G]\nExec=prog\nComment=c\n");
    assert!(entry_of(&doc, 0).is_none());
    let empty = DesktopEntry::from_str("");
    assert!(entry_of(&empty, 0).is_none());
}

#[test]
fn index_feeds_ranking_end_to_end() {
    let docs = vec![
        DesktopEntry::from_str("[Desktop Entry]\nName=Firefox\nExec=firefox\n"),
        DesktopEntry::from_str("[Desktop Entry]\nName=Chromium\nExec=chromium\n"),
    ];
    let (entries, _) = build_index(&docs);
    let names: Vec<String> = entries.iter().map(|e| e.display_name.clone()).collect();
    let ranked = launcher_core::ranking::filter_and_rank(&names, "fx");
    assert_eq!(ranked.len(), 1);
    assert_eq!(names[ranked[0].0], "Firefox");
}
