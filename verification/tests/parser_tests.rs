use launcher_core::parser::{DEKey, DesktopEntry};

#[test]
fn parse_test() {
    let sample = r#"
# example .desktop
[Desktop Entry]
Name=Hello Triangle
Comment=Shows a triangle
Exec=hello_triangle
Type=Application

[Hidden]
Hidden=true
"#;

    let de = DesktopEntry::from_str(sample);
    println!("{:?}", de);
}

#[test]
fn parse_sample_structure() {
    let sample = "# example\n[Desktop Entry]\nName=Hello Triangle\nComment=Shows a triangle\n\n[Hidden]\nHidden=true\n";
    let de = DesktopEntry::from_str(sample);
    assert_eq!(de.groups.len(), 2);
    assert_eq!(de.groups[0].name, "Desktop Entry");
    assert_eq!(de.groups[0].members.len(), 2);
    assert_eq!(de.groups[0].members[0].key, "Name");
    assert_eq!(de.groups[0].members[0].value, "Hello Triangle");
    assert_eq!(de.groups[0].members[0].kind, DEKey::Name);
    assert_eq!(de.groups[1].name, "Hidden");
    assert_eq!(de.groups[1].members.len(), 1);
    assert_eq!(de.groups[1].members[0].kind, DEKey::UNKNOWN);
}

#[test]
fn duplicate_headers_not_merged() {
    let (de, diags) = DesktopEntry::parse("[A]\nx=1\n[A]\ny=2\n");
    assert_eq!(diags.len(), 0);
    assert_eq!(de.groups.len(), 2);
    assert_eq!(de.groups[0].name, "A");
    assert_eq!(de.groups[1].name, "A");
    assert_eq!(de.groups[0].members.len(), 1);
    assert_eq!(de.groups[1].members.len(), 1);
    assert_eq!(de.groups[0].members[0].key, "x");
    assert_eq!(de.groups[0].members[0].value, "1");
    assert_eq!(de.groups[1].members[0].key, "y");
    assert_eq!(de.groups[1].members[0].value, "2");
}

#[test]
fn malformed_line_tolerance() {
    let (de, diags) = DesktopEntry::parse("not-a-kv-line\n[G]\nk=v\n");
    assert_eq!(de.groups.len(), 1);
    assert_eq!(de.groups[0].name, "G");
    assert_eq!(de.groups[0].members.len(), 1);
    assert_eq!(de.groups[0].members[0].key, "k");
    assert_eq!(de.groups[0].members[0].value, "v");
    assert_eq!(diags.len(), 1);
    assert_eq!(diags[0].line, 1);
    assert_eq!(diags[0].text, "not-a-kv-line");
}

#[test]
fn first_equals_only_split() {
    let de = DesktopEntry::from_str("url=http://x=y\n");
    assert_eq!(de.groups.len(), 1);
    assert_eq!(de.groups[0].name, "");
    assert_eq!(de.groups[0].members[0].key, "url");
    assert_eq!(de.groups[0].members[0].value, "http://x=y");
}

#[test]
fn group_count_headers_plus_implicit() {
    // two headers plus a leading field: three groups
    let de = DesktopEntry::from_str("early=1\n[A]\na=1\n[B]\nb=2\n");
    assert_eq!(de.groups.len(), 3);
    assert_eq!(de.groups[0].name, "");
    assert_eq!(de.groups[1].name, "A");
    assert_eq!(de.groups[2].name, "B");

    // comments and blanks do not count
    let de2 = DesktopEntry::from_str("# c\n\n[A]\n# c\n\n[B]\n");
    assert_eq!(de2.groups.len(), 2);
}

#[test]
fn empty_header_yields_empty_name() {
    let de = DesktopEntry::from_str("[]\nk=v\n");
    assert_eq!(de.groups.len(), 1);
    assert_eq!(de.groups[0].name, "");
    assert_eq!(de.groups[0].members.len(), 1);
}

#[test]
fn comment_after_whitespace_is_skipped() {
    let (de, diags) = DesktopEntry::parse("   # indented comment\nk=v\n");
    assert_eq!(diags.len(), 0);
    assert_eq!(de.groups.len(), 1);
    assert_eq!(de.groups[0].members.len(), 1);
}

#[test]
fn crlf_line_endings() {
    let (de, diags) = DesktopEntry::parse("[A]\r\nk=v\r\n");
    assert_eq!(diags.len(), 0);
    assert_eq!(de.groups.len(), 1);
    assert_eq!(de.groups[0].name, "A");
    assert_eq!(de.groups[0].members[0].key, "k");
    assert_eq!(de.groups[0].members[0].value, "v");
}

#[test]
fn keys_and_values_are_trimmed_and_may_be_empty() {
    let de = DesktopEntry::from_str("[G]\n  k  =  v  \nempty=\n=anon\n");
    let g = &de.groups[0];
    assert_eq!(g.members.len(), 3);
    assert_eq!(g.members[0].key, "k");
    assert_eq!(g.members[0].value, "v");
    assert_eq!(g.members[1].key, "empty");
    assert_eq!(g.members[1].value, "");
    assert_eq!(g.members[2].key, "");
    assert_eq!(g.members[2].value, "anon");
}

#[test]
fn header_name_is_trimmed() {
    let de = DesktopEntry::from_str("[  Desktop Entry  ]\n");
    assert_eq!(de.groups.len(), 1);
    assert_eq!(de.groups[0].name, "Desktop Entry");
}

#[test]
fn diagnostics_use_one_based_untrimmed_lines() {
    let (_, diags) = DesktopEntry::parse("[A]\n  bad line  \nok=1\nworse\n");
    assert_eq!(diags.len(), 2);
    assert_eq!(diags[0].line, 2);
    assert_eq!(diags[0].text, "  bad line  ");
    assert_eq!(diags[1].line, 4);
    assert_eq!(diags[1].text, "worse");
}

#[test]
fn empty_document_has_no_groups() {
    let (de, diags) = DesktopEntry::parse("");
    assert_eq!(de.groups.len(), 0);
    assert_eq!(diags.len(), 0);
}

#[test]
fn identify_type_recognizes_each_key() {
    assert_eq!(DesktopEntry::identify_type("Exec"), DEKey::Exec);
    assert_eq!(DesktopEntry::identify_type("Name"), DEKey::Name);
    assert_eq!(DesktopEntry::identify_type("Icon"), DEKey::Icon);
    assert_eq!(DesktopEntry::identify_type("Comment"), DEKey::Comment);
    assert_eq!(DesktopEntry::identify_type("Terminal"), DEKey::Terminal);
    assert_eq!(DesktopEntry::identify_type("TryExec"), DEKey::TryExec);
    assert_eq!(DesktopEntry::identify_type("Type"), DEKey::Type);
    assert_eq!(DesktopEntry::identify_type("MimeType"), DEKey::MimeType);
    assert_eq!(DesktopEntry::identify_type("Categories"), DEKey::Categories);
    assert_eq!(DesktopEntry::identify_type("Keywords"), DEKey::Keywords);
    // classification is case-sensitive and exact
    assert_eq!(DesktopEntry::identify_type("name"), DEKey::UNKNOWN);
    assert_eq!(DesktopEntry::identify_type("Names"), DEKey::UNKNOWN);
    assert_eq!(DesktopEntry::identify_type(""), DEKey::UNKNOWN);
}

#[test]
fn unicode_whitespace_is_trimmed() {
    // non-breaking spaces around key and value are trimmed like ASCII spaces
    let de = DesktopEntry::from_str("[G]\n\u{a0}k\u{a0}=\u{a0}v\u{a0}\n");
    assert_eq!(de.groups[0].members[0].key, "k");
    assert_eq!(de.groups[0].members[0].value, "v");
}
