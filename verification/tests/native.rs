use pascal_lsp::access::{matching_entry, CasePath, CaseStep};
use pascal_lsp::documents::OpenDocuments;
use pascal_lsp::filenames::file_goes_by;
use pascal_lsp::names::{extension_is, is_analyzable_source_path, is_pascal_path};
use pascal_lsp::native::{bytes_of_name, name_from_bytes, show, text_of_name};
use pascal_lsp::paths::{
    path_ci_lookup_key, path_starts_with_native, paths_equal_ci, project_path_lookup_key, FilePath,
};
use pascal_lsp::renames::{unit_rename_name, UnitRenameProblem};
use pascal_lsp::text::DiagnosticLineIndex;
use pascal_lsp::uris::{canonical_file_uri, file_path_of, uri_of_path};

fn path_at(uri: &str) -> FilePath {
    file_path_of(uri).expect("a file")
}

#[test]
fn a_uri_may_name_a_file_whose_name_is_no_text() {
    let path = path_at("file:///w/x/../%FFa.pas");
    assert_eq!(path.bytes(), b"/w/\xFFa.pas");
    assert_eq!(path.text(), "/w/\u{FFFD}a.pas");
    assert_eq!(uri_of_path(&path).as_deref(), Some("file:///w/%FFa.pas"));
    assert!(FilePath::from_bytes(&b"/w/\xFFa.pas".to_vec()).same(&path));
    assert!(is_pascal_path(&path) && is_analyzable_source_path(&path));
    assert_eq!(path.parent().map(|directory| directory.text()).as_deref(), Some("/w"));
    let canonical = canonical_file_uri("file:///w/x/../%ff%61.pas");
    assert_eq!(canonical, "file:///w/%FFa.pas");
    assert_eq!(canonical_file_uri(&canonical), canonical);
    assert!(uri_of_path(&FilePath::from_bytes(&b"w/\xFF".to_vec())).is_none());
}

#[test]
fn names_that_are_no_text_differ_though_they_are_shown_alike() {
    let (one, other) = (path_at("file:///w/%FE.pas"), path_at("file:///w/%FF.pas"));
    assert!(!one.same(&other));
    assert_eq!(one.text(), other.text());
    assert!(paths_equal_ci(&one, &other));
    assert_eq!(path_ci_lookup_key(&one), path_ci_lookup_key(&other));
    assert!(project_path_lookup_key(&one).same(&one));
    assert_ne!(uri_of_path(&one), uri_of_path(&other));
    assert!(file_goes_by(&one, "\u{FFFD}.PAS"));
    assert!(!file_goes_by(&one, "x.pas"));
}

#[test]
fn each_part_of_a_path_is_text_or_bytes_for_itself() {
    let path = path_at("file:///%C3%A4/%FF%C3%A4.%C3%A4");
    let directory = path_at("file:///%C3%A4");
    assert_eq!(directory.text(), "/ä");
    assert!(FilePath::parse("/ä").same(&directory));
    assert!(path_starts_with_native(&path, &directory));
    assert_eq!(path.bytes(), [b"/\xC3\xA4/\xFF\xC3\xA4.".as_slice(), b"\xC3\xA4"].concat());
    assert_eq!(path.text(), "/ä/\u{FFFD}ä.ä");
    assert!(extension_is(&path, "ä"));
    assert_eq!(path.stem_text(), None);
    assert_eq!(path_at("file:///%C3%A4.%FF").stem_text().as_deref(), Some("ä"));
}

#[test]
fn every_text_is_held_as_itself_to_the_reader() {
    let name = "x\u{10FFFF}\u{10FF80}ä";
    let path = FilePath::parse(&format!("/w/{name}.pas"));
    assert_eq!(path.text(), format!("/w/{name}.pas"));
    assert_eq!(path.bytes(), format!("/w/{name}.pas").into_bytes());
    assert_eq!(path.stem_text().as_deref(), Some(name));
    let uri = uri_of_path(&path).expect("a URI");
    assert!(path_at(&uri).same(&path));
    for bytes in [b"plain".to_vec(), b"\xC3".to_vec(), b"\xF4\x8F\xBF\xBF".to_vec()] {
        let held = name_from_bytes(bytes.clone());
        assert_eq!(bytes_of_name(&held), bytes);
        assert_eq!(text_of_name(&held), String::from_utf8(bytes.clone()).ok());
        assert_eq!(show(&held), String::from_utf8_lossy(&bytes));
    }
    assert_eq!(name_from_bytes(b"\xC3\xA4".to_vec()), "ä");
    assert_ne!(name_from_bytes(b"\xF4\x8F\xBF\xBF".to_vec()), "\u{10FFFF}");
}

#[test]
fn a_unit_is_not_renamed_where_its_name_is_no_text() {
    let documents = OpenDocuments::new();
    let rename = |old: &str, new: &str| unit_rename_name(old, new, &documents, Some("Old"), true);
    let (text, bytes) = ("file:///w/Old.pas", "file:///w/%FF.pas");
    assert_eq!(rename(bytes, text), Err(UnitRenameProblem::OldName));
    assert_eq!(rename(text, bytes), Err(UnitRenameProblem::NewName));
    assert_eq!(rename(text, "file:///w/New.pas"), Ok("New".to_string()));
    assert_eq!(UnitRenameProblem::NewName.message(), "new unit filename is not valid UTF-8");
}

#[test]
fn a_path_is_followed_through_names_that_are_no_text() {
    let held = |bytes: &[u8]| name_from_bytes(bytes.to_vec());
    let entries = vec![held(b"A\xFE"), held(b"a\xFF")];
    assert_eq!(matching_entry(&entries, &held(b"a\xFF")), Some(1));
    assert_eq!(matching_entry(&entries, &held(b"A\xFE")), Some(0));
    assert_eq!(matching_entry(&entries, &held(b"A\xFD")), None);
    assert_eq!(matching_entry(&entries[..1].to_vec(), &held(b"a\xFD")), Some(0));
    let mut walk = CasePath::new(&path_at("file:///a%FF"));
    assert!(matches!(walk.step(), CaseStep::List));
    assert!(matches!(walk.advance(Some(&entries)), CaseStep::Found));
    assert_eq!(walk.current.bytes(), b"/a\xFF");
}

#[test]
fn a_range_begins_where_the_text_does_if_its_start_is_not_there() {
    let index = DiagnosticLineIndex::new("ab\ncd\n");
    let range = index.range(9, 1, 2, 2);
    assert_eq!((range.start.line, range.start.character), (0, 0));
    assert_eq!((range.end.line, range.end.character), (1, 1));
    let range = index.range(2, 2, 0, 1);
    assert_eq!((range.start.line, range.start.character), (1, 1));
    assert_eq!(range.end, range.start);
}
