use elixir_font_discovery::checksum::{sfnt_checksum, SFNT_CHECKSUM_MAGIC};
use elixir_font_discovery::collection::extract_collection_face;
use elixir_font_discovery::face::standalone_font_data;
use elixir_font_discovery::family::{requested_family_names, FamilyName, Platform};
use elixir_font_discovery::resolve::{classify_selection_error, ResolveError, SelectionFailure};
use elixir_font_discovery::sfnt::{sfnt_has_table, supported_sfnt};

#[test]
fn accepts_standalone_true_type_data() {
    let data = [0, 1, 0, 0, 0, 0, 0, 0];

    assert!(supported_sfnt(&data));
    assert_eq!(extract_collection_face(&data, 0), Ok(data.to_vec()));
}

#[test]
fn rejects_unsupported_or_truncated_data() {
    assert!(!supported_sfnt(b"WOFF"));
    assert_eq!(extract_collection_face(b"WOFF", 0), Err(()));
    assert_eq!(extract_collection_face(b"ttcf", 0), Err(()));

    assert_eq!(
        standalone_font_data(&b"WOFF".to_vec(), 0),
        Err(ResolveError::Unavailable)
    );
}

#[test]
fn reports_file_and_extraction_failures_as_unavailable() {
    let mut bad_index = vec![0; 16];
    bad_index[0..4].copy_from_slice(b"ttcf");
    bad_index[8..12].copy_from_slice(&1_u32.to_be_bytes());
    assert_eq!(
        standalone_font_data(&bad_index, 1),
        Err(ResolveError::Unavailable)
    );

    assert_eq!(
        standalone_font_data(&[0, 1, 0, 0, 0, 1], 0),
        Err(ResolveError::Unavailable)
    );
}

#[test]
fn accepts_cff_open_type_data() {
    assert!(supported_sfnt(b"OTTOfont"));
    assert_eq!(
        extract_collection_face(b"OTTOfont", 0),
        Ok(b"OTTOfont".to_vec())
    );
}

#[test]
fn maps_system_ui_separately_from_sans_serif() {
    for platform in [Platform::Linux, Platform::MacOs, Platform::Windows, Platform::Other] {
        let system_ui = requested_family_names("system-ui".to_owned(), platform);
        let sans_serif = requested_family_names("sans-serif".to_owned(), platform);

        assert_ne!(system_ui, sans_serif);
        assert_eq!(system_ui.last(), Some(&FamilyName::SansSerif));
    }

    let linux = requested_family_names("system-ui".to_owned(), Platform::Linux);
    assert_eq!(
        linux.first(),
        Some(&FamilyName::Title("Cantarell".to_owned()))
    );

    let macos = requested_family_names("system-ui".to_owned(), Platform::MacOs);
    assert_eq!(
        macos.first(),
        Some(&FamilyName::Title(".AppleSystemUIFont".to_owned()))
    );

    let windows = requested_family_names("system-ui".to_owned(), Platform::Windows);
    assert_eq!(
        windows.first(),
        Some(&FamilyName::Title("Segoe UI".to_owned()))
    );
}

#[test]
fn distinguishes_selection_misses_from_source_failures() {
    assert_eq!(
        classify_selection_error(SelectionFailure::NotFound),
        ResolveError::NotFound
    );
    assert_eq!(
        classify_selection_error(SelectionFailure::CannotAccessSource),
        ResolveError::Unavailable
    );
}

#[test]
fn identifies_variable_font_tables() {
    let mut font = vec![0; 44];
    font[0..4].copy_from_slice(&[0, 1, 0, 0]);
    font[4..6].copy_from_slice(&2_u16.to_be_bytes());
    font[12..16].copy_from_slice(b"fvar");
    font[28..32].copy_from_slice(b"name");

    assert_eq!(sfnt_has_table(&font, b"fvar"), Some(true));
    assert_eq!(
        standalone_font_data(&font.clone(), 0),
        Err(ResolveError::UnsupportedFont)
    );
    assert_eq!(sfnt_has_table(&font, b"gvar"), Some(false));
    assert_eq!(sfnt_has_table(&font[..20], b"fvar"), None);
}

#[test]
fn extracts_a_standalone_face_from_a_collection() {
    let mut collection = vec![0; 124];
    collection[0..4].copy_from_slice(b"ttcf");
    collection[8..12].copy_from_slice(&1_u32.to_be_bytes());
    collection[12..16].copy_from_slice(&16_u32.to_be_bytes());
    collection[16..20].copy_from_slice(&[0, 1, 0, 0]);
    collection[20..22].copy_from_slice(&2_u16.to_be_bytes());
    collection[28..32].copy_from_slice(b"head");
    collection[36..40].copy_from_slice(&64_u32.to_be_bytes());
    collection[40..44].copy_from_slice(&54_u32.to_be_bytes());
    collection[44..48].copy_from_slice(b"name");
    collection[52..56].copy_from_slice(&120_u32.to_be_bytes());
    collection[56..60].copy_from_slice(&4_u32.to_be_bytes());
    collection[64..68].copy_from_slice(&0x0001_0000_u32.to_be_bytes());
    collection[72..76].copy_from_slice(&0x1234_5678_u32.to_be_bytes());
    collection[76..80].copy_from_slice(&0x5F0F_3CF5_u32.to_be_bytes());
    collection[82..84].copy_from_slice(&1_000_u16.to_be_bytes());
    collection[120..124].copy_from_slice(b"font");

    let extracted = extract_collection_face(&collection, 0).expect("valid collection face");

    assert_eq!(&extracted[0..4], &[0, 1, 0, 0]);
    assert_eq!(&extracted[20..24], &(44_u32.to_be_bytes()));
    assert_eq!(&extracted[36..40], &(100_u32.to_be_bytes()));
    assert_eq!(&extracted[100..104], b"font");
    assert_ne!(&extracted[52..56], &0x1234_5678_u32.to_be_bytes());
    assert_eq!(sfnt_checksum(&extracted), SFNT_CHECKSUM_MAGIC);
}
