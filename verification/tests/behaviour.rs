use elixir_font_discovery::bytes::{read_u16, read_u32};
use elixir_font_discovery::checksum::{set_checksum_adjustment, sfnt_checksum, SFNT_CHECKSUM_MAGIC};
use elixir_font_discovery::collection::extract_collection_face;
use elixir_font_discovery::face::standalone_font_data;
use elixir_font_discovery::family::{
    requested_family_names, system_ui_family_names, FamilyName, Platform,
};
use elixir_font_discovery::resolve::{
    Attempt, Decision, ResolveError, ResolveState, SelectionFailure,
};
use elixir_font_discovery::sfnt::{sfnt_has_table, supported_sfnt};

fn put_u32(data: &mut [u8], at: usize, v: u32) {
    data[at..at + 4].copy_from_slice(&v.to_be_bytes());
}

/// A collection holding one face with a `head` table of `head_length` bytes and a `name`
/// table, laid out like the one the extraction test builds.
fn one_face_collection(head_length: u32) -> Vec<u8> {
    let mut c = vec![0; 124];
    c[0..4].copy_from_slice(b"ttcf");
    put_u32(&mut c, 8, 1);
    put_u32(&mut c, 12, 16);
    c[16..20].copy_from_slice(&[0, 1, 0, 0]);
    c[20..22].copy_from_slice(&2_u16.to_be_bytes());
    c[28..32].copy_from_slice(b"head");
    put_u32(&mut c, 36, 64);
    put_u32(&mut c, 40, head_length);
    c[44..48].copy_from_slice(b"name");
    put_u32(&mut c, 52, 120);
    put_u32(&mut c, 56, 4);
    put_u32(&mut c, 64, 0x0001_0000);
    put_u32(&mut c, 72, 0x1234_5678);
    c[120..124].copy_from_slice(b"font");
    c
}

#[test]
fn reads_big_endian_numbers_inside_the_data_only() {
    let data = [0x12, 0x34, 0x56, 0x78, 0x9A];
    assert_eq!(read_u16(&data, 0), Some(0x1234));
    assert_eq!(read_u16(&data, 3), Some(0x789A));
    assert_eq!(read_u16(&data, 4), None);
    assert_eq!(read_u16(&data, usize::MAX), None);
    assert_eq!(read_u32(&data, 1), Some(0x3456_789A));
    assert_eq!(read_u32(&data, 2), None);
    assert_eq!(read_u32(&data, usize::MAX - 1), None);
}

#[test]
fn checksum_sums_padded_words_modulo_two_to_the_thirty_two() {
    assert_eq!(sfnt_checksum(&[]), 0);
    assert_eq!(sfnt_checksum(&[0, 0, 0, 1, 0, 0, 0, 2]), 3);
    assert_eq!(sfnt_checksum(&[1, 2, 3]), 0x0102_0300);
    assert_eq!(sfnt_checksum(&[0x80, 0, 0, 0, 0x80, 0, 0, 1]), 1);
    assert_eq!(sfnt_checksum(&[0xFF, 0xFF, 0xFF, 0xFF, 0, 0, 0, 2, 7]), 0x0700_0001);
}

#[test]
fn checksum_adjustment_makes_the_font_sum_to_the_magic_value() {
    let mut font = vec![0x11; 32];
    assert_eq!(set_checksum_adjustment(&mut font, 12, 12), Ok(()));
    assert_eq!(sfnt_checksum(&font), SFNT_CHECKSUM_MAGIC);
    assert_eq!(&font[0..20], &[0x11; 20]);
    assert_eq!(&font[24..32], &[0x11; 8]);

    let mut again = font.clone();
    assert_eq!(set_checksum_adjustment(&mut again, 12, 20), Ok(()));
    assert_eq!(again, font);
}

#[test]
fn checksum_adjustment_refuses_short_or_outlying_head_tables() {
    let mut font = vec![7; 24];
    assert_eq!(set_checksum_adjustment(&mut font, 0, 11), Err(()));
    assert_eq!(set_checksum_adjustment(&mut font, 13, 12), Err(()));
    assert_eq!(set_checksum_adjustment(&mut font, usize::MAX - 4, 12), Err(()));
    assert_eq!(font, vec![7; 24]);
    assert_eq!(set_checksum_adjustment(&mut font, 12, 12), Ok(()));
}

#[test]
fn recognises_every_supported_scaler_type() {
    assert!(supported_sfnt(b"true...."));
    assert!(supported_sfnt(b"typ1"));
    assert!(supported_sfnt(&[0, 1, 0, 0]));
    assert!(!supported_sfnt(b"OTT"));
    assert!(!supported_sfnt(b"ttcf"));
    assert!(!supported_sfnt(&[0, 2, 0, 0]));
}

#[test]
fn looks_up_tables_in_the_directory() {
    let mut font = vec![0; 12];
    assert_eq!(sfnt_has_table(&font, b"fvar"), Some(false));
    font[4..6].copy_from_slice(&1_u16.to_be_bytes());
    assert_eq!(sfnt_has_table(&font, b"fvar"), None);
    font.extend_from_slice(b"glyf");
    font.extend_from_slice(&[0; 12]);
    assert_eq!(sfnt_has_table(&font, b"glyf"), Some(true));
    assert_eq!(sfnt_has_table(&font, b"fvar"), Some(false));
    assert_eq!(sfnt_has_table(&[0, 1, 0, 0, 0], b"glyf"), None);
}

#[test]
fn refuses_faces_beyond_the_collection() {
    let collection = one_face_collection(54);
    assert!(extract_collection_face(&collection, 0).is_ok());
    assert_eq!(extract_collection_face(&collection, 1), Err(()));
    assert_eq!(extract_collection_face(&collection, usize::MAX), Err(()));
}

#[test]
fn refuses_faces_with_a_short_or_missing_head_table() {
    assert_eq!(extract_collection_face(&one_face_collection(11), 0), Err(()));

    let mut no_head = one_face_collection(54);
    no_head[28..32].copy_from_slice(b"HEAD");
    assert_eq!(extract_collection_face(&no_head, 0), Err(()));
}

#[test]
fn refuses_tables_that_run_past_the_collection() {
    let mut collection = one_face_collection(54);
    put_u32(&mut collection, 56, 5);
    assert_eq!(extract_collection_face(&collection, 0), Err(()));
    put_u32(&mut collection, 52, u32::MAX);
    assert_eq!(extract_collection_face(&collection, 0), Err(()));
}

#[test]
fn refuses_faces_with_an_unsupported_scaler_or_truncated_directory() {
    let mut collection = one_face_collection(54);
    collection[16..20].copy_from_slice(b"wOFF");
    assert_eq!(extract_collection_face(&collection, 0), Err(()));

    let truncated = one_face_collection(54)[..40].to_vec();
    assert_eq!(extract_collection_face(&truncated, 0), Err(()));
}

#[test]
fn an_extracted_face_is_left_unchanged_by_extracting_again() {
    let face = extract_collection_face(&one_face_collection(54), 0).unwrap();
    assert_eq!(extract_collection_face(&face, 0), Ok(face.clone()));
    assert_eq!(extract_collection_face(&face, 5), Ok(face.clone()));
    assert_eq!(standalone_font_data(&face, 0), Ok(face.clone()));
}

#[test]
fn an_extracted_face_keeps_its_tables_and_records() {
    let collection = one_face_collection(54);
    let face = extract_collection_face(&collection, 0).unwrap();
    assert_eq!(face.len(), 104);
    assert_eq!(&face[0..12], &collection[16..28]);
    assert_eq!(&face[12..20], &collection[28..36]);
    assert_eq!(&face[24..36], &collection[40..52]);
    assert_eq!(&face[40..44], &collection[56..60]);
    assert_eq!(&face[44..52], &collection[64..72]);
    assert_eq!(&face[56..98], &collection[76..118]);
    assert_eq!(&face[98..100], &[0, 0]);
}

#[test]
fn standalone_data_distinguishes_variable_fonts() {
    let mut collection = one_face_collection(54);
    collection[44..48].copy_from_slice(b"fvar");
    assert_eq!(
        standalone_font_data(&collection, 0),
        Err(ResolveError::UnsupportedFont)
    );
    assert_eq!(
        standalone_font_data(&collection, 1),
        Err(ResolveError::Unavailable)
    );
}

#[test]
fn generic_names_are_matched_in_any_ascii_case() {
    assert_eq!(
        requested_family_names("SERIF".to_owned(), Platform::Linux),
        vec![FamilyName::Serif]
    );
    assert_eq!(
        requested_family_names("Sans-Serif".to_owned(), Platform::Linux),
        vec![FamilyName::SansSerif]
    );
    assert_eq!(
        requested_family_names("MonoSpace".to_owned(), Platform::Windows),
        vec![FamilyName::Monospace]
    );
    assert_eq!(
        requested_family_names("System-UI".to_owned(), Platform::Windows),
        system_ui_family_names(Platform::Windows)
    );
    assert_eq!(
        requested_family_names("Inter".to_owned(), Platform::MacOs),
        vec![FamilyName::Title("Inter".to_owned())]
    );
    assert_eq!(
        requested_family_names("SERİF".to_owned(), Platform::Linux),
        vec![FamilyName::Title("SERİF".to_owned())]
    );
}

#[test]
fn system_ui_ends_with_sans_serif_everywhere() {
    for platform in [Platform::Linux, Platform::MacOs, Platform::Windows, Platform::Other] {
        assert_eq!(
            system_ui_family_names(platform).last(),
            Some(&FamilyName::SansSerif)
        );
    }
    assert_eq!(
        system_ui_family_names(Platform::Other),
        vec![
            FamilyName::Title("Noto Sans UI".to_owned()),
            FamilyName::SansSerif
        ]
    );
    assert_eq!(system_ui_family_names(Platform::Linux).len(), 4);
}

fn run(attempts: &[Attempt]) -> Result<usize, ResolveError> {
    let mut state = ResolveState::new();
    for (index, attempt) in attempts.iter().enumerate() {
        match state.record(*attempt) {
            Decision::TryNext => {}
            Decision::Accept => return Ok(index),
            Decision::Fail(error) => return Err(error),
        }
    }
    Err(state.exhausted_error())
}

#[test]
fn the_first_resolved_candidate_is_accepted() {
    assert_eq!(
        run(&[
            Attempt::SelectionFailed(SelectionFailure::NotFound),
            Attempt::LoadFailed,
            Attempt::DataFailed(ResolveError::UnsupportedFont),
            Attempt::Resolved,
            Attempt::Resolved,
        ]),
        Ok(3)
    );
}

#[test]
fn an_inaccessible_source_stops_the_search() {
    assert_eq!(
        run(&[
            Attempt::SelectionFailed(SelectionFailure::NotFound),
            Attempt::SelectionFailed(SelectionFailure::CannotAccessSource),
            Attempt::Resolved,
        ]),
        Err(ResolveError::Unavailable)
    );
}

#[test]
fn exhausted_searches_report_the_weightiest_failure() {
    let missed = Attempt::SelectionFailed(SelectionFailure::NotFound);
    assert_eq!(run(&[]), Err(ResolveError::NotFound));
    assert_eq!(run(&[missed, missed]), Err(ResolveError::NotFound));
    assert_eq!(
        run(&[missed, Attempt::DataFailed(ResolveError::UnsupportedFont)]),
        Err(ResolveError::UnsupportedFont)
    );
    assert_eq!(
        run(&[
            Attempt::DataFailed(ResolveError::UnsupportedFont),
            Attempt::LoadFailed,
            missed,
        ]),
        Err(ResolveError::Unavailable)
    );
    assert_eq!(
        run(&[Attempt::DataFailed(ResolveError::Unavailable), missed]),
        Err(ResolveError::Unavailable)
    );
    assert_eq!(
        run(&[Attempt::DataFailed(ResolveError::NotFound)]),
        Err(ResolveError::NotFound)
    );
}

#[test]
fn a_fresh_state_has_seen_nothing() {
    let state = ResolveState::new();
    assert!(!state.found_unavailable_font);
    assert!(!state.found_unsupported_font);
    assert_eq!(state.exhausted_error(), ResolveError::NotFound);
}
