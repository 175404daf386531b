use vstd::prelude::*;

verus! {

/// A font family to look for: a family by name, or one of the generic CSS families.
#[derive(Clone, Debug, PartialEq, Eq)]
pub enum FamilyName {
    Title(String),
    Serif,
    SansSerif,
    Monospace,
}

/// The mathematical value of a `FamilyName`: a name is its sequence of characters.
pub enum FamilySpec {
    Title(Seq<char>),
    Serif,
    SansSerif,
    Monospace,
}

impl View for FamilyName {
    type V = FamilySpec;

    open spec fn view(&self) -> FamilySpec {
        match self {
            FamilyName::Title(name) => FamilySpec::Title(name@),
            FamilyName::Serif => FamilySpec::Serif,
            FamilyName::SansSerif => FamilySpec::SansSerif,
            FamilyName::Monospace => FamilySpec::Monospace,
        }
    }
}

/// The operating system whose user-interface families `system-ui` stands for.
#[derive(Clone, Copy, Debug, PartialEq, Eq)]
pub enum Platform {
    Linux,
    MacOs,
    Windows,
    Other,
}

/// The families of a list, as values.
pub open spec fn families_view(names: Seq<FamilyName>) -> Seq<FamilySpec> {
    names.map_values(|f: FamilyName| f@)
}

/// `c` with an ASCII capital letter turned into its small letter.
pub open spec fn ascii_lower(c: char) -> char {
    if 'A' <= c <= 'Z' {
        ((c as u32) + 32) as char
    } else {
        c
    }
}

/// `s` with every ASCII capital letter turned into its small letter.
pub open spec fn ascii_lower_seq(s: Seq<char>) -> Seq<char> {
    s.map_values(|c: char| ascii_lower(c))
}

/// The families that `system-ui` stands for on `platform`, in the order they are tried:
/// the platform's user-interface families, then the generic sans-serif family.
pub open spec fn spec_system_ui_family_names(platform: Platform) -> Seq<FamilySpec> {
    match platform {
        Platform::Linux => seq![
            FamilySpec::Title("Cantarell"@),
            FamilySpec::Title("Noto Sans UI"@),
            FamilySpec::Title("Segoe UI"@),
            FamilySpec::SansSerif,
        ],
        Platform::MacOs => seq![
            FamilySpec::Title(".AppleSystemUIFont"@),
            FamilySpec::Title("SF Pro"@),
            FamilySpec::Title("Helvetica Neue"@),
            FamilySpec::SansSerif,
        ],
        Platform::Windows => seq![FamilySpec::Title("Segoe UI"@), FamilySpec::SansSerif],
        Platform::Other => seq![FamilySpec::Title("Noto Sans UI"@), FamilySpec::SansSerif],
    }
}

/// The families tried for the requested family `family` on `platform`: the generic names
/// `serif`, `sans-serif`, `system-ui` and `monospace`, in any ASCII case, stand for their
/// generic families; any other name is looked up as it was given.
pub open spec fn spec_requested_family_names(family: Seq<char>, platform: Platform) -> Seq<
    FamilySpec,
> {
    let lower = ascii_lower_seq(family);
    if lower == "serif"@ {
        seq![FamilySpec::Serif]
    } else if lower == "sans-serif"@ {
        seq![FamilySpec::SansSerif]
    } else if lower == "system-ui"@ {
        spec_system_ui_family_names(platform)
    } else if lower == "monospace"@ {
        seq![FamilySpec::Monospace]
    } else {
        seq![FamilySpec::Title(family)]
    }
}

/// `str::to_ascii_lowercase`: a copy of `s` in which each ASCII capital letter is replaced by
/// its small letter and every other character is kept, as std documents.
#[verifier::external_body]
fn to_ascii_lowercase(s: &str) -> (r: String)
    ensures
        r@ == ascii_lower_seq(s@),
{
    s.to_ascii_lowercase()
}

/// The families that `system-ui` stands for on `platform`.
pub fn system_ui_family_names(platform: Platform) -> (names: Vec<FamilyName>)
    ensures
        families_view(names@) == spec_system_ui_family_names(platform),
{
    let names = match platform {
        Platform::Linux => vec![
            FamilyName::Title("Cantarell".to_owned()),
            FamilyName::Title("Noto Sans UI".to_owned()),
            FamilyName::Title("Segoe UI".to_owned()),
            FamilyName::SansSerif,
        ],
        Platform::MacOs => vec![
            FamilyName::Title(".AppleSystemUIFont".to_owned()),
            FamilyName::Title("SF Pro".to_owned()),
            FamilyName::Title("Helvetica Neue".to_owned()),
            FamilyName::SansSerif,
        ],
        Platform::Windows => vec![
            FamilyName::Title("Segoe UI".to_owned()),
            FamilyName::SansSerif,
        ],
        Platform::Other => vec![
            FamilyName::Title("Noto Sans UI".to_owned()),
            FamilyName::SansSerif,
        ],
    };
    assert(families_view(names@) =~= spec_system_ui_family_names(platform));
    names
}

/// The families to try, in order, for the requested family `family` on `platform`.
pub fn requested_family_names(family: String, platform: Platform) -> (names: Vec<FamilyName>)
    ensures
        families_view(names@) == spec_requested_family_names(family@, platform),
{
    let lower = to_ascii_lowercase(family.as_str());
    let names = if lower == "serif".to_owned() {
        vec![FamilyName::Serif]
    } else if lower == "sans-serif".to_owned() {
        vec![FamilyName::SansSerif]
    } else if lower == "system-ui".to_owned() {
        system_ui_family_names(platform)
    } else if lower == "monospace".to_owned() {
        vec![FamilyName::Monospace]
    } else {
        vec![FamilyName::Title(family)]
    };
    assert(families_view(names@) =~= spec_requested_family_names(family@, platform));
    names
}

/// Whether `name`, in any ASCII case, is one of the generic family names.
pub open spec fn is_generic_name(name: Seq<char>) -> bool {
    let lower = ascii_lower_seq(name);
    lower == "serif"@ || lower == "sans-serif"@ || lower == "system-ui"@ || lower == "monospace"@
}

/// On every platform, `system-ui` falls back to the generic sans-serif family last.
pub proof fn lemma_system_ui_ends_with_sans_serif(platform: Platform)
    ensures
        spec_system_ui_family_names(platform).len() > 0,
        spec_system_ui_family_names(platform).last() == FamilySpec::SansSerif,
{
}

/// A generic name is matched whatever the ASCII case it is written in: two spellings that
/// agree once lowercased request the same families.
pub proof fn lemma_generic_names_ignore_case(a: Seq<char>, b: Seq<char>, platform: Platform)
    requires
        ascii_lower_seq(a) == ascii_lower_seq(b),
        is_generic_name(a),
    ensures
        spec_requested_family_names(a, platform) == spec_requested_family_names(b, platform),
{
}

/// The lowercase name `system-ui` stays as it is when lowercased.
proof fn lemma_system_ui_is_lowercase()
    ensures
        ascii_lower_seq("system-ui"@) == "system-ui"@,
        ascii_lower_seq("sans-serif"@) == "sans-serif"@,
{
    reveal_strlit("system-ui");
    reveal_strlit("sans-serif");
    assert(ascii_lower_seq("system-ui"@) =~= "system-ui"@);
    assert(ascii_lower_seq("sans-serif"@) =~= "sans-serif"@);
}

/// On every platform, `system-ui` asks for user-interface families before sans-serif, so it
/// does not request the same families as `sans-serif`.
pub proof fn lemma_system_ui_differs_from_sans_serif(platform: Platform)
    ensures
        spec_requested_family_names("system-ui"@, platform) != spec_requested_family_names(
            "sans-serif"@,
            platform,
        ),
        spec_requested_family_names("system-ui"@, platform) == spec_system_ui_family_names(
            platform,
        ),
{
    lemma_system_ui_is_lowercase();
    reveal_strlit("system-ui");
    reveal_strlit("sans-serif");
    reveal_strlit("serif");
    assert("system-ui"@ != "serif"@);
    assert("system-ui"@ != "sans-serif"@);
    assert("sans-serif"@ != "serif"@);
    assert(spec_requested_family_names("sans-serif"@, platform) == seq![FamilySpec::SansSerif]);
    assert(spec_system_ui_family_names(platform).len() > 1);
}

/// A requested name is looked up by name exactly when it is not a generic name in any ASCII
/// case; each generic name, in any ASCII case, stands for its generic family, and `system-ui`
/// for the platform's user-interface families.
pub proof fn lemma_requested_families(name: Seq<char>, platform: Platform)
    ensures
        !is_generic_name(name) ==> spec_requested_family_names(name, platform) == seq![
            FamilySpec::Title(name),
        ],
        ascii_lower_seq(name) == "serif"@ ==> spec_requested_family_names(name, platform) == seq![
            FamilySpec::Serif,
        ],
        ascii_lower_seq(name) == "sans-serif"@ ==> spec_requested_family_names(name, platform)
            == seq![FamilySpec::SansSerif],
        ascii_lower_seq(name) == "monospace"@ ==> spec_requested_family_names(name, platform)
            == seq![FamilySpec::Monospace],
        ascii_lower_seq(name) == "system-ui"@ ==> spec_requested_family_names(name, platform)
            == spec_system_ui_family_names(platform),
{
    reveal_strlit("serif");
    reveal_strlit("sans-serif");
    reveal_strlit("monospace");
    reveal_strlit("system-ui");
    assert("serif"@.len() == 5);
    assert("sans-serif"@.len() == 10);
    assert("monospace"@.len() == 9);
    assert("system-ui"@.len() == 9);
    assert("sans-serif"@ != "serif"@);
    assert("monospace"@ != "serif"@);
    assert("system-ui"@ != "serif"@);
    assert("system-ui"@ != "sans-serif"@);
    assert("monospace"@ != "sans-serif"@);
    assert("monospace"@[0] != "system-ui"@[0]);
    assert("monospace"@ != "system-ui"@);
}

/// The user-interface families that `system-ui` tries on each platform, in order, before the
/// generic sans-serif family: Cantarell, Noto Sans UI and Segoe UI on Linux; the system UI
/// font, SF Pro and Helvetica Neue on macOS; Segoe UI on Windows; Noto Sans UI elsewhere.
pub proof fn lemma_system_ui_families(platform: Platform)
    ensures
        ({
            let names = spec_system_ui_family_names(platform);
            &&& platform == Platform::Linux ==> names.len() == 4 && names[0] == FamilySpec::Title(
                "Cantarell"@,
            ) && names[1] == FamilySpec::Title("Noto Sans UI"@) && names[2] == FamilySpec::Title(
                "Segoe UI"@,
            ) && names[3] == FamilySpec::SansSerif
            &&& platform == Platform::MacOs ==> names.len() == 4 && names[0] == FamilySpec::Title(
                ".AppleSystemUIFont"@,
            ) && names[1] == FamilySpec::Title("SF Pro"@) && names[2] == FamilySpec::Title(
                "Helvetica Neue"@,
            ) && names[3] == FamilySpec::SansSerif
            &&& platform == Platform::Windows ==> names.len() == 2 && names[0]
                == FamilySpec::Title("Segoe UI"@) && names[1] == FamilySpec::SansSerif
            &&& platform == Platform::Other ==> names.len() == 2 && names[0] == FamilySpec::Title(
                "Noto Sans UI"@,
            ) && names[1] == FamilySpec::SansSerif
        }),
{
}

} // verus!


