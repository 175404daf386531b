use vstd::prelude::*;
use crate::checksum::{spec_sfnt_checksum, SFNT_CHECKSUM_MAGIC};
use crate::collection::{extract_collection_face, is_collection, spec_extract_collection_face};
use crate::layout::{lemma_extracted_face_checksum, lemma_extracted_face_is_standalone};
use crate::sfnt::spec_supported_sfnt;
use crate::resolve::ResolveError;
use crate::sfnt::{sfnt_has_table, spec_sfnt_has_table, tag4};

verus! {

/// The tag `fvar` (66 76 61 72) of the font variations table.
pub open spec fn fvar_tag() -> Seq<u8> {
    tag4(0x66, 0x76, 0x61, 0x72)
}

/// What turning face `font_index` of the font file `data` into a standalone font gives: the
/// face, unless it cannot be extracted (or held in memory) or its table directory cannot be
/// read, which make it `Unavailable`, or it is a variable font, which makes it
/// `UnsupportedFont`.
pub open spec fn spec_standalone_font_data(data: Seq<u8>, font_index: int) -> Result<
    Seq<u8>,
    ResolveError,
> {
    match spec_extract_collection_face(data, font_index) {
        None => Err(ResolveError::Unavailable),
        Some(face) => if face.len() > usize::MAX {
            Err(ResolveError::Unavailable)
        } else {
            match spec_sfnt_has_table(face, fvar_tag()) {
                Some(true) => Err(ResolveError::UnsupportedFont),
                Some(false) => Ok(face),
                None => Err(ResolveError::Unavailable),
            }
        },
    }
}

/// The standalone font for face `font_index` of the font file `data`: extracted from a
/// collection where needed, and refused where it is a variable font.
pub fn standalone_font_data(data: &[u8], font_index: u32) -> (r: Result<Vec<u8>, ResolveError>)
    ensures
        match spec_standalone_font_data(data@, font_index as int) {
            Ok(face) => r matches Ok(v) && v@ == face,
            Err(e) => r == Err::<Vec<u8>, ResolveError>(e),
        },
{
    let face = match extract_collection_face(data, font_index as usize) {
        Ok(face) => face,
        Err(()) => return Err(ResolveError::Unavailable),
    };
    let fvar: [u8; 4] = [0x66, 0x76, 0x61, 0x72];
    assert(fvar@ =~= fvar_tag());
    match sfnt_has_table(face.as_slice(), &fvar) {
        Some(true) => Err(ResolveError::UnsupportedFont),
        Some(false) => Ok(face),
        None => Err(ResolveError::Unavailable),
    }
}

/// What standalone font data gives is always a standalone, non-variable font and never a
/// collection: the font file itself when it is not a collection, and otherwise the face that
/// extracting face `font_index` gives, which sums to the magic checksum value.
pub proof fn lemma_standalone_font_is_standalone(data: Seq<u8>, font_index: int)
    requires
        spec_standalone_font_data(data, font_index) is Ok,
    ensures
        ({
            let font = spec_standalone_font_data(data, font_index)->Ok_0;
            &&& !is_collection(font)
            &&& spec_supported_sfnt(font)
            &&& spec_sfnt_has_table(font, fvar_tag()) == Some(false)
            &&& !is_collection(data) ==> font == data
            &&& is_collection(data) ==> font == spec_extract_collection_face(data, font_index)->Some_0
                && spec_sfnt_checksum(font) == SFNT_CHECKSUM_MAGIC
        }),
{
    if is_collection(data) {
        lemma_extracted_face_is_standalone(data, font_index, 0);
        lemma_extracted_face_checksum(data, font_index);
    }
}

/// Standalone font data succeeds exactly when extracting the face succeeds, the face fits in
/// memory and its table directory is readable and lists no `fvar` table.
pub proof fn lemma_standalone_font_succeeds(data: Seq<u8>, font_index: int)
    ensures
        spec_standalone_font_data(data, font_index) is Ok <==> (spec_extract_collection_face(
            data,
            font_index,
        ) matches Some(face) && face.len() <= usize::MAX && spec_sfnt_has_table(face, fvar_tag())
            == Some(false)),
{
}

} // verus!

