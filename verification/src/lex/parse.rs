//! The lexer's entry points for queries and XHTML documents.

use vstd::prelude::*;
use crate::parse::{
    document_text_from_events, event_views, has_character_data, lemma_document_text_shape,
    lemma_folded_text_shape, query_tokens, read_xml_events, tokenize_string, xhtml_text,
    xml_events, xml_well_formed,
};
use crate::text::string_views;

verus! {

/// Splits `query` into its tokens, each folded to ASCII lower case when
/// `lowercase` holds.
pub fn parse_string(query: &str, lowercase: bool) -> (res: Vec<String>)
    ensures
        string_views(res@) == query_tokens(query@, lowercase),
{
    tokenize_string(query, lowercase)
}

/// The text of the well-formed XHTML document `bytes` (the character data
/// of each element, each followed by a space), folded to ASCII lower case
/// when `lowercase` holds.
pub fn get_string_from_xhtml_file(bytes: &[u8], lowercase: bool) -> (res: String)
    requires
        xml_well_formed(bytes@),
    ensures
        res@ == xhtml_text(bytes@, lowercase),
        res@.len() == 0 <==> !has_character_data(xml_events(bytes@).unwrap()),
        res@.len() > 0 ==> res@.last() == ' ',
        lowercase ==> forall|i: int| 0 <= i < res@.len() ==> !('A' <= #[trigger] res@[i] && res@[i] <= 'Z'),
{
    match read_xml_events(bytes) {
        Ok(events) => {
            proof {
                lemma_document_text_shape(event_views(events@));
                lemma_folded_text_shape(event_views(events@), lowercase);
            }
            document_text_from_events(&events, lowercase)
        },
        Err(_) => String::new(),
    }
}

} // verus!
