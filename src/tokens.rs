use vstd::prelude::*;
use crate::chunker::ChunkError;

verus! {

#[verifier::external_type_specification]
#[verifier::external_body]
pub struct ExTokenizer(tokenizers::Tokenizer);

/// Relies on tokenizers::Tokenizer::encode_batch, with special tokens: on
/// success it yields one encoding per input, in input order. A text's count
/// is the number of ids in its encoding.
#[verifier::external_body]
fn encode_counts(tokenizer: &tokenizers::Tokenizer, texts: &Vec<String>) -> (r: Option<Vec<usize>>)
    ensures
        r matches Some(c) ==> c@.len() == texts@.len(),
{
    match tokenizer.encode_batch(texts.clone(), true) {
        Ok(encodings) => Some(encodings.iter().map(|e| e.get_ids().len()).collect()),
        Err(_) => None,
    }
}

/// The token count of each text, in order. A tokenizer failure is an
/// `Encoding` error.
pub fn count_tokens(tokenizer: &tokenizers::Tokenizer, texts: &Vec<String>) -> (r: Result<
    Vec<usize>,
    ChunkError,
>)
    ensures
        r matches Ok(c) ==> c@.len() == texts@.len(),
        r is Err ==> r == Err::<Vec<usize>, ChunkError>(ChunkError::Encoding),
{
    match encode_counts(tokenizer, texts) {
        Some(c) => Ok(c),
        None => Err(ChunkError::Encoding),
    }
}

} // verus!
