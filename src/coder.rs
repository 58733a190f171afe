use crate::bits::bytes_bits;
use crate::error::{InputField, RReaderError};
use crate::grammar::{acyclic, Grammar, MAX_RULES};
use crate::repair_decoder::{
    buffers_complete, missing, pair_count, pairs_start, repair_rules, symbols_fit,
    NavarroRepairDecoder, RePairResult,
};
use crate::tuple_coder::{canonical_of, encoded_bits, parse_grammar, GrammarTupleCoder};
use vstd::prelude::*;

verus! {

/// Writes a grammar in some binary form.
pub trait GrammarEncoder {
    type EncodeErr;

    fn encode(grammar: Grammar) -> Result<Vec<u8>, Self::EncodeErr>
        requires
            grammar.wf(),
            acyclic(grammar.rules_view()),
            grammar.rules_view().len() <= MAX_RULES,
    ;
}

/// Reads a grammar from some input.
pub trait GrammarDecoder<I> {
    type DecodeErr;

    fn decode(input: I) -> Result<Grammar, Self::DecodeErr>;
}

impl GrammarEncoder for GrammarTupleCoder {
    type EncodeErr = std::io::Error;

    fn encode(grammar: Grammar) -> (r: Result<Vec<u8>, std::io::Error>)
        ensures
            r is Ok,
            r matches Ok(bytes) ==> bytes_bits(bytes@) == encoded_bits(
                canonical_of(grammar.rules_view(), grammar.start() as int),
            ),
    {
        GrammarTupleCoder::encode(grammar)
    }
}

impl GrammarDecoder<Vec<u8>> for GrammarTupleCoder {
    type DecodeErr = std::io::Error;

    fn decode(input: Vec<u8>) -> (r: Result<Grammar, std::io::Error>)
        ensures
            r is Ok <==> parse_grammar(bytes_bits(input@)) is Some,
            r matches Ok(g) ==> parse_grammar(bytes_bits(input@)) == Some(g.rules_view()) && g.start()
                == (if g.rules_view().len() == 0 { 0 } else { g.rules_view().len() - 1 }),
    {
        GrammarTupleCoder::decode(input)
    }
}

impl GrammarDecoder<RePairResult> for NavarroRepairDecoder {
    type DecodeErr = RReaderError;

    fn decode(input: RePairResult) -> (out: Result<Grammar, RReaderError>)
        ensures
            input.file_r@.len() < 4 ==> missing(out, InputField::AlphabetSize),
            input.file_r@.len() >= 4 && input.file_r@.len() < pairs_start(input.file_r@) ==> missing(out, InputField::AlphabetCharacter),
            input.file_r@.len() >= 4 && input.file_r@.len() >= pairs_start(input.file_r@) && 1 <= (
            input.file_r@.len() - pairs_start(input.file_r@)) % 8 < 4 ==> missing(out, InputField::PairLeft),
            input.file_r@.len() >= 4 && input.file_r@.len() >= pairs_start(input.file_r@) && 4 <= (
            input.file_r@.len() - pairs_start(input.file_r@)) % 8 ==> missing(out, InputField::PairRight),
            input.file_r@.len() >= 4 && input.file_r@.len() >= pairs_start(input.file_r@) && (
            input.file_r@.len() - pairs_start(input.file_r@)) % 8 == 0 && input.file_c@.len() % 4 != 0
                ==> missing(out, InputField::SequenceSymbol),
            buffers_complete(input.file_r@, input.file_c@) && !symbols_fit(input.file_r@, input.file_c@)
                ==> out matches Err(RReaderError::IO(_)),
            buffers_complete(input.file_r@, input.file_c@) && symbols_fit(input.file_r@, input.file_c@)
                ==> (out matches Ok(g) && g.rules_view() == repair_rules(input.file_r@, input.file_c@)
                && g.start() == pair_count(input.file_r@)),
    {
        NavarroRepairDecoder::decode(input)
    }
}

} // verus!
