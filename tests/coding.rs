use rreader::coder::{GrammarDecoder, GrammarEncoder};
use rreader::error::{InputField, RReaderError};
use rreader::grammar::Grammar;
use rreader::repair_decoder::{NavarroRepairDecoder, RePairResult};
use rreader::tuple_coder::GrammarTupleCoder;

fn setup() -> Grammar {
    Grammar::from_parts(
        vec![
            vec![257, 258, 100],
            vec![97, 98, 99],
            vec![100, 101, 259],
            vec![102, 103, 104, 257],
        ],
        0,
    )
}

#[test]
fn coding_decoding_test() {
    let mut gr = setup();

    let encoded = <GrammarTupleCoder as GrammarEncoder>::encode(gr.clone());
    assert!(encoded.is_ok(), "Error during encoding: {:?}", encoded);
    let buf = encoded.unwrap();

    let decoded = <GrammarTupleCoder as GrammarDecoder<Vec<u8>>>::decode(buf);
    assert!(decoded.is_ok(), "Error during decoding: {:?}", decoded);

    let decoded = decoded.unwrap();

    // The read grammar will be renumbered as it is required by the coder
    gr.renumber();
    assert_eq!(gr, decoded, "Resulting grammar differs from original grammar");
}

#[test]
fn encode_single_terminal_bytes() {
    let gr = Grammar::from_parts(vec![vec![97]], 0);
    let bytes = GrammarTupleCoder::encode(gr).unwrap();
    assert_eq!(
        vec![0, 0, 0, 1, 0, 0, 0, 1, 0, 0, 0, 1, 0, 0, 0, 0, 0x30, 0x80],
        bytes
    );
}

#[test]
fn encode_nonterminal_bytes() {
    // R0 = "a", R1 = R0; rule lengths 1 and 1
    let gr = Grammar::from_parts(vec![vec![97], vec![256]], 1);
    let bytes = GrammarTupleCoder::encode(gr).unwrap();
    // header: 2 rules, min 1, max 1; rule 0: length 0, flag 0, 0x61;
    // rule 1: length 0, flag 1, index 0; then zero padding
    let expected = vec![
        0, 0, 0, 2, 0, 0, 0, 1, 0, 0, 0, 1, 0, 0, 0, 0, 0x30, 0x80, 0, 0, 0, 0x40, 0, 0, 0, 0,
    ];
    assert_eq!(expected, bytes);
    let decoded = GrammarTupleCoder::decode(bytes).unwrap();
    assert_eq!(Grammar::from_parts(vec![vec![97], vec![256]], 1), decoded);
}

#[test]
fn truncated_stream_fails() {
    let buf = GrammarTupleCoder::encode(setup()).unwrap();
    for cut in 0..buf.len() - 1 {
        let r = GrammarTupleCoder::decode(buf[..cut].to_vec());
        assert!(r.is_err(), "truncated at {} decoded", cut);
    }
}

#[test]
fn empty_grammar_round_trips() {
    let buf = GrammarTupleCoder::encode(Grammar::empty()).unwrap();
    assert_eq!(
        vec![0, 0, 0, 0, 0xff, 0xff, 0xff, 0xff, 0, 0, 0, 0],
        buf
    );
    let decoded = GrammarTupleCoder::decode(buf).unwrap();
    assert_eq!(Grammar::empty(), decoded);
    let mut out = vec![];
    decoded.write_source_string(&mut out);
    assert!(out.is_empty());
}

#[test]
fn decode_then_expand_reproduces_source() {
    let buf = GrammarTupleCoder::encode(setup()).unwrap();
    let decoded = GrammarTupleCoder::decode(buf).unwrap();
    assert_eq!(Ok("abcdefghabcd".to_owned()), decoded.produce_source_string());
}

#[test]
fn navarro_decode_test() {
    // alphabet: a c e g
    let mut r_bytes = vec![4u8, 0, 0, 0, 97, 99, 101, 103];
    r_bytes.extend_from_slice(&[0, 0, 0, 0]); // a
    r_bytes.extend_from_slice(&[1, 0, 0, 0]); // c

    r_bytes.extend_from_slice(&[4, 0, 0, 0]); // ac
    r_bytes.extend_from_slice(&[2, 0, 0, 0]); // e

    r_bytes.extend_from_slice(&[3, 0, 0, 0]); // g
    r_bytes.extend_from_slice(&[0, 0, 0, 0]); // a

    r_bytes.extend_from_slice(&[5, 0, 0, 0]); // ace
    r_bytes.extend_from_slice(&[6, 0, 0, 0]); // ga

    let mut c_bytes: Vec<u8> = vec![];
    c_bytes.extend_from_slice(&[5, 0, 0, 0]); // ace
    c_bytes.extend_from_slice(&[7, 0, 0, 0]); // acega
    c_bytes.extend_from_slice(&[1, 0, 0, 0]); // c
    c_bytes.extend_from_slice(&[6, 0, 0, 0]); // ga

    let gr = <NavarroRepairDecoder as GrammarDecoder<RePairResult>>::decode(RePairResult {
        file_c: c_bytes,
        file_r: r_bytes,
    });
    assert!(gr.is_ok(), "Error decoding grammar");
    let gr = gr.unwrap();

    assert_eq!(
        &Grammar::from_parts(
            vec![
                vec![97, 99],
                vec![256, 101],
                vec![103, 97],
                vec![257, 258],
                vec![257, 259, 99, 258]
            ],
            4
        ),
        &gr,
        "Grammar decoded incorrectly"
    );

    let s = gr.produce_source_string();
    assert_eq!(Ok("aceacegacga".to_owned()), s, "Grammar producing the wrong string");
}

fn missing(r: Result<Grammar, RReaderError>) -> Option<InputField> {
    match r {
        Err(RReaderError::MissingInput(f)) => Some(f),
        _ => None,
    }
}

#[test]
fn navarro_missing_fields() {
    let dec = |r: Vec<u8>, c: Vec<u8>| {
        missing(NavarroRepairDecoder::decode(RePairResult { file_c: c, file_r: r }))
    };
    assert_eq!(Some(InputField::AlphabetSize), dec(vec![1, 0, 0], vec![]));
    assert_eq!(Some(InputField::AlphabetCharacter), dec(vec![2, 0, 0, 0, 97], vec![]));
    assert_eq!(Some(InputField::PairLeft), dec(vec![1, 0, 0, 0, 97, 0, 0], vec![]));
    assert_eq!(
        Some(InputField::PairRight),
        dec(vec![1, 0, 0, 0, 97, 0, 0, 0, 0, 0], vec![])
    );
    assert_eq!(
        Some(InputField::SequenceSymbol),
        dec(vec![1, 0, 0, 0, 97], vec![0, 0, 0])
    );
    assert_eq!("Alphabet size", InputField::AlphabetSize.describe());
}

#[test]
fn navarro_no_pairs_gives_single_rule() {
    let gr = NavarroRepairDecoder::decode(RePairResult {
        file_c: vec![0, 0, 0, 0, 1, 0, 0, 0],
        file_r: vec![2, 0, 0, 0, b'x', b'y'],
    })
    .unwrap();
    assert_eq!(Grammar::from_parts(vec![vec![120, 121]], 0), gr);
    assert_eq!(Ok("xy".to_owned()), gr.produce_source_string());
}

#[test]
fn encode_length_of_sample_grammar() {
    let bytes = GrammarTupleCoder::encode(setup()).unwrap();
    assert_eq!(55, bytes.len());
}

#[test]
fn same_canonical_form_same_bytes() {
    // the sample grammar with its rules listed in another order
    let other = Grammar::from_parts(
        vec![
            vec![102, 103, 104, 259],
            vec![100, 101, 256],
            vec![259, 257, 100],
            vec![97, 98, 99],
        ],
        2,
    );
    assert_eq!(
        GrammarTupleCoder::encode(setup()).unwrap(),
        GrammarTupleCoder::encode(other).unwrap()
    );
}
