use rreader::grammar::Grammar;

fn setup() -> Grammar {
    Grammar::from_parts(
        vec![
            vec![257, 258, 100],
            vec![97, 98, 99],
            vec![100, 101, 259],
            vec![102, 103, 104, 257],
        ],
        0,
    )
}

#[test]
fn consume_test() {
    let gr = setup();
    let (rules, start_rule) = gr.consume();

    assert_eq!(
        vec![
            vec![257, 258, 100],
            vec![97, 98, 99],
            vec![100, 101, 259],
            vec![102, 103, 104, 257],
        ],
        rules,
        "Grammar rules changed when consume was called"
    );
    assert_eq!(
        0, start_rule,
        "Grammar start rule changed when consume was called"
    );
}

#[test]
fn rule_count_test() {
    let gr = setup();
    assert_eq!(4, gr.rule_count(), "Grammar rule count incorrect")
}

#[test]
fn index_test() {
    let gr = setup();
    assert_eq!(&[97usize, 98, 99][..], gr.rule(1).as_slice(), "Grammar indexing incorrect");
}

#[test]
fn reproduce_test() {
    let gr = setup();

    let src_string = gr.produce_source_string();
    assert_eq!(
        Ok("abcdefghabcd".to_owned()),
        src_string,
        "Source string not correctly reproduced"
    );
}

#[test]
fn renumber_test() {
    let mut gr = setup();

    gr.renumber();

    assert_eq!(
        &Grammar::from_parts(
            vec![
                vec![97, 98, 99],
                vec![102, 103, 104, 256],
                vec![100, 101, 257],
                vec![256, 258, 100],
            ],
            3
        ),
        &gr,
        "Grammar renumbering incorrect"
    );
}

#[test]
fn test_empty() {
    assert_eq!(
        (Vec::<Vec<usize>>::new(), 0),
        Grammar::empty().consume(),
        "Empty grammar not empty"
    );
    assert_eq!(
        (Vec::<Vec<usize>>::new(), 0),
        Grammar::from_parts(vec![], 0).consume(),
        "Empty grammar produced by from_parts not empty"
    );
    assert_eq!(Grammar::empty(), Grammar::from_parts(vec![], 0));
}

#[test]
fn terminal_non_terminal_test() {
    assert_eq!(true, Grammar::is_nonterminal(260), "symbol 260 not classified as non-terminal");
    assert_eq!(true, Grammar::is_nonterminal(256), "symbol 256 not classified as non-terminal");
    assert_eq!(false, Grammar::is_nonterminal(255), "symbol 255 classified as non-terminal");
    assert_eq!(false, Grammar::is_nonterminal(24), "symbol 224 classified as non-terminal");

    assert_eq!(false, Grammar::is_terminal(260), "symbol 260 classified as terminal");
    assert_eq!(false, Grammar::is_terminal(256), "symbol 256 classified as terminal");
    assert_eq!(true, Grammar::is_terminal(255), "symbol 255 not classified as terminal");
    assert_eq!(true, Grammar::is_terminal(24), "symbol 24 not classified as terminal");
}

#[test]
fn renumber_twice_is_renumber_once() {
    let mut once = setup();
    once.renumber();
    let mut twice = once.clone();
    twice.renumber();
    assert_eq!(once, twice);
}

#[test]
fn renumber_orders_children_first() {
    let mut gr = setup();
    gr.renumber();
    let n = gr.rule_count();
    for i in 0..n {
        for &s in gr.rule(i) {
            if Grammar::is_nonterminal(s) {
                assert!(s - 256 < i);
            }
        }
    }
    assert!(gr.is_canonical());
    assert!(!setup().is_canonical());
}

#[test]
fn renumber_drops_unreachable_rules() {
    let mut gr = Grammar::from_parts(vec![vec![97], vec![98, 256], vec![99]], 1);
    gr.renumber();
    assert_eq!(Grammar::from_parts(vec![vec![97], vec![98, 256]], 1), gr);
}

#[test]
fn renumber_empty_is_unchanged() {
    let mut gr = Grammar::from_parts(vec![], 5);
    gr.renumber();
    assert_eq!(Grammar::from_parts(vec![], 5), gr);
}

#[test]
fn set_start_rule_changes_start() {
    let mut gr = setup();
    gr.set_start_rule(2);
    assert_eq!(2, gr.consume().1);
}

#[test]
fn empty_grammar_expands_to_nothing() {
    let mut out = vec![1u8];
    Grammar::empty().write_source_string(&mut out);
    assert_eq!(vec![1u8], out);
    assert_eq!(Ok(String::new()), Grammar::empty().produce_source_string());
}

#[test]
fn expansion_appends_bytes() {
    let mut out = vec![b'x'];
    setup().write_source_string(&mut out);
    assert_eq!(b"xabcdefghabcd".to_vec(), out);
}

#[test]
fn non_utf8_expansion_is_an_error() {
    let gr = Grammar::from_parts(vec![vec![0xff, 0xfe]], 0);
    assert!(gr.produce_source_string().is_err());
    let mut out = vec![];
    Grammar::from_parts(vec![vec![0xff, 0xfe]], 0).write_source_string(&mut out);
    assert_eq!(vec![0xffu8, 0xfe], out);
}

#[test]
fn well_formed_and_acyclic_checks() {
    assert!(setup().is_well_formed());
    assert!(setup().is_acyclic());
    assert!(!Grammar::from_parts(vec![vec![97, 257]], 0).is_well_formed());
    assert!(!Grammar::from_parts(vec![vec![97]], 1).is_well_formed());
    assert!(Grammar::empty().is_well_formed());
    assert!(Grammar::empty().is_acyclic());
    // R0 -> R1, R1 -> R0
    let cyclic = Grammar::from_parts(vec![vec![257], vec![256]], 0);
    assert!(cyclic.is_well_formed());
    assert!(!cyclic.is_acyclic());
    assert!(!Grammar::from_parts(vec![vec![97, 256]], 0).is_acyclic());
    // a chain whose references point forwards is still acyclic
    let forward = Grammar::from_parts(vec![vec![257, 257], vec![258, 97], vec![98]], 0);
    assert!(forward.is_acyclic());
    assert!(!forward.is_canonical());
}
