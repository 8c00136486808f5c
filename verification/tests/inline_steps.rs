use sabun::inline::{ranges_from_pieces, ranges_from_word_pieces, DiffTag};

#[test]
fn word_pieces_give_merged_ranges_for_related_lines() {
    let pieces = vec![
        (DiffTag::Equal, "x = "),
        (DiffTag::Delete, "a + b"),
        (DiffTag::Insert, "c - d"),
        (DiffTag::Equal, ";"),
    ];
    assert_eq!(
        ranges_from_word_pieces("x = a + b;", "x = c - d;", &pieces),
        Some((vec![4..9], vec![4..9]))
    );
}

#[test]
fn word_pieces_of_unrelated_lines_highlight_nothing() {
    let pieces = vec![(DiffTag::Delete, "a b c"), (DiffTag::Insert, "x y z")];
    assert_eq!(
        ranges_from_word_pieces("a b c", "x y z", &pieces),
        Some((vec![], vec![]))
    );
}

#[test]
fn word_pieces_that_swap_an_identifier_ask_for_a_finer_diff() {
    let pieces = vec![
        (DiffTag::Equal, "let "),
        (DiffTag::Delete, "foo"),
        (DiffTag::Insert, "bar"),
        (DiffTag::Equal, " = 1;"),
    ];
    assert_eq!(
        ranges_from_word_pieces("let foo = 1;", "let bar = 1;", &pieces),
        None
    );
}

#[test]
fn pieces_give_the_deleted_and_inserted_byte_ranges() {
    let pieces = vec![
        (DiffTag::Equal, "fo"),
        (DiffTag::Delete, "o"),
        (DiffTag::Insert, "x"),
        (DiffTag::Equal, "é!"),
    ];
    assert_eq!(ranges_from_pieces("fooé!", "foxé!", &pieces), (vec![2..3], vec![2..3]));
}
