use cram_codec::name_tokenizer::{duplicate_marker, find_duplicate_stream, write_header};
use cram_codec::name_tokenizer::{build_diffs, names_of, tokenize, tokens_at, Token, TokenWriter};

#[test]
fn tokenize_splits_runs() {
    let toks = tokenize(b"read_12:ab");
    assert_eq!(toks, vec![b"read".to_vec(), b"_".to_vec(), b"12".to_vec(), b":".to_vec(), b"ab".to_vec()]);
    assert!(tokenize(b"").is_empty());
}

#[test]
fn names_split_on_nul() {
    assert_eq!(names_of(b"a\0bc\0"), vec![b"a".to_vec(), b"bc".to_vec()]);
    assert_eq!(names_of(b"a\0\0"), vec![b"a".to_vec(), Vec::new()]);
    assert_eq!(names_of(b""), vec![Vec::<u8>::new()]);
}

#[test]
fn delta0_for_padded_counters() {
    let names = names_of(b"r.0001\0r.0002\0r.0003\0");
    let diffs = build_diffs(&names);
    assert_eq!(diffs.len(), 3);
    assert_eq!(diffs[0].tokens, vec![Token::Char(b'r'), Token::Char(b'.'), Token::PaddedDigits(1, 4), Token::End]);
    assert_eq!(diffs[1].mode, Token::Diff(1));
    assert_eq!(diffs[1].tokens, vec![Token::Match, Token::Match, Token::Delta0(2, 1), Token::End]);
    assert_eq!(diffs[2].tokens, vec![Token::Match, Token::Match, Token::Delta0(3, 1), Token::End]);
    let digits_position = tokens_at(&diffs, 2, &names);
    assert_eq!(digits_position, vec![Token::PaddedDigits(1, 4), Token::Delta0(2, 1), Token::Delta0(3, 1)]);
    let mut tw = TokenWriter::new();
    for t in &digits_position {
        tw.write_token(t).unwrap();
    }
    assert_eq!(tw.type_writer, vec![3, 9, 9]);
    assert_eq!(tw.delta0_writer, vec![1, 1]);
    assert_eq!(tw.digits0_writer, vec![1, 0, 0, 0]);
    assert_eq!(tw.dz_len_writer, vec![4]);
}

#[test]
fn letters_and_digits_form_one_token() {
    // "r0001" is one alphanumeric run, so it is a string token, and the
    // following names differ from it as whole strings.
    let names = names_of(b"r0001\0r0002\0r0003\0");
    let diffs = build_diffs(&names);
    assert_eq!(diffs[0].tokens, vec![Token::String(b"r0001".to_vec()), Token::End]);
    assert_eq!(diffs[1].tokens, vec![Token::String(b"r0002".to_vec()), Token::End]);
    assert_eq!(diffs[2].tokens, vec![Token::String(b"r0003".to_vec()), Token::End]);
}

#[test]
fn duplicates_and_deltas() {
    let names = names_of(b"x:10\0x:12\0x:10\0y:400");
    let diffs = build_diffs(&names);
    assert_eq!(diffs[1].tokens, vec![Token::Match, Token::Match, Token::Delta(12, 2), Token::End]);
    assert_eq!(diffs[2].mode, Token::Dup(2));
    assert_eq!(diffs[3].tokens, vec![Token::Char(b'y'), Token::Match, Token::Digits(400), Token::End]);
}


#[test]
fn duplicate_streams_and_header() {
    let mut a = TokenWriter::new();
    a.write_token(&Token::Digits(7)).unwrap();
    let mut b = TokenWriter::new();
    b.write_token(&Token::Digits(7)).unwrap();
    let writers = vec![a, b];
    assert_eq!(find_duplicate_stream(&writers, 1, &writers[1].digits_writer), Some((0, 7)));
    assert_eq!(find_duplicate_stream(&writers, 1, &writers[1].type_writer), Some((0, 0)));
    assert_eq!(find_duplicate_stream(&writers, 0, &writers[1].type_writer), None);
    assert_eq!(duplicate_marker(7, 0, 7), Ok(vec![0x47, 0, 7]));
    assert_eq!(duplicate_marker(0, 2, 0), Ok(vec![0xc0, 2, 0]));
    assert!(duplicate_marker(1, 300, 1).is_err());
    let mut h = Vec::new();
    write_header(&mut h, 10, 2, true).unwrap();
    assert_eq!(h, [10, 0, 0, 0, 2, 0, 0, 0, 1]);
}
