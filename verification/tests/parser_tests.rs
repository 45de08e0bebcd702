use game_of_life::parser::{
    buf_to_int, parse_rle, rle_first_line, rle_tag, rle_tag_sequence, Rle, RleComment,
    RleFirstLine, RleTag, RleTagSequence,
};

#[test]
fn valid_first_line_test() {
    let expectations = vec![
        ("x = 3, y = 2\n", RleFirstLine(3, 2)),
        (
            "x = 100, y = 34, rules = adknajkdn ansdnaslkdn ksnd\n",
            RleFirstLine(100, 34),
        ),
        (
            "x =     100,        y    = 34, rules = adknajkdn ansdnaslkdn ksnd\n",
            RleFirstLine(100, 34),
        ),
        (
            "x=100,y=34,rules=adknajkdnansdnaslkdnksnd\n",
            RleFirstLine(100, 34),
        ),
    ];

    for (input, output) in expectations {
        assert_eq!(
            rle_first_line(input.as_bytes(), 0),
            Ok((input.len(), output))
        );
    }
}

#[test]
fn invalid_first_line_test() {
    let expectations = vec![
        ("x = _3, y = 2\n", "_3,"),
        ("= 100, y = 34, rules = adknajkdn ansdnaslkdn ksnd\n", "="),
        ("x=100,y=34", ""),
        ("abcdef", "abcdef"),
    ];

    for (input, output) in expectations {
        if let Err(at) = rle_first_line(input.as_bytes(), 0) {
            assert!(input[at..].starts_with(output));
        } else {
            panic!("{} should not be a valid input", input);
        }
    }
}

#[test]
fn valid_tag_test() {
    let s = "b";
    assert_eq!(rle_tag(s.as_bytes(), 0), Ok((1, RleTag::Dead)));

    let s = "o";
    assert_eq!(rle_tag(s.as_bytes(), 0), Ok((1, RleTag::Alive)));
}

#[test]
fn invalid_tag() {
    for c in 0..127u8 {
        if c as char == 'b' || c as char == 'o' || c as char == '$' {
            continue;
        }
        let s = [c];
        assert!(rle_tag(&s, 0).is_err());
    }
}

#[test]
fn one_cell_no_number_sequence_test() {
    let s = "b$";
    let (pos, t) = rle_tag_sequence(s.as_bytes(), 0).unwrap();
    assert_eq!((&s[pos..], t), ("$", RleTagSequence(1, RleTag::Dead)));

    let s = "b\n";
    let (pos, t) = rle_tag_sequence(s.as_bytes(), 0).unwrap();
    assert_eq!((&s[pos..], t), ("\n", RleTagSequence(1, RleTag::Dead)));

    let s = "b";
    let (pos, t) = rle_tag_sequence(s.as_bytes(), 0).unwrap();
    assert_eq!((&s[pos..], t), ("", RleTagSequence(1, RleTag::Dead)));

    let s = "   babc";
    let (pos, t) = rle_tag_sequence(s.as_bytes(), 0).unwrap();
    assert_eq!((&s[pos..], t), ("abc", RleTagSequence(1, RleTag::Dead)));

    let s = "   o$";
    let (pos, t) = rle_tag_sequence(s.as_bytes(), 0).unwrap();
    assert_eq!((&s[pos..], t), ("$", RleTagSequence(1, RleTag::Alive)));

    let s = "o\n";
    let (pos, t) = rle_tag_sequence(s.as_bytes(), 0).unwrap();
    assert_eq!((&s[pos..], t), ("\n", RleTagSequence(1, RleTag::Alive)));

    let s = "o";
    let (pos, t) = rle_tag_sequence(s.as_bytes(), 0).unwrap();
    assert_eq!((&s[pos..], t), ("", RleTagSequence(1, RleTag::Alive)));

    let s = "oabc";
    let (pos, t) = rle_tag_sequence(s.as_bytes(), 0).unwrap();
    assert_eq!((&s[pos..], t), ("abc", RleTagSequence(1, RleTag::Alive)));
}

#[test]
fn invalid_cells_sequence_test() {
    let s = "abc";
    assert!(rle_tag_sequence(s.as_bytes(), 0).is_err());

    let s = "23";
    assert!(rle_tag_sequence(s.as_bytes(), 0).is_err());

    let s = "   ";
    assert!(rle_tag_sequence(s.as_bytes(), 0).is_err());

    let s = "\t";
    assert!(rle_tag_sequence(s.as_bytes(), 0).is_err());

    let s = "\n";
    assert!(rle_tag_sequence(s.as_bytes(), 0).is_err());

    let s = "-3b";
    assert!(rle_tag_sequence(s.as_bytes(), 0).is_err());
}

#[test]
fn valid_several_cells_rle_tag_sequence_test() {
    let s = "36b";
    let x = rle_tag_sequence(s.as_bytes(), 0);
    assert_eq!(x, Ok((3, RleTagSequence(36, RleTag::Dead))));

    let s = "      1b";
    let x = rle_tag_sequence(s.as_bytes(), 0);
    assert_eq!(x, Ok((8, RleTagSequence(1, RleTag::Dead))));

    let s = "100000000b";
    let x = rle_tag_sequence(s.as_bytes(), 0);
    assert_eq!(x, Ok((10, RleTagSequence(100000000, RleTag::Dead))));

    let s = "36o";
    let x = rle_tag_sequence(s.as_bytes(), 0);
    assert_eq!(x, Ok((3, RleTagSequence(36, RleTag::Alive))));

    let s = "1o";
    let x = rle_tag_sequence(s.as_bytes(), 0);
    assert_eq!(x, Ok((2, RleTagSequence(1, RleTag::Alive))));

    let s = "    100000000o";
    let x = rle_tag_sequence(s.as_bytes(), 0);
    assert_eq!(x, Ok((14, RleTagSequence(100000000, RleTag::Alive))));
}

#[test]
fn rle_parsing_test() {
    let complete = "#N Smiley
        #O Achim Flammenkamp
        #C A period 8 oscillator found in July 1994.
        #C www.conwaylife.com/wiki/index.php?title=Smiley
        #R -12 30
        x = 7, y = 7, rule = 23/3
        3ob3o$bobobob2$!
        ";
    let x = parse_rle(complete.as_bytes());
    let rle = Rle {
        comments: vec![
            RleComment::Name("Smiley".to_string()),
            RleComment::Author("Achim Flammenkamp".to_string()),
            RleComment::Comment("A period 8 oscillator found in July 1994.".to_string()),
            RleComment::Comment("www.conwaylife.com/wiki/index.php?title=Smiley".to_string()),
            RleComment::Coordinates(-12, 30),
        ],
        size: RleFirstLine(7, 7),
        content: vec![
            RleTagSequence(3, RleTag::Alive),
            RleTagSequence(1, RleTag::Dead),
            RleTagSequence(3, RleTag::Alive),
            RleTagSequence(1, RleTag::NextLine),
            RleTagSequence(1, RleTag::Dead),
            RleTagSequence(1, RleTag::Alive),
            RleTagSequence(1, RleTag::Dead),
            RleTagSequence(1, RleTag::Alive),
            RleTagSequence(1, RleTag::Dead),
            RleTagSequence(1, RleTag::Alive),
            RleTagSequence(1, RleTag::Dead),
            RleTagSequence(2, RleTag::NextLine),
        ],
    };
    assert_eq!(x.map(|r| r.1), Ok(rle));
}

#[test]
fn buf_to_int_parses_and_rejects_overflow() {
    let digits: Vec<char> = "123".chars().collect();
    assert_eq!(buf_to_int(&digits), Some(123));

    let digits: Vec<char> = "100000000".chars().collect();
    assert_eq!(buf_to_int(&digits), Some(100000000));

    // 25 nines cannot fit any machine word.
    let digits: Vec<char> = "9999999999999999999999999".chars().collect();
    assert_eq!(buf_to_int(&digits), None);
}

#[test]
fn comment_forms_parse() {
    let text = "#P 3 -4\n# free form note\nx = 1, y = 1\no!";
    let (_, rle) = parse_rle(text.as_bytes()).unwrap();
    assert_eq!(
        rle.comments,
        vec![
            RleComment::Coordinates(3, -4),
            RleComment::Other(" free form note".to_string()),
        ]
    );
    assert_eq!(rle.size, RleFirstLine(1, 1));
}
