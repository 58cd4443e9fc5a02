use life_engine::cells::Coord;
use life_engine::loader::{from_string, lexer, Lexem, ParseError};

#[test]
fn loader_test_lexer_param() {
    assert!(lexer("x =  25\ny = 30").unwrap() ==
        vec![Lexem::ParamName(String::from("x")), Lexem::ValueNumeric(25),
             Lexem::ParamName(String::from("y")), Lexem::ValueNumeric(30)]);
}

#[test]
fn loader_test_lexer_param_comma_sep() {
    assert!(lexer("x =  25 ,   y = 30").unwrap() ==
        vec![Lexem::ParamName(String::from("x")), Lexem::ValueNumeric(25), Lexem::Comma,
             Lexem::ParamName(String::from("y")), Lexem::ValueNumeric(30)]);
}

#[test]
#[should_panic]
fn loader_test_lexer_error1() {
    lexer("x =  a25\ny = 30").unwrap();
}

#[test]
#[should_panic]
fn loader_test_lexer_error2() {
    lexer("x =  ").unwrap();
}

#[test]
#[should_panic]
fn loader_test_lexer_error3() {
    lexer("=  25").unwrap();
}

#[test]
fn loader_test_parse_rle1() {
    // glider
    assert!(from_string(String::from("x =  3, y = 0\nbo$2b\no$3o!")).unwrap() ==
    [Coord { col: 1, row: 0 }, Coord { col: 2, row: 1 }, Coord { col: 0, row: 2 },
     Coord { col: 1, row: 2 }, Coord { col: 2, row: 2 }]);
}

#[test]
fn test_parse_rle2() {
    // Gosper glider gun
    assert!(from_string(String::from("x= 20, y=100\n24bo$22bobo$12b2o6b2o12b2o$11bo3bo4b2o12b2\
    o$2o8bo5bo3b2o$2o8bo3bob2o4bobo$10bo5bo7bo$11bo3bo$12b2o!")).unwrap() ==
           &[Coord { col: 24, row: 0 }, Coord { col: 22, row: 1 }, Coord { col: 24, row: 1 },
             Coord { col: 12, row: 2 }, Coord { col: 13, row: 2 }, Coord { col: 20, row: 2 },
             Coord { col: 21, row: 2 }, Coord { col: 34, row: 2 }, Coord { col: 35, row: 2 },
             Coord { col: 11, row: 3 }, Coord { col: 15, row: 3 }, Coord { col: 20, row: 3 },
             Coord { col: 21, row: 3 }, Coord { col: 34, row: 3 }, Coord { col: 35, row: 3 },
             Coord { col: 0, row: 4 }, Coord { col: 1, row: 4 }, Coord { col: 10, row: 4 },
             Coord { col: 16, row: 4 }, Coord { col: 20, row: 4 }, Coord { col: 21, row: 4 },
             Coord { col: 0, row: 5 }, Coord { col: 1, row: 5 }, Coord { col: 10, row: 5 },
             Coord { col: 14, row: 5 }, Coord { col: 16, row: 5 }, Coord { col: 17, row: 5 },
             Coord { col: 22, row: 5 }, Coord { col: 24, row: 5 }, Coord { col: 10, row: 6 },
             Coord { col: 16, row: 6 }, Coord { col: 24, row: 6 }, Coord { col: 11, row: 7 },
             Coord { col: 15, row: 7 }, Coord { col: 12, row: 8 }, Coord { col: 13, row: 8 }][..]);
}

fn glider() -> Vec<Coord> {
    vec![Coord { col: 1, row: 0 }, Coord { col: 2, row: 1 }, Coord { col: 0, row: 2 },
         Coord { col: 1, row: 2 }, Coord { col: 2, row: 2 }]
}

#[test]
fn parser_reads_glider() {
    assert_eq!(from_string(String::from("x=3,y=0\nbo$2bo$3o!")).unwrap(), glider());
}

#[test]
fn parser_skips_comments_and_crlf() {
    let text = String::from("#N Glider\r\n#C a comment\r\nx = 3, y = 3\r\nbo$2bo$3o!\r\n");
    assert_eq!(from_string(text).unwrap(), glider());
}

#[test]
fn parser_without_header_gives_no_cells() {
    assert_eq!(from_string(String::from("#only a comment")).unwrap(), vec![]);
    assert_eq!(from_string(String::new()).unwrap(), vec![]);
}

#[test]
fn parser_header_error_is_reported() {
    assert_eq!(from_string(String::from("x = \nbo!")), Err(ParseError::InputExhausted));
}

#[test]
fn lexer_error_variants() {
    assert_eq!(lexer("=  25"), Err(ParseError::EmptyName));
    assert_eq!(lexer("x1 = 3"), Err(ParseError::WrongName(String::from("x1="))));
    assert_eq!(lexer("x =  a25\ny = 30"), Err(ParseError::NotANumber(String::from("a25y=30"))));
    assert_eq!(lexer("x =  "), Err(ParseError::InputExhausted));
    assert_eq!(lexer("x = 99999999999999999999999"),
               Err(ParseError::NotANumber(String::from("99999999999999999999999"))));
}

#[test]
fn parser_dead_runs_and_row_ends() {
    // "2b3o" then a skipped row, then one live cell
    let cells = from_string(String::from("x = 5, y = 3\n2b3o$$o!")).unwrap();
    assert_eq!(cells, vec![Coord { col: 2, row: 0 }, Coord { col: 3, row: 0 },
                           Coord { col: 4, row: 0 }, Coord { col: 0, row: 2 }]);
}

#[test]
fn parse_error_descriptions() {
    assert_eq!(ParseError::EmptyName.description(), "Option name can't be empty");
    assert_eq!(ParseError::InputExhausted.description(), "Input exhausted");
}

#[test]
fn test_lexer_param() {
    assert!(lexer("x =  25\ny = 30").unwrap() ==
        vec![Lexem::ParamName(String::from("x")), Lexem::ValueNumeric(25),
             Lexem::ParamName(String::from("y")), Lexem::ValueNumeric(30)]);
}

#[test]
fn test_lexer_param_comma_sep() {
    assert!(lexer("x =  25 ,   y = 30").unwrap() ==
        vec![Lexem::ParamName(String::from("x")), Lexem::ValueNumeric(25), Lexem::Comma,
             Lexem::ParamName(String::from("y")), Lexem::ValueNumeric(30)]);
}

#[test]
fn test_parse_rle1() {
    let cells = from_string(String::from("x =  3\ny = 0\nbo$2bo$3o!")).unwrap();
    println!("{:?}", cells);
    // the second header line is read as the first body line, and holds no run
    assert_eq!(cells, vec![Coord { col: 1, row: 0 }, Coord { col: 2, row: 1 }, Coord { col: 0, row: 2 },
                           Coord { col: 1, row: 2 }, Coord { col: 2, row: 2 }]);
}
