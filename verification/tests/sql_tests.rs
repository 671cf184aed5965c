use btree_store::repl::{next_action, reply_to, runs_metacommand, LoopAction, Reply, ReplError};
use btree_store::metacommand::MetacommandError;
use btree_store::sql_parser::{
    classify, parse_statement, parse_symbols, ColVal, Expr, NewColumnVal, ParseError, Sym,
};
use chumsky::error::Rich;
use chumsky::extra;
use chumsky::primitive::just;
use chumsky::text;
use chumsky::{IterParser, Parser};

#[test]
fn parse_insert_patch() {
    let query = r#"INSERT INTO Person(Name, Age, Admin) VALUES ("Bob", 21, FALSE);"#;

    assert_eq!(
        parse_statement(query).unwrap(),
        Expr::Insert {
            columns: vec![
                NewColumnVal {
                    column_name: "Name".to_string(),
                    value: ColVal::String("Bob".to_string())
                },
                NewColumnVal {
                    column_name: "Age".to_string(),
                    value: ColVal::Int(21)
                },
                NewColumnVal {
                    column_name: "Admin".to_string(),
                    value: ColVal::Boolean(false)
                }
            ],
            into_table: "Person".to_string()
        }
    );
}

#[test]
fn parse_basic_select() {
    assert_eq!(
        parse_statement("SELECT name, age FROM user;").unwrap(),
        Expr::Select {
            columns: vec!["name".to_string(), "age".to_string()],
            from_table: "user".to_string()
        }
    );
}

#[test]
fn parse_basic_select_with_extra_whitespace() {
    assert_eq!(
        parse_statement("  SELECT  name , age FROM   user  ;  ").unwrap(),
        Expr::Select {
            columns: vec!["name".to_string(), "age".to_string()],
            from_table: "user".to_string()
        }
    );
}

#[test]
fn statements_that_do_not_parse() {
    for q in [
        "",
        "SELECT",
        "SELECT name FROM user",
        "SELECT name FROM user ; x",
        "SELECTname FROM user;",
        "select name from user;",
        "SELECT FROM user;",
        "SELECT name, FROM user;",
        "INSERT INTO Person(Name) VALUES (1) ;",
        "INSERT INTO Person(Name) VALUES (TRUEish);",
        "INSERT INTO Person(Name) VALUES (\"two words\");",
        "INSERT Person(Name) VALUES (1);",
    ] {
        assert_eq!(parse_statement(q), Err(ParseError::Syntax), "{q}");
    }
    assert_eq!(
        parse_statement("INSERT INTO Person(Name, Age) VALUES (1);"),
        Err(ParseError::Arity)
    );
    assert_eq!(
        parse_statement("INSERT INTO Person() VALUES (1, 2);"),
        Err(ParseError::Arity)
    );
    assert_eq!(ParseError::Arity.message(), "Column names has different arity to values");
    for q in [
        "INSERT INTO Person(Name) VALUES (18446744073709551616);",
        "INSERT INTO Person(Name) VALUES ( 99999999999999999999999 , 1);",
        "INSERT INTO Person(a, b) VALUES (1 ,, 18446744073709551616);",
        "INSERT INTO Person(a, b) VALUES (TRUE, 18446744073709551616",
    ] {
        assert_eq!(parse_statement(q), Err(ParseError::NumberTooLarge), "{q}");
    }
    assert_eq!(
        parse_statement("INSERT INTO Person(a) VALUES (1 18446744073709551616);"),
        Err(ParseError::Syntax)
    );
    assert_eq!(
        parse_statement("INSERT INTO Person(a) VALUES (1);18446744073709551616"),
        Err(ParseError::Syntax)
    );
    assert_eq!(
        ParseError::NumberTooLarge.message(),
        "Error parsing int as column val: number too large to fit in target type"
    );
}

#[test]
fn values_of_every_kind() {
    assert_eq!(
        parse_statement("INSERT INTO t(a,,b , c,d)VALUES(TRUE,FALSE,,\"x_1\" , 18446744073709551615);"),
        Ok(Expr::Insert {
            into_table: "t".to_string(),
            columns: vec![
                NewColumnVal { column_name: "a".to_string(), value: ColVal::Boolean(true) },
                NewColumnVal { column_name: "b".to_string(), value: ColVal::Boolean(false) },
                NewColumnVal { column_name: "c".to_string(), value: ColVal::String("x_1".to_string()) },
                NewColumnVal { column_name: "d".to_string(), value: ColVal::Int(u64::MAX) },
            ],
        })
    );
    assert_eq!(
        parse_statement("INSERT INTO t() VALUES ();"),
        Ok(Expr::Insert { into_table: "t".to_string(), columns: vec![] })
    );
    assert_eq!(
        parse_statement("INSERT INTO täble(a) VALUES (007);"),
        Ok(Expr::Insert {
            into_table: "täble".to_string(),
            columns: vec![NewColumnVal { column_name: "a".to_string(), value: ColVal::Int(7) }],
        })
    );
}

#[test]
fn symbols_carry_the_classes_of_their_characters() {
    let syms = classify("a_1 \tß;");
    let want: Vec<(char, bool, bool, bool)> = vec![
        ('a', false, true, true),
        ('_', false, false, true),
        ('1', false, false, true),
        (' ', true, false, false),
        ('\t', true, false, false),
        ('ß', false, true, true),
        (';', false, false, false),
    ];
    assert_eq!(syms.len(), want.len());
    for (y, w) in syms.iter().zip(want.iter()) {
        assert_eq!((y.c, y.space, y.xid_start, y.xid_continue), *w);
    }
}

#[test]
fn symbols_parse_by_their_classes_alone() {
    // with classes of its own choosing, '#' is whitespace and '@' a letter
    let text = "SELECT#@@#FROM#t;";
    let syms: Vec<Sym> = text
        .chars()
        .map(|c| Sym {
            c,
            space: c == '#',
            xid_start: c.is_ascii_alphabetic() || c == '@',
            xid_continue: c.is_ascii_alphanumeric() || c == '@',
        })
        .collect();
    // a column name is an ASCII identifier whatever the classes say
    assert_eq!(parse_symbols(&syms), Err(ParseError::Syntax));
    let text = "SELECT#a#FROM#@t;";
    let syms: Vec<Sym> = text
        .chars()
        .map(|c| Sym {
            c,
            space: c == '#',
            xid_start: c.is_ascii_alphabetic() || c == '@',
            xid_continue: c.is_ascii_alphanumeric() || c == '@',
        })
        .collect();
    assert_eq!(
        parse_symbols(&syms),
        Ok(Expr::Select { columns: vec!["a".to_string()], from_table: "@t".to_string() })
    );
}

#[test]
fn shell_replies() {
    assert_eq!(reply_to("ping"), Ok(Reply { text: "Pong".to_string(), quit: false }));
    assert_eq!(reply_to(".exit"), Ok(Reply { text: "Exiting ...".to_string(), quit: true }));
    assert_eq!(
        reply_to(".tables"),
        Ok(Reply { text: "calling metacommand: \nTables".to_string(), quit: false })
    );
    assert_eq!(
        reply_to(".indexes"),
        Ok(Reply { text: "calling metacommand: \nIndexes".to_string(), quit: false })
    );
    assert_eq!(reply_to(".nothing"), Err(ReplError::Metacommand(MetacommandError::Unknown)));
    assert_eq!(reply_to("pong"), Err(ReplError::Unimplemented));
    assert_eq!(reply_to(""), Err(ReplError::Unimplemented));
}

// The same grammar written with parser combinators, to hold the parser against.

fn column_value<'a>() -> impl Parser<'a, &'a str, ColVal, extra::Err<Rich<'a, char>>> {
    let bool_val = just("TRUE").or(just("FALSE")).map(|b| {
        if b == "TRUE" {
            ColVal::Boolean(true)
        } else {
            ColVal::Boolean(false)
        }
    });
    let str_val = just("\"")
        .ignored()
        .then(text::ident())
        .then_ignore(just("\""))
        .map(|(_, s): (_, &str)| ColVal::String(s.to_string()));
    let int_val = text::digits(10)
        .to_slice()
        .try_map(|n: &str, span| match n.parse::<u64>() {
            Ok(num) => Ok(ColVal::Int(num)),
            Err(e) => Err(Rich::custom(span, format!("Error parsing int as column val: {}", e))),
        });
    bool_val.or(int_val).or(str_val)
}

fn column_vals<'a>() -> impl Parser<'a, &'a str, Vec<ColVal>, extra::Err<Rich<'a, char>>> {
    column_value::<'a>()
        .padded()
        .separated_by(just(',').padded().repeated().at_least(1))
        .collect::<Vec<_>>()
}

fn csv<'a>() -> impl Parser<'a, &'a str, Vec<&'a str>, extra::Err<Rich<'a, char>>> {
    let ident = text::ascii::ident().padded();
    ident
        .padded()
        .separated_by(just(',').padded().repeated().at_least(1))
        .collect::<Vec<_>>()
}

fn insert_patch<'a>() -> impl Parser<'a, &'a str, Expr, extra::Err<Rich<'a, char>>> {
    text::keyword("INSERT")
        .padded()
        .then_ignore(text::keyword("INTO").padded())
        .then(text::ident().padded())
        .then_ignore(just("("))
        .padded()
        .then(csv())
        .then_ignore(just(")"))
        .padded()
        .then_ignore(text::keyword("VALUES").padded())
        .then_ignore(just("("))
        .padded()
        .then(column_vals())
        .then_ignore(just(")"))
        .then_ignore(just(';'))
        .try_map(|(((_, table_name), col_names), col_values), span| {
            if col_names.len() != col_values.len() {
                return Err(Rich::custom(
                    span,
                    "Column names has different arity to values".to_string(),
                ));
            }
            let columns: Vec<NewColumnVal> = col_names
                .into_iter()
                .zip(col_values)
                .map(|(column_name, value): (&str, ColVal)| NewColumnVal {
                    column_name: column_name.to_string(),
                    value,
                })
                .collect();
            Ok(Expr::Insert { into_table: table_name.to_string(), columns })
        })
}

fn select<'a>() -> impl Parser<'a, &'a str, Expr, extra::Err<Rich<'a, char>>> {
    text::keyword("SELECT")
        .ignored()
        .padded()
        .then(csv())
        .then_ignore(text::keyword("FROM").padded())
        .then(text::ident().padded())
        .then_ignore(just(';'))
        .map(|((_, columns), table_name): ((_, Vec<&str>), &str)| Expr::Select {
            columns: columns.into_iter().map(|c: &str| c.to_string()).collect(),
            from_table: table_name.to_string(),
        })
}

fn combinators<'a>() -> impl Parser<'a, &'a str, Expr, extra::Err<Rich<'a, char>>> {
    select().or(insert_patch()).padded()
}

#[test]
fn parser_agrees_with_the_combinators() {
    let pieces = [
        "SELECT", "FROM", "INSERT", "INTO", "VALUES", "name", "age", "user", "Person", "_x9", "é",
        "TRUE", "FALSE", "TRUEish", "21", "007", "18446744073709551615", "18446744073709551616",
        "\"Bob\"", "\"a b\"", "\"\"", ",", ",,", "(", ")", ";", " ", "  ", "\t", "\n", "\u{2003}",
        "\u{202A}", "a1", "1a", "FROMage", "x",
    ];
    let mut texts: Vec<String> = vec![
        "SELECT name, age FROM user;".to_string(),
        "  SELECT  name , age FROM   user  ;  ".to_string(),
        "SELECT a,,b FROM t;".to_string(),
        "SELECT a b FROM t;".to_string(),
        "SELECT a FROM t ;".to_string(),
        "SELECT a FROM t; ;".to_string(),
        "SELECT FROM FROM t;".to_string(),
        "SELECT FROM t;".to_string(),
        "SELECT a, FROM t;".to_string(),
        "SELECT é FROM t;".to_string(),
        "SELECT a FROM é;".to_string(),
        "SELECTa FROM t;".to_string(),
        "SELECT a FROMt;".to_string(),
        "SELECT\u{2003}a\nFROM\tt;\n".to_string(),
        "SELECT\u{202A}a FROM t;".to_string(),
        r#"INSERT INTO Person(Name, Age, Admin) VALUES ("Bob", 21, FALSE);"#.to_string(),
        r#"INSERT INTO Person (Name) VALUES ("Bob");"#.to_string(),
        r#"INSERT INTO Person(Name) VALUES("Bob" );"#.to_string(),
        r#"INSERT INTO Person(Name)VALUES("Bob");"#.to_string(),
        r#"INSERT INTO Person(Name) VALUES ("Bob") ;"#.to_string(),
        r#"INSERT INTO Person(Name) VALUES ( "Bob" , );"#.to_string(),
        r#"INSERT INTO Person(Name,) VALUES ("Bob");"#.to_string(),
        r#"INSERT INTO Person(Name, Age) VALUES ("Bob");"#.to_string(),
        r#"INSERT INTO Person() VALUES ();"#.to_string(),
        r#"INSERT INTO Person(a) VALUES (TRUE);"#.to_string(),
        r#"INSERT INTO Person(a) VALUES (TRUEFALSE);"#.to_string(),
        r#"INSERT INTO Person(a) VALUES (TRUE FALSE);"#.to_string(),
        r#"INSERT INTO Person(a, b) VALUES (TRUE,, FALSE);"#.to_string(),
        r#"INSERT INTO Person(a) VALUES (00000000000000000000000018446744073709551615);"#.to_string(),
        r#"INSERT INTO Person(a) VALUES (18446744073709551616);"#.to_string(),
        r#"INSERT INTO Person(a) VALUES (12ab);"#.to_string(),
        r#"INSERT INTO Person(a) VALUES ("_é9");"#.to_string(),
        r#"INSERT INTO Person(a) VALUES ("9a");"#.to_string(),
        r#"INSERTINTO Person(a) VALUES (1);"#.to_string(),
        r#"INSERT INTOPerson(a) VALUES (1);"#.to_string(),
        r#" INSERT  INTO  Person  ( a )  VALUES  ( 1 );  "#.to_string(),
        r#"INSERT INTO Person( a ) VALUES ( 1 ) ;"#.to_string(),
    ];
    // every text of up to three pieces, and some longer ones made by a fixed rule
    for a in pieces.iter() {
        texts.push(a.to_string());
        for b in pieces.iter() {
            texts.push(format!("{a}{b}"));
        }
    }
    let mut x: u64 = 7;
    let mut n = 0;
    while n < 3000 {
        let mut t = String::new();
        let mut k = 0;
        let len = 3 + (n % 12);
        while k < len {
            x = x.wrapping_mul(6364136223846793005).wrapping_add(1442695040888963407);
            t.push_str(pieces[((x >> 33) % pieces.len() as u64) as usize]);
            k += 1;
        }
        texts.push(t);
        n += 1;
    }
    // and statements that are right but for one piece
    let good = [
        "SELECT", " ", "name", ",", " ", "age", " ", "FROM", " ", "user", ";",
    ];
    let good2 = [
        "INSERT", " ", "INTO", " ", "Person", "(", "Name", ",", "Age", ")", " ", "VALUES", " ", "(",
        "\"Bob\"", ",", "21", ")", ";",
    ];
    for base in [&good[..], &good2[..]] {
        for i in 0..base.len() {
            for p in pieces.iter() {
                let mut t = String::new();
                for (j, piece) in base.iter().enumerate() {
                    if j == i {
                        t.push_str(p);
                    } else {
                        t.push_str(piece);
                    }
                }
                texts.push(t);
                let mut t = String::new();
                for (j, piece) in base.iter().enumerate() {
                    if j == i {
                        t.push_str(p);
                    }
                    t.push_str(piece);
                }
                texts.push(t);
            }
        }
    }
    let mut accepted = 0;
    for t in texts.iter() {
        let ours = parse_statement(t).ok();
        let theirs = combinators().parse(t.as_str()).into_result().ok();
        if theirs.is_some() {
            accepted += 1;
        }
        assert_eq!(ours, theirs, "{t:?}");
    }
    assert!(accepted > 50);
}

#[test]
fn loop_skips_blank_lines_and_stops_on_quit() {
    for blank in ["", " ", "\n", " \t \r\n", "\u{a0}\u{2003}\n"] {
        assert_eq!(next_action(blank, None), LoopAction::Skip);
        assert_eq!(next_action(blank, Some(Ok(true))), LoopAction::Skip);
        assert_eq!(next_action(blank, Some(Err(()))), LoopAction::Skip);
    }
    for line in ["ping\n", "  .exit  \n", ".", "\u{200b}"] {
        assert_eq!(next_action(line, None), LoopAction::Respond);
        assert_eq!(next_action(line, Some(Ok(true))), LoopAction::Stop);
        assert_eq!(next_action(line, Some(Ok(false))), LoopAction::Proceed);
        assert_eq!(next_action(line, Some(Err(()))), LoopAction::Report);
    }
}

#[test]
fn blank_lines_are_those_that_trim_to_nothing() {
    for c in (0u32..0x3100).filter_map(char::from_u32) {
        let line = format!(" {c}\n");
        assert_eq!(next_action(&line, None) == LoopAction::Skip, line.trim().is_empty(), "{c:?}");
    }
}

#[test]
fn metacommands_are_the_dot_commands_but_exit() {
    assert!(runs_metacommand(".tables"));
    assert!(runs_metacommand(".nothing"));
    assert!(runs_metacommand("."));
    assert!(!runs_metacommand(".exit"));
    assert!(!runs_metacommand("ping"));
    assert!(!runs_metacommand("exit"));
    assert!(!runs_metacommand(""));
    assert_eq!(
        ReplError::Metacommand(MetacommandError::Unknown).written_before(),
        "calling metacommand: \n".to_string()
    );
    assert_eq!(ReplError::Unimplemented.written_before(), String::new());
}
