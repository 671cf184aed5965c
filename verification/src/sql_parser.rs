//! The statement parser of the shell: `SELECT` of named columns from a
//! table, and `INSERT` of values into named columns of a table.
//!
//! A statement is read as a sequence of characters, each with the classes
//! that the grammar asks about: whether it is whitespace, and whether it
//! can start or continue an identifier. The grammar is matched from left
//! to right without going back into a repetition: a list takes as many
//! items as it can, and the first alternative that matches is kept.

use vstd::prelude::*;
use vstd::string::*;

verus! {

/// A value in an `INSERT` statement.
#[derive(Debug, Clone, PartialEq, Eq)]
pub enum ColVal {
    Boolean(bool),
    String(String),
    Int(u64),
}

/// A column of an `INSERT` statement with the value that it gets.
#[derive(Debug, Clone, PartialEq, Eq)]
pub struct NewColumnVal {
    pub column_name: String,
    pub value: ColVal,
}

/// A parsed statement.
#[derive(Debug, Clone, PartialEq, Eq)]
pub enum Expr {
    Select { columns: Vec<String>, from_table: String },
    Insert { into_table: String, columns: Vec<NewColumnVal> },
}

/// Why a text is no statement.
#[derive(Debug, Clone, Copy, PartialEq, Eq, Structural)]
pub enum ParseError {
    /// The text does not follow the grammar.
    Syntax,
    /// An `INSERT` statement names more or fewer columns than it gives
    /// values.
    Arity,
    /// A number among the values of an `INSERT` statement does not fit 64
    /// bits.
    NumberTooLarge,
}

/// What a value in an `INSERT` statement holds.
pub enum ColValView {
    Boolean(bool),
    String(Seq<char>),
    Int(u64),
}

/// What a column with its value holds.
pub struct NewColumnValView {
    pub column_name: Seq<char>,
    pub value: ColValView,
}

/// What a parsed statement holds.
pub enum ExprView {
    Select { columns: Seq<Seq<char>>, from_table: Seq<char> },
    Insert { into_table: Seq<char>, columns: Seq<NewColumnValView> },
}

impl DeepView for ColVal {
    type V = ColValView;

    open spec fn deep_view(&self) -> ColValView {
        match self {
            ColVal::Boolean(b) => ColValView::Boolean(*b),
            ColVal::String(s) => ColValView::String(s@),
            ColVal::Int(n) => ColValView::Int(*n),
        }
    }
}

impl DeepView for NewColumnVal {
    type V = NewColumnValView;

    open spec fn deep_view(&self) -> NewColumnValView {
        NewColumnValView { column_name: self.column_name@, value: self.value.deep_view() }
    }
}

impl DeepView for Expr {
    type V = ExprView;

    open spec fn deep_view(&self) -> ExprView {
        match self {
            Expr::Select { columns, from_table } => ExprView::Select {
                columns: columns.deep_view(),
                from_table: from_table@,
            },
            Expr::Insert { into_table, columns } => ExprView::Insert {
                into_table: into_table@,
                columns: columns.deep_view(),
            },
        }
    }
}

impl ParseError {
    /// The text that describes the error.
    pub fn message(&self) -> (r: String)
        ensures
            r@ == match *self {
                ParseError::Syntax => "Statement does not parse"@,
                ParseError::Arity => "Column names has different arity to values"@,
                ParseError::NumberTooLarge =>
                    "Error parsing int as column val: number too large to fit in target type"@,
            },
    {
        match self {
            ParseError::Syntax => "Statement does not parse".to_owned(),
            ParseError::Arity => "Column names has different arity to values".to_owned(),
            ParseError::NumberTooLarge =>
                "Error parsing int as column val: number too large to fit in target type".to_owned(),
        }
    }
}

/// A character of a statement with its classes.
#[derive(Debug, Clone, Copy, PartialEq, Eq, Structural)]
pub struct Sym {
    pub c: char,
    /// Whether the character is whitespace.
    pub space: bool,
    /// Whether the character can start an identifier.
    pub xid_start: bool,
    /// Whether the character can continue an identifier.
    pub xid_continue: bool,
}

/// Whether std counts the character as whitespace.
pub uninterp spec fn char_is_whitespace(c: char) -> bool;

/// Whether the character has the Unicode property XID_Start.
pub uninterp spec fn char_is_xid_start(c: char) -> bool;

/// Whether the character has the Unicode property XID_Continue.
pub uninterp spec fn char_is_xid_continue(c: char) -> bool;

/// Calls `char::is_whitespace` of std. The result is taken to depend on
/// the character alone; nothing more is claimed of it.
#[verifier::external_body]
pub(crate) fn is_whitespace(c: char) -> (r: bool)
    ensures
        r == char_is_whitespace(c),
{
    c.is_whitespace()
}

/// Calls `unicode_ident::is_xid_start`, a lookup in the tables of the
/// Unicode property XID_Start. The result is taken to depend on the
/// character alone; nothing more is claimed of it.
#[verifier::external_body]
fn is_xid_start(c: char) -> (r: bool)
    ensures
        r == char_is_xid_start(c),
{
    unicode_ident::is_xid_start(c)
}

/// Calls `unicode_ident::is_xid_continue`, a lookup in the tables of the
/// Unicode property XID_Continue. The result is taken to depend on the
/// character alone; nothing more is claimed of it.
#[verifier::external_body]
fn is_xid_continue(c: char) -> (r: bool)
    ensures
        r == char_is_xid_continue(c),
{
    unicode_ident::is_xid_continue(c)
}

/// Calls `String::push` of std, which appends one character to the
/// string.
#[verifier::external_body]
fn push_char(s: &mut String, c: char)
    ensures
        final(s)@ == old(s)@.push(c),
{
    s.push(c)
}

/// The character with the classes that the libraries give it.
pub open spec fn spec_sym(c: char) -> Sym {
    Sym {
        c,
        space: char_is_whitespace(c),
        xid_start: char_is_xid_start(c),
        xid_continue: char_is_xid_continue(c),
    }
}

/// The characters of a text with their classes.
pub open spec fn spec_classify(text: Seq<char>) -> Seq<Sym> {
    Seq::new(text.len(), |i: int| spec_sym(text[i]))
}

/// Gives every character of a text its classes.
pub fn classify(src: &str) -> (r: Vec<Sym>)
    ensures
        r@ == spec_classify(src@),
{
    let n = src.unicode_len();
    let mut out: Vec<Sym> = Vec::new();
    let mut i: usize = 0;
    while i < n
        invariant
            i <= n,
            n == src@.len(),
            out@ == spec_classify(src@.subrange(0, i as int)),
        decreases n - i,
    {
        let c = src.get_char(i);
        out.push(
            Sym {
                c,
                space: is_whitespace(c),
                xid_start: is_xid_start(c),
                xid_continue: is_xid_continue(c),
            },
        );
        i = i + 1;
        assert(out@ =~= spec_classify(src@.subrange(0, i as int)));
    }
    assert(src@.subrange(0, n as int) =~= src@);
    out
}

/// The code points that change the direction of text: they are never
/// taken as whitespace.
pub open spec fn is_bidi_control(c: char) -> bool {
    (0x202A <= c as u32 <= 0x202E) || (0x2066 <= c as u32 <= 0x2069)
}

/// Whether the grammar skips the character as whitespace.
pub open spec fn is_ws(y: Sym) -> bool {
    y.space && !is_bidi_control(y.c)
}

/// Whether the character is an ASCII letter.
pub open spec fn is_ascii_letter(c: char) -> bool {
    (0x41 <= c as u32 <= 0x5A) || (0x61 <= c as u32 <= 0x7A)
}

/// Whether the character is a decimal digit.
pub open spec fn is_digit(c: char) -> bool {
    0x30 <= c as u32 <= 0x39
}

/// Whether the character can start an identifier: of a Unicode
/// identifier or, if `unicode` is false, of an ASCII one.
pub open spec fn is_start(y: Sym, unicode: bool) -> bool {
    if unicode {
        y.xid_start || y.c == '_'
    } else {
        is_ascii_letter(y.c) || y.c == '_'
    }
}

/// Whether the character can continue an identifier.
pub open spec fn is_continue(y: Sym, unicode: bool) -> bool {
    if unicode {
        y.xid_continue
    } else {
        is_ascii_letter(y.c) || is_digit(y.c) || y.c == '_'
    }
}

/// The first position from `i` on that holds no whitespace.
pub open spec fn skip_ws(s: Seq<Sym>, i: int) -> int
    decreases s.len() - i,
{
    if 0 <= i < s.len() && is_ws(s[i]) {
        skip_ws(s, i + 1)
    } else {
        i
    }
}

/// The first position from `i` on that cannot continue an identifier.
pub open spec fn run_end(s: Seq<Sym>, i: int, unicode: bool) -> int
    decreases s.len() - i,
{
    if 0 <= i < s.len() && is_continue(s[i], unicode) {
        run_end(s, i + 1, unicode)
    } else {
        i
    }
}

/// The first position from `i` on that holds no digit.
pub open spec fn digits_end(s: Seq<Sym>, i: int) -> int
    decreases s.len() - i,
{
    if 0 <= i < s.len() && is_digit(s[i].c) {
        digits_end(s, i + 1)
    } else {
        i
    }
}

/// The end of the identifier that starts at `i`, if one does.
pub open spec fn ident_at(s: Seq<Sym>, i: int, unicode: bool) -> Option<int> {
    if 0 <= i < s.len() && is_start(s[i], unicode) {
        Some(run_end(s, i + 1, unicode))
    } else {
        None
    }
}

/// The characters from `i` up to `j`.
pub open spec fn text_of(s: Seq<Sym>, i: int, j: int) -> Seq<char> {
    Seq::new((j - i) as nat, |k: int| s[i + k].c)
}

/// The end of the keyword at `i`: of an identifier that spells `kw`.
pub open spec fn keyword_at(s: Seq<Sym>, i: int, kw: Seq<char>) -> Option<int> {
    match ident_at(s, i, true) {
        Some(e) => if text_of(s, i, e) == kw {
            Some(e)
        } else {
            None
        },
        None => None,
    }
}

/// The end of the keyword from `i` on, whitespace around it included.
pub open spec fn padded_keyword(s: Seq<Sym>, i: int, kw: Seq<char>) -> Option<int> {
    match keyword_at(s, skip_ws(s, i), kw) {
        Some(e) => Some(skip_ws(s, e)),
        None => None,
    }
}

/// The identifier from `i` on and its end, whitespace around it included.
pub open spec fn padded_ident(s: Seq<Sym>, i: int, unicode: bool) -> Option<(Seq<char>, int)> {
    let j = skip_ws(s, i);
    match ident_at(s, j, unicode) {
        Some(e) => Some((text_of(s, j, e), skip_ws(s, e))),
        None => None,
    }
}

/// Whether the character `c` stands at `i`.
pub open spec fn char_at(s: Seq<Sym>, i: int, c: char) -> bool {
    0 <= i < s.len() && s[i].c == c
}

/// The end of the comma from `i` on, whitespace around it included.
pub open spec fn comma(s: Seq<Sym>, i: int) -> Option<int> {
    let j = skip_ws(s, i);
    if char_at(s, j, ',') {
        Some(skip_ws(s, j + 1))
    } else {
        None
    }
}

/// The end of the commas from `i` on, as many as there are.
pub open spec fn more_commas(s: Seq<Sym>, i: int) -> int
    decreases s.len() - i,
{
    match comma(s, i) {
        Some(p) => if i < p <= s.len() {
            more_commas(s, p)
        } else {
            i
        },
        None => i,
    }
}

/// The end of the separator from `i` on: one comma or more.
pub open spec fn commas(s: Seq<Sym>, i: int) -> Option<int> {
    match comma(s, i) {
        Some(p) => Some(more_commas(s, p)),
        None => None,
    }
}

/// The names that follow the names `acc`, which end at `p`, and the end
/// of the list: each further name comes after a separator; a separator
/// that no name follows is not part of the list.
pub open spec fn names_from(s: Seq<Sym>, p: int, acc: Seq<Seq<char>>) -> (Seq<Seq<char>>, int)
    decreases s.len() - p,
{
    match commas(s, p) {
        Some(q) => match padded_ident(s, q, false) {
            Some((x, p2)) => if p < p2 <= s.len() {
                names_from(s, p2, acc.push(x))
            } else {
                (acc, p)
            },
            None => (acc, p),
        },
        None => (acc, p),
    }
}

/// The list of column names from `i` on, which may be empty, and its end.
pub open spec fn names(s: Seq<Sym>, i: int) -> (Seq<Seq<char>>, int) {
    match padded_ident(s, i, false) {
        Some((x, p)) => names_from(s, p, seq![x]),
        None => (Seq::empty(), i),
    }
}

/// The number that the digits from `i` up to `j` spell.
pub open spec fn digits_value(s: Seq<Sym>, i: int, j: int) -> nat
    decreases j - i,
{
    if j <= i {
        0
    } else {
        (digits_value(s, i, j - 1) * 10 + (s[j - 1].c as u32 - 0x30)) as nat
    }
}

/// Whether the characters of `word` stand at `i`.
pub open spec fn word_at(s: Seq<Sym>, i: int, word: Seq<char>) -> bool {
    &&& 0 <= i
    &&& i + word.len() <= s.len()
    &&& forall|k: int| 0 <= k < word.len() ==> (#[trigger] s[i + k]).c == word[k]
}

/// The letters of `TRUE`.
pub open spec fn word_true() -> Seq<char> {
    seq!['T', 'R', 'U', 'E']
}

/// The letters of `FALSE`.
pub open spec fn word_false() -> Seq<char> {
    seq!['F', 'A', 'L', 'S', 'E']
}

/// The value at `i` and its end: `TRUE` or `FALSE`, or a run of digits
/// that spells a number of 64 bits, or an identifier in double quotes.
pub open spec fn value_at(s: Seq<Sym>, i: int) -> Option<(ColValView, int)> {
    if word_at(s, i, word_true()) {
        Some((ColValView::Boolean(true), i + 4))
    } else if word_at(s, i, word_false()) {
        Some((ColValView::Boolean(false), i + 5))
    } else if 0 <= i < s.len() && is_digit(s[i].c) {
        if digits_value(s, i, digits_end(s, i)) <= u64::MAX {
            Some((ColValView::Int(digits_value(s, i, digits_end(s, i)) as u64), digits_end(s, i)))
        } else {
            None
        }
    } else if char_at(s, i, '"') {
        match ident_at(s, i + 1, true) {
            Some(e) => if char_at(s, e, '"') {
                Some((ColValView::String(text_of(s, i + 1, e)), e + 1))
            } else {
                None
            },
            None => None,
        }
    } else {
        None
    }
}

/// The value from `i` on and its end, whitespace around it included.
pub open spec fn padded_value(s: Seq<Sym>, i: int) -> Option<(ColValView, int)> {
    match value_at(s, skip_ws(s, i)) {
        Some((v, e)) => Some((v, skip_ws(s, e))),
        None => None,
    }
}

/// The values that follow the values `acc`, which end at `p`, and the
/// end of the list.
pub open spec fn values_from(s: Seq<Sym>, p: int, acc: Seq<ColValView>) -> (Seq<ColValView>, int)
    decreases s.len() - p,
{
    match commas(s, p) {
        Some(q) => match padded_value(s, q) {
            Some((x, p2)) => if p < p2 <= s.len() {
                values_from(s, p2, acc.push(x))
            } else {
                (acc, p)
            },
            None => (acc, p),
        },
        None => (acc, p),
    }
}

/// The list of values from `i` on, which may be empty, and its end.
pub open spec fn values(s: Seq<Sym>, i: int) -> (Seq<ColValView>, int) {
    match padded_value(s, i) {
        Some((x, p)) => values_from(s, p, seq![x]),
        None => (Seq::empty(), i),
    }
}

/// The letters of `SELECT`.
pub open spec fn word_select() -> Seq<char> {
    seq!['S', 'E', 'L', 'E', 'C', 'T']
}

/// The letters of `FROM`.
pub open spec fn word_from() -> Seq<char> {
    seq!['F', 'R', 'O', 'M']
}

/// The letters of `INSERT`.
pub open spec fn word_insert() -> Seq<char> {
    seq!['I', 'N', 'S', 'E', 'R', 'T']
}

/// The letters of `INTO`.
pub open spec fn word_into() -> Seq<char> {
    seq!['I', 'N', 'T', 'O']
}

/// The letters of `VALUES`.
pub open spec fn word_values() -> Seq<char> {
    seq!['V', 'A', 'L', 'U', 'E', 'S']
}

/// The `SELECT` statement at `i` and its end: the keyword, a list of
/// column names, `FROM`, the name of a table and a semicolon.
pub open spec fn select_at(s: Seq<Sym>, i: int) -> Option<(ExprView, int)> {
    match padded_keyword(s, i, word_select()) {
        Some(p1) => match padded_keyword(s, names(s, p1).1, word_from()) {
            Some(p3) => match padded_ident(s, p3, true) {
                Some((table, p4)) => if char_at(s, p4, ';') {
                    Some((ExprView::Select { columns: names(s, p1).0, from_table: table }, p4 + 1))
                } else {
                    None
                },
                None => None,
            },
            None => None,
        },
        None => None,
    }
}

/// The columns of an `INSERT` statement: each name with the value at its
/// place.
pub open spec fn zip_columns(names: Seq<Seq<char>>, values: Seq<ColValView>) -> Seq<NewColumnValView> {
    Seq::new(
        names.len(),
        |k: int| NewColumnValView { column_name: names[k], value: values[k] },
    )
}

/// Where the list of column names of the `INSERT` statement at `i`
/// starts, and the name of the table: after `INSERT INTO`, the name and
/// an opening bracket.
pub open spec fn insert_head(s: Seq<Sym>, i: int) -> Option<(Seq<char>, int)> {
    match padded_keyword(s, i, word_insert()) {
        Some(p1) => match padded_keyword(s, p1, word_into()) {
            Some(p2) => match padded_ident(s, p2, true) {
                Some((table, p3)) => if char_at(s, p3, '(') {
                    Some((table, skip_ws(s, p3 + 1)))
                } else {
                    None
                },
                None => None,
            },
            None => None,
        },
        None => None,
    }
}

/// Where the list of values starts when the list of column names ends at
/// `p`: after a closing bracket, `VALUES` and an opening bracket.
pub open spec fn insert_middle(s: Seq<Sym>, p: int) -> Option<int> {
    if char_at(s, p, ')') {
        match padded_keyword(s, skip_ws(s, p + 1), word_values()) {
            Some(p7) => if char_at(s, p7, '(') {
                Some(skip_ws(s, p7 + 1))
            } else {
                None
            },
            None => None,
        }
    } else {
        None
    }
}

/// Whether a run of digits that spells more than 64 bits hold starts at
/// `j`.
pub open spec fn large_number_at(s: Seq<Sym>, j: int) -> bool {
    0 <= j < s.len() && is_digit(s[j].c) && digits_value(s, j, digits_end(s, j)) > u64::MAX
}

/// Whether the list of values that starts at `p` stops at a number that
/// does not fit 64 bits: where the first value, or the value after the
/// last separator, would stand.
pub open spec fn stops_at_large_number(s: Seq<Sym>, p: int) -> bool {
    if values(s, p).0.len() == 0 {
        large_number_at(s, skip_ws(s, p))
    } else {
        match commas(s, values(s, p).1) {
            Some(q) => large_number_at(s, skip_ws(s, q)),
            None => false,
        }
    }
}

/// The `INSERT` statement at `i` and its end. A statement that follows
/// the grammar but names more or fewer columns than it gives values is
/// refused with `Arity`; one whose list of values stops at a number that
/// does not fit 64 bits is refused with `NumberTooLarge`.
pub open spec fn insert_at(s: Seq<Sym>, i: int) -> Result<(ExprView, int), ParseError> {
    match insert_head(s, i) {
        Some((table, p4)) => match insert_middle(s, names(s, p4).1) {
            Some(p8) => {
                let cols = names(s, p4).0;
                let vals = values(s, p8).0;
                let p9 = values(s, p8).1;
                if char_at(s, p9, ')') && char_at(s, p9 + 1, ';') {
                    if cols.len() == vals.len() {
                        Ok((ExprView::Insert { into_table: table, columns: zip_columns(cols, vals) }, p9 + 2))
                    } else {
                        Err(ParseError::Arity)
                    }
                } else if !char_at(s, p9, ')') && stops_at_large_number(s, p8) {
                    Err(ParseError::NumberTooLarge)
                } else {
                    Err(ParseError::Syntax)
                }
            },
            None => Err(ParseError::Syntax),
        },
        None => Err(ParseError::Syntax),
    }
}

/// The statement that the characters spell: a `SELECT` statement or,
/// where there is none, an `INSERT` statement, with whitespace before
/// and after it and nothing else.
pub open spec fn spec_parse(s: Seq<Sym>) -> Result<ExprView, ParseError> {
    let start = skip_ws(s, 0);
    match select_at(s, start) {
        Some((e, p)) => if skip_ws(s, p) == s.len() {
            Ok(e)
        } else {
            Err(ParseError::Syntax)
        },
        None => match insert_at(s, start) {
            Ok((e, p)) => if skip_ws(s, p) == s.len() {
                Ok(e)
            } else {
                Err(ParseError::Syntax)
            },
            Err(e) => Err(e),
        },
    }
}

fn check_ws(y: &Sym) -> (r: bool)
    ensures
        r == is_ws(*y),
{
    let u = y.c as u32;
    y.space && !((0x202A <= u && u <= 0x202E) || (0x2066 <= u && u <= 0x2069))
}

fn check_digit(c: char) -> (r: bool)
    ensures
        r == is_digit(c),
{
    let u = c as u32;
    0x30 <= u && u <= 0x39
}

fn check_letter(c: char) -> (r: bool)
    ensures
        r == is_ascii_letter(c),
{
    let u = c as u32;
    (0x41 <= u && u <= 0x5A) || (0x61 <= u && u <= 0x7A)
}

fn check_start(y: &Sym, unicode: bool) -> (r: bool)
    ensures
        r == is_start(*y, unicode),
{
    if unicode {
        y.xid_start || y.c == '_'
    } else {
        check_letter(y.c) || y.c == '_'
    }
}

fn check_continue(y: &Sym, unicode: bool) -> (r: bool)
    ensures
        r == is_continue(*y, unicode),
{
    if unicode {
        y.xid_continue
    } else {
        check_letter(y.c) || check_digit(y.c) || y.c == '_'
    }
}

fn skip_spaces(s: &Vec<Sym>, i: usize) -> (r: usize)
    requires
        i <= s@.len(),
    ensures
        r == skip_ws(s@, i as int),
        i <= r <= s@.len(),
{
    let mut j = i;
    while j < s.len() && check_ws(&s[j])
        invariant
            i <= j <= s@.len(),
            skip_ws(s@, i as int) == skip_ws(s@, j as int),
        decreases s@.len() - j,
    {
        j = j + 1;
    }
    j
}

fn run_to(s: &Vec<Sym>, i: usize, unicode: bool) -> (r: usize)
    requires
        i <= s@.len(),
    ensures
        r == run_end(s@, i as int, unicode),
        i <= r <= s@.len(),
{
    let mut j = i;
    while j < s.len() && check_continue(&s[j], unicode)
        invariant
            i <= j <= s@.len(),
            run_end(s@, i as int, unicode) == run_end(s@, j as int, unicode),
        decreases s@.len() - j,
    {
        j = j + 1;
    }
    j
}

fn digits_to(s: &Vec<Sym>, i: usize) -> (r: usize)
    requires
        i <= s@.len(),
    ensures
        r == digits_end(s@, i as int),
        i <= r <= s@.len(),
        forall|k: int| i <= k < r ==> is_digit(#[trigger] s@[k].c),
{
    let mut j = i;
    while j < s.len() && check_digit(s[j].c)
        invariant
            i <= j <= s@.len(),
            digits_end(s@, i as int) == digits_end(s@, j as int),
            forall|k: int| i <= k < j ==> is_digit(#[trigger] s@[k].c),
        decreases s@.len() - j,
    {
        j = j + 1;
    }
    j
}

fn find_ident(s: &Vec<Sym>, i: usize, unicode: bool) -> (r: Option<usize>)
    requires
        i <= s@.len(),
    ensures
        match r {
            Some(e) => ident_at(s@, i as int, unicode) == Some(e as int) && i < e <= s@.len(),
            None => ident_at(s@, i as int, unicode) is None,
        },
{
    if i < s.len() && check_start(&s[i], unicode) {
        Some(run_to(s, i + 1, unicode))
    } else {
        None
    }
}

fn take_text(s: &Vec<Sym>, i: usize, j: usize) -> (r: String)
    requires
        i <= j <= s@.len(),
    ensures
        r@ == text_of(s@, i as int, j as int),
{
    let mut out = String::new();
    let mut k = i;
    while k < j
        invariant
            i <= k <= j <= s@.len(),
            out@ == text_of(s@, i as int, k as int),
        decreases j - k,
    {
        push_char(&mut out, s[k].c);
        k = k + 1;
        assert(out@ =~= text_of(s@, i as int, k as int));
    }
    out
}

fn spells(s: &Vec<Sym>, i: usize, j: usize, word: &Vec<char>) -> (r: bool)
    requires
        i <= j <= s@.len(),
    ensures
        r == (text_of(s@, i as int, j as int) == word@),
{
    if j - i != word.len() {
        return false;
    }
    let mut k: usize = 0;
    while k < word.len()
        invariant
            i <= j <= s@.len(),
            j - i == word@.len(),
            k <= word@.len(),
            forall|t: int| 0 <= t < k ==> s@[i + t].c == word@[t],
        decreases word@.len() - k,
    {
        if s[i + k].c != word[k] {
            assert(text_of(s@, i as int, j as int)[k as int] != word@[k as int]);
            return false;
        }
        k = k + 1;
    }
    assert(text_of(s@, i as int, j as int) =~= word@);
    true
}

fn stands_at(s: &Vec<Sym>, i: usize, word: &Vec<char>) -> (r: bool)
    requires
        i <= s@.len(),
    ensures
        r == word_at(s@, i as int, word@),
        r ==> i + word@.len() <= s@.len() <= usize::MAX,
{
    if s.len() - i < word.len() {
        return false;
    }
    let mut k: usize = 0;
    while k < word.len()
        invariant
            i + word@.len() <= s@.len() <= usize::MAX,
            k <= word@.len(),
            forall|t: int| 0 <= t < k ==> (#[trigger] s@[i + t]).c == word@[t],
        decreases word@.len() - k,
    {
        if s[i + k].c != word[k] {
            return false;
        }
        k = k + 1;
    }
    true
}

fn has_char(s: &Vec<Sym>, i: usize, c: char) -> (r: bool)
    ensures
        r == char_at(s@, i as int, c),
        r ==> i < s@.len() <= usize::MAX,
{
    i < s.len() && s[i].c == c
}

fn find_keyword(s: &Vec<Sym>, i: usize, word: &Vec<char>) -> (r: Option<usize>)
    requires
        i <= s@.len(),
    ensures
        match r {
            Some(e) => padded_keyword(s@, i as int, word@) == Some(e as int) && i < e <= s@.len(),
            None => padded_keyword(s@, i as int, word@) is None,
        },
{
    let j = skip_spaces(s, i);
    match find_ident(s, j, true) {
        Some(e) => {
            if spells(s, j, e, word) {
                Some(skip_spaces(s, e))
            } else {
                None
            }
        },
        None => None,
    }
}

fn find_padded_ident(s: &Vec<Sym>, i: usize, unicode: bool) -> (r: Option<(String, usize)>)
    requires
        i <= s@.len(),
    ensures
        match r {
            Some((x, e)) => padded_ident(s@, i as int, unicode) == Some((x@, e as int)) && i < e
                <= s@.len(),
            None => padded_ident(s@, i as int, unicode) is None,
        },
{
    let j = skip_spaces(s, i);
    match find_ident(s, j, unicode) {
        Some(e) => Some((take_text(s, j, e), skip_spaces(s, e))),
        None => None,
    }
}

fn find_comma(s: &Vec<Sym>, i: usize) -> (r: Option<usize>)
    requires
        i <= s@.len(),
    ensures
        match r {
            Some(e) => comma(s@, i as int) == Some(e as int) && i < e <= s@.len(),
            None => comma(s@, i as int) is None,
        },
{
    let j = skip_spaces(s, i);
    if has_char(s, j, ',') {
        Some(skip_spaces(s, j + 1))
    } else {
        None
    }
}

fn find_commas(s: &Vec<Sym>, i: usize) -> (r: Option<usize>)
    requires
        i <= s@.len(),
    ensures
        match r {
            Some(e) => commas(s@, i as int) == Some(e as int) && i < e <= s@.len(),
            None => commas(s@, i as int) is None,
        },
{
    match find_comma(s, i) {
        Some(first) => {
            let mut p = first;
            loop
                invariant
                    i < p <= s@.len(),
                    comma(s@, i as int) == Some(first as int),
                    more_commas(s@, first as int) == more_commas(s@, p as int),
                decreases s@.len() - p,
            {
                match find_comma(s, p) {
                    Some(q) => {
                        p = q;
                    },
                    None => {
                        return Some(p);
                    },
                }
            }
        },
        None => None,
    }
}

fn parse_names(s: &Vec<Sym>, i: usize) -> (r: (Vec<String>, usize))
    requires
        i <= s@.len(),
    ensures
        names(s@, i as int) == (r.0.deep_view(), r.1 as int),
        i <= r.1 <= s@.len(),
{
    let mut out: Vec<String> = Vec::new();
    let (first, start) = match find_padded_ident(s, i, false) {
        Some(pair) => pair,
        None => {
            assert(out.deep_view() =~= Seq::<Seq<char>>::empty());
            return (out, i);
        },
    };
    let ghost fv = first@;
    out.push(first);
    assert(out.deep_view() =~= seq![fv]);
    let mut p = start;
    loop
        invariant
            i <= p <= s@.len(),
            names(s@, i as int) == names_from(s@, p as int, out.deep_view()),
        decreases s@.len() - p,
    {
        let q = match find_commas(s, p) {
            Some(q) => q,
            None => {
                return (out, p);
            },
        };
        match find_padded_ident(s, q, false) {
            Some((x, p2)) => {
                let ghost before = out.deep_view();
                let ghost xv = x@;
                out.push(x);
                assert(out.deep_view() =~= before.push(xv));
                p = p2;
            },
            None => {
                return (out, p);
            },
        }
    }
}

/// The digits only add to the number that they spell.
proof fn lemma_digits_grow(s: Seq<Sym>, i: int, j: int)
    requires
        0 <= i <= j < s.len(),
        is_digit(s[j].c),
    ensures
        digits_value(s, i, j + 1) == digits_value(s, i, j) * 10 + (s[j].c as u32 - 0x30),
        digits_value(s, i, j + 1) >= digits_value(s, i, j),
{
    assert(digits_value(s, i, j) * 10 >= digits_value(s, i, j)) by (nonlinear_arith)
        requires
            digits_value(s, i, j) >= 0,
    ;
}

/// A run of digits that spells more than 64 bits hold still does so when
/// more digits follow.
proof fn lemma_digits_stay_large(s: Seq<Sym>, i: int, j: int, e: int)
    requires
        0 <= i <= j <= e <= s.len(),
        forall|k: int| i <= k < e ==> is_digit(#[trigger] s[k].c),
        digits_value(s, i, j) > u64::MAX,
    ensures
        digits_value(s, i, e) > u64::MAX,
    decreases e - j,
{
    if j < e {
        lemma_digits_grow(s, i, j);
        lemma_digits_stay_large(s, i, j + 1, e);
    }
}

fn parse_number(s: &Vec<Sym>, i: usize, e: usize) -> (r: Option<u64>)
    requires
        i <= e <= s@.len(),
        forall|k: int| i <= k < e ==> is_digit(#[trigger] s@[k].c),
    ensures
        match r {
            Some(n) => digits_value(s@, i as int, e as int) == n,
            None => digits_value(s@, i as int, e as int) > u64::MAX,
        },
{
    let mut v: u64 = 0;
    let mut j = i;
    while j < e
        invariant
            i <= j <= e <= s@.len(),
            forall|k: int| i <= k < e ==> is_digit(#[trigger] s@[k].c),
            v == digits_value(s@, i as int, j as int),
        decreases e - j,
    {
        let d = (s[j].c as u32 - 0x30) as u64;
        proof {
            lemma_digits_grow(s@, i as int, j as int);
        }
        if v > (u64::MAX - d) / 10 {
            proof {
                assert(digits_value(s@, i as int, j + 1) > u64::MAX);
                lemma_digits_stay_large(s@, i as int, j + 1, e as int);
            }
            return None;
        }
        v = v * 10 + d;
        j = j + 1;
    }
    Some(v)
}

fn parse_value(s: &Vec<Sym>, i: usize) -> (r: Option<(ColVal, usize)>)
    requires
        i <= s@.len(),
    ensures
        match r {
            Some((v, e)) => value_at(s@, i as int) == Some((v.deep_view(), e as int)) && i < e
                <= s@.len(),
            None => value_at(s@, i as int) is None,
        },
{
    let t = vec!['T', 'R', 'U', 'E'];
    let f = vec!['F', 'A', 'L', 'S', 'E'];
    assert(t@ =~= word_true());
    assert(f@ =~= word_false());
    if stands_at(s, i, &t) {
        return Some((ColVal::Boolean(true), i + 4));
    }
    if stands_at(s, i, &f) {
        return Some((ColVal::Boolean(false), i + 5));
    }
    if i < s.len() && check_digit(s[i].c) {
        let e = digits_to(s, i + 1);
        return match parse_number(s, i, e) {
            Some(n) => Some((ColVal::Int(n), e)),
            None => None,
        };
    }
    if has_char(s, i, '"') {
        match find_ident(s, i + 1, true) {
            Some(e) => {
                if has_char(s, e, '"') {
                    Some((ColVal::String(take_text(s, i + 1, e)), e + 1))
                } else {
                    None
                }
            },
            None => None,
        }
    } else {
        None
    }
}

fn find_padded_value(s: &Vec<Sym>, i: usize) -> (r: Option<(ColVal, usize)>)
    requires
        i <= s@.len(),
    ensures
        match r {
            Some((v, e)) => padded_value(s@, i as int) == Some((v.deep_view(), e as int)) && i < e
                <= s@.len(),
            None => padded_value(s@, i as int) is None,
        },
{
    let j = skip_spaces(s, i);
    match parse_value(s, j) {
        Some((v, e)) => Some((v, skip_spaces(s, e))),
        None => None,
    }
}

fn parse_values(s: &Vec<Sym>, i: usize) -> (r: (Vec<ColVal>, usize))
    requires
        i <= s@.len(),
    ensures
        values(s@, i as int) == (r.0.deep_view(), r.1 as int),
        i <= r.1 <= s@.len(),
{
    let mut out: Vec<ColVal> = Vec::new();
    let (first, start) = match find_padded_value(s, i) {
        Some(pair) => pair,
        None => {
            assert(out.deep_view() =~= Seq::<ColValView>::empty());
            return (out, i);
        },
    };
    let ghost fv = first.deep_view();
    out.push(first);
    assert(out.deep_view() =~= seq![fv]);
    let mut p = start;
    loop
        invariant
            i <= p <= s@.len(),
            values(s@, i as int) == values_from(s@, p as int, out.deep_view()),
        decreases s@.len() - p,
    {
        let q = match find_commas(s, p) {
            Some(q) => q,
            None => {
                return (out, p);
            },
        };
        match find_padded_value(s, q) {
            Some((x, p2)) => {
                let ghost before = out.deep_view();
                let ghost xv = x.deep_view();
                out.push(x);
                assert(out.deep_view() =~= before.push(xv));
                p = p2;
            },
            None => {
                return (out, p);
            },
        }
    }
}

fn parse_select(s: &Vec<Sym>, i: usize) -> (r: Option<(Expr, usize)>)
    requires
        i <= s@.len(),
    ensures
        match r {
            Some((x, e)) => select_at(s@, i as int) == Some((x.deep_view(), e as int)) && e
                <= s@.len(),
            None => select_at(s@, i as int) is None,
        },
{
    let kw_select = vec!['S', 'E', 'L', 'E', 'C', 'T'];
    let kw_from = vec!['F', 'R', 'O', 'M'];
    assert(kw_select@ =~= word_select());
    assert(kw_from@ =~= word_from());
    let p1 = match find_keyword(s, i, &kw_select) {
        Some(p) => p,
        None => {
            return None;
        },
    };
    let (columns, p2) = parse_names(s, p1);
    let p3 = match find_keyword(s, p2, &kw_from) {
        Some(p) => p,
        None => {
            return None;
        },
    };
    let (from_table, p4) = match find_padded_ident(s, p3, true) {
        Some(pair) => pair,
        None => {
            return None;
        },
    };
    if !has_char(s, p4, ';') {
        return None;
    }
    Some((Expr::Select { columns, from_table }, p4 + 1))
}

fn zip(names: Vec<String>, values: Vec<ColVal>) -> (r: Vec<NewColumnVal>)
    requires
        names@.len() == values@.len(),
    ensures
        r.deep_view() == zip_columns(names.deep_view(), values.deep_view()),
{
    let ghost nv = names.deep_view();
    let ghost vv = values.deep_view();
    let mut names = names;
    let mut values = values;
    let mut rev: Vec<NewColumnVal> = Vec::new();
    let n = names.len();
    // the columns are taken from the back and turned round afterwards
    while names.len() > 0
        invariant
            names@.len() == values@.len(),
            names@.len() + rev@.len() == n,
            n == nv.len(),
            n == vv.len(),
            forall|k: int| 0 <= k < names@.len() ==> (#[trigger] names@[k])@ == nv[k],
            forall|k: int| 0 <= k < values@.len() ==> (#[trigger] values@[k]).deep_view() == vv[k],
            forall|k: int|
                0 <= k < rev@.len() ==> (#[trigger] rev@[k]).deep_view() == (NewColumnValView {
                    column_name: nv[n - 1 - k],
                    value: vv[n - 1 - k],
                }),
        decreases names@.len(),
    {
        let name = names.pop();
        let value = values.pop();
        match (name, value) {
            (Some(column_name), Some(value)) => {
                rev.push(NewColumnVal { column_name, value });
            },
            _ => {},
        }
    }
    let mut out: Vec<NewColumnVal> = Vec::new();
    while rev.len() > 0
        invariant
            rev@.len() + out@.len() == n,
            n == nv.len(),
            n == vv.len(),
            forall|k: int|
                0 <= k < rev@.len() ==> (#[trigger] rev@[k]).deep_view() == (NewColumnValView {
                    column_name: nv[n - 1 - k],
                    value: vv[n - 1 - k],
                }),
            forall|k: int|
                0 <= k < out@.len() ==> (#[trigger] out@[k]).deep_view() == (NewColumnValView {
                    column_name: nv[k],
                    value: vv[k],
                }),
        decreases rev@.len(),
    {
        match rev.pop() {
            Some(col) => {
                out.push(col);
            },
            None => {},
        }
    }
    assert(out.deep_view() =~= zip_columns(nv, vv));
    out
}

fn parse_insert(s: &Vec<Sym>, i: usize) -> (r: Result<(Expr, usize), ParseError>)
    requires
        i <= s@.len(),
    ensures
        match r {
            Ok((x, e)) => insert_at(s@, i as int) == Ok::<(ExprView, int), ParseError>(
                (x.deep_view(), e as int),
            ) && e <= s@.len(),
            Err(e) => insert_at(s@, i as int) == Err::<(ExprView, int), ParseError>(e),
        },
{
    let kw_insert = vec!['I', 'N', 'S', 'E', 'R', 'T'];
    let kw_into = vec!['I', 'N', 'T', 'O'];
    let kw_values = vec!['V', 'A', 'L', 'U', 'E', 'S'];
    assert(kw_insert@ =~= word_insert());
    assert(kw_into@ =~= word_into());
    assert(kw_values@ =~= word_values());
    let p1 = match find_keyword(s, i, &kw_insert) {
        Some(p) => p,
        None => {
            return Err(ParseError::Syntax);
        },
    };
    let p2 = match find_keyword(s, p1, &kw_into) {
        Some(p) => p,
        None => {
            return Err(ParseError::Syntax);
        },
    };
    let (into_table, p3) = match find_padded_ident(s, p2, true) {
        Some(pair) => pair,
        None => {
            return Err(ParseError::Syntax);
        },
    };
    if !has_char(s, p3, '(') {
        return Err(ParseError::Syntax);
    }
    let p4 = skip_spaces(s, p3 + 1);
    let (cols, p5) = parse_names(s, p4);
    if !has_char(s, p5, ')') {
        return Err(ParseError::Syntax);
    }
    let p6 = skip_spaces(s, p5 + 1);
    let p7 = match find_keyword(s, p6, &kw_values) {
        Some(p) => p,
        None => {
            return Err(ParseError::Syntax);
        },
    };
    if !has_char(s, p7, '(') {
        return Err(ParseError::Syntax);
    }
    let p8 = skip_spaces(s, p7 + 1);
    let (vals, p9) = parse_values(s, p8);
    if !has_char(s, p9, ')') {
        let start = if vals.len() == 0 {
            Some(p8)
        } else {
            find_commas(s, p9)
        };
        return match start {
            Some(q) => {
                let j = skip_spaces(s, q);
                if j < s.len() && check_digit(s[j].c) {
                    let e = digits_to(s, j + 1);
                    match parse_number(s, j, e) {
                        Some(_) => Err(ParseError::Syntax),
                        None => Err(ParseError::NumberTooLarge),
                    }
                } else {
                    Err(ParseError::Syntax)
                }
            },
            None => Err(ParseError::Syntax),
        };
    }
    if !has_char(s, p9 + 1, ';') {
        return Err(ParseError::Syntax);
    }
    if cols.len() != vals.len() {
        return Err(ParseError::Arity);
    }
    let columns = zip(cols, vals);
    Ok((Expr::Insert { into_table, columns }, p9 + 2))
}

/// Parses a statement from its characters with their classes.
pub fn parse_symbols(s: &Vec<Sym>) -> (r: Result<Expr, ParseError>)
    ensures
        match spec_parse(s@) {
            Ok(e) => r is Ok && r->Ok_0.deep_view() == e,
            Err(e) => r == Err::<Expr, ParseError>(e),
        },
{
    let start = skip_spaces(s, 0);
    match parse_select(s, start) {
        Some((e, p)) => {
            if skip_spaces(s, p) == s.len() {
                Ok(e)
            } else {
                Err(ParseError::Syntax)
            }
        },
        None => match parse_insert(s, start) {
            Ok((e, p)) => {
                if skip_spaces(s, p) == s.len() {
                    Ok(e)
                } else {
                    Err(ParseError::Syntax)
                }
            },
            Err(e) => Err(e),
        },
    }
}

/// Parses a statement: the characters are given their classes, and the
/// grammar is matched against them.
pub fn parse_statement(src: &str) -> (r: Result<Expr, ParseError>)
    ensures
        match spec_parse(spec_classify(src@)) {
            Ok(e) => r is Ok && r->Ok_0.deep_view() == e,
            Err(e) => r == Err::<Expr, ParseError>(e),
        },
{
    let syms = classify(src);
    parse_symbols(&syms)
}

} // verus!
